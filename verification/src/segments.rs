//! Entropy coding in segments that end where all byte values have been seen.

use vstd::prelude::*;

use crate::egap::{
    egap_block, egap_decode, entropy_decode, entropy_encode, lemma_egap_block_len,
    lemma_egap_roundtrip, EgapError,
};
use crate::lz77::{distinct_below, lemma_distinct_below, uses_all_bytes};

verus! {

/// No segment but the last is shorter.
pub const EGAP_MIN_SEGMENT: usize = 1024;

/// Where the segment that begins at `pos` ends, if all byte values are not yet seen before `i`:
/// in front of the byte that completes them, but not before the least length; else at the end.
#[verifier::opaque]
pub open spec fn segment_end(data: Seq<u8>, pos: nat, i: nat) -> nat
    decreases data.len() - i,
{
    if i >= data.len() {
        data.len()
    } else if uses_all_bytes(data.subrange(pos as int, (i + 1) as int)) {
        let cut = if i < pos + EGAP_MIN_SEGMENT {
            (pos + EGAP_MIN_SEGMENT) as nat
        } else {
            i
        };
        if cut < data.len() {
            cut
        } else {
            data.len()
        }
    } else {
        segment_end(data, pos, i + 1)
    }
}

proof fn lemma_segment_end(data: Seq<u8>, pos: nat, i: nat)
    requires
        pos <= i,
        pos < data.len(),
    ensures
        pos < segment_end(data, pos, i) <= data.len(),
    decreases data.len() - i,
{
    reveal(segment_end);
    if i < data.len() && !uses_all_bytes(data.subrange(pos as int, (i + 1) as int)) {
        lemma_segment_end(data, pos, i + 1);
    }
}

/// The coded segments of `data` from `pos` on.
pub open spec fn segments_from(data: Seq<u8>, pos: nat) -> Seq<Seq<u8>>
    decreases data.len() - pos,
{
    if pos >= data.len() {
        seq![]
    } else {
        let end = segment_end(data, pos, pos);
        if pos < end <= data.len() {
            seq![egap_block(data.subrange(pos as int, end as int))] + segments_from(data, end)
        } else {
            seq![]
        }
    }
}

/// The lengths of `blocks`, each in 32 bits.
pub open spec fn block_sizes(blocks: Seq<Seq<u8>>) -> Seq<u32> {
    Seq::new(blocks.len(), |i: int| (blocks[i].len() % 0x1_0000_0000) as u32)
}

/// The blocks one behind the other.
pub open spec fn joined(blocks: Seq<Seq<u8>>) -> Seq<u8>
    decreases blocks.len(),
{
    if blocks.len() == 0 {
        seq![]
    } else {
        joined(blocks.drop_last()) + blocks.last()
    }
}

/// How many byte values have been seen, and which.
spec fn seen_ok(seen: Seq<bool>, s: Seq<u8>) -> bool {
    forall|b: u8| (#[trigger] seen[b as int]) == s.contains(b)
}

proof fn lemma_distinct_push(s: Seq<u8>, b: u8, n: nat)
    requires
        n <= 256,
    ensures
        distinct_below(s.push(b), n) == distinct_below(s, n) + if b < n && !s.contains(b) {
            1nat
        } else {
            0
        },
    decreases n,
{
    if n > 0 {
        lemma_distinct_push(s, b, (n - 1) as nat);
        let c = (n - 1) as u8;
        let t = s.push(b);
        if s.contains(c) {
            let i = choose|i: int| 0 <= i < s.len() && s[i] == c;
            assert(t[i] == c);
        }
        if t.contains(c) && c != b {
            let i = choose|i: int| 0 <= i < t.len() && t[i] == c;
            assert(s[i] == c);
        }
        if c == b {
            assert(t[s.len() as int] == c);
        }
    }
}

fn find_segment_end(data: &[u8], pos: usize) -> (end: usize)
    requires
        pos < data.len(),
    ensures
        end as nat == segment_end(data@, pos as nat, pos as nat),
        pos < end <= data.len(),
{
    let mut seen: [bool; 256] = [false; 256];
    let mut distinct: usize = 0;
    let mut i: usize = pos;
    proof {
        reveal(segment_end);
        lemma_segment_end(data@, pos as nat, pos as nat);
        assert(data@.subrange(pos as int, pos as int) =~= seq![]);
        lemma_distinct_empty(256);
    }
    while i < data.len()
        invariant
            pos <= i <= data@.len(),
            pos < data@.len(),
            distinct < 256,
            seen_ok(seen@, data@.subrange(pos as int, i as int)),
            distinct as nat == distinct_below(data@.subrange(pos as int, i as int), 256),
            segment_end(data@, pos as nat, pos as nat) == segment_end(
                data@,
                pos as nat,
                i as nat,
            ),
            pos < segment_end(data@, pos as nat, pos as nat) <= data@.len(),
        decreases data@.len() - i,
    {
        let b = data[i];
        proof {
            reveal(segment_end);
        }
        let ghost s = data@.subrange(pos as int, i as int);
        let ghost t = data@.subrange(pos as int, i + 1);
        proof {
            assert(t =~= s.push(b));
            lemma_distinct_push(s, b, 256);
            lemma_distinct_below(t, 256);
            assert(seen@[b as int] == s.contains(b));
        }
        let ghost seen0 = seen@;
        if !seen[b as usize] {
            distinct += 1;
            seen[b as usize] = true;
            if distinct >= 256 {
                assert(uses_all_bytes(t));
                let len = data.len();
                if len - pos <= EGAP_MIN_SEGMENT {
                    return len;
                }
                return if i < pos + EGAP_MIN_SEGMENT {
                    pos + EGAP_MIN_SEGMENT
                } else {
                    i
                };
            }
        }
        proof {
            assert forall|c: u8| (#[trigger] seen@[c as int]) == t.contains(c) by {
                assert(seen0[c as int] == s.contains(c));
                if s.contains(c) {
                    let k = choose|k: int| 0 <= k < s.len() && s[k] == c;
                    assert(t[k] == c);
                }
                if t.contains(c) && c != b {
                    let k = choose|k: int| 0 <= k < t.len() && t[k] == c;
                    assert(s[k] == c);
                }
                if c == b {
                    assert(t[s.len() as int] == c);
                }
            }
            if uses_all_bytes(t) {
                assert(distinct_below(t, 256) == 256);
            }
        }
        i += 1;
    }
    data.len()
}

proof fn lemma_distinct_empty(n: nat)
    ensures
        distinct_below(seq![], n) == 0,
    decreases n,
{
    if n > 0 {
        lemma_distinct_empty((n - 1) as nat);
    }
}

/// The segments of `data` from `pos` on, and what they are coded to, have lengths that 32 bits can
/// hold.
pub open spec fn segments_fit(data: Seq<u8>, pos: nat) -> bool
    decreases data.len() - pos,
{
    if pos >= data.len() {
        true
    } else {
        let end = segment_end(data, pos, pos);
        &&& end - pos <= u32::MAX
        &&& egap_block(data.subrange(pos as int, end as int)).len() <= u32::MAX
        &&& pos < end <= data.len() ==> segments_fit(data, end)
    }
}

/// Data that is short enough has no segment that is too long.
pub proof fn lemma_short_fits(data: Seq<u8>, pos: nat)
    requires
        data.len() + 10 <= u32::MAX,
    ensures
        segments_fit(data, pos),
    decreases data.len() - pos,
{
    if pos < data.len() {
        lemma_segment_end(data, pos, pos);
        let end = segment_end(data, pos, pos);
        lemma_egap_block_len(data.subrange(pos as int, end as int));
        lemma_short_fits(data, end);
    }
}

/// The lengths together.
pub open spec fn sizes_total(sizes: Seq<u32>) -> nat
    decreases sizes.len(),
{
    if sizes.len() == 0 {
        0
    } else {
        sizes_total(sizes.drop_last()) + sizes.last() as nat
    }
}

proof fn lemma_sizes_total(blocks: Seq<Seq<u8>>)
    requires
        forall|i: int| 0 <= i < blocks.len() ==> (#[trigger] blocks[i]).len() <= u32::MAX,
    ensures
        sizes_total(block_sizes(blocks)) == joined(blocks).len(),
    decreases blocks.len(),
{
    if blocks.len() > 0 {
        lemma_sizes_total(blocks.drop_last());
        assert(block_sizes(blocks).drop_last() =~= block_sizes(blocks.drop_last()));
        assert(blocks[blocks.len() - 1].len() <= u32::MAX);
    }
}

proof fn lemma_segment_sizes(data: Seq<u8>, pos: nat)
    requires
        segments_fit(data, pos),
    ensures
        forall|i: int|
            0 <= i < segments_from(data, pos).len() ==> (#[trigger] segments_from(
                data,
                pos,
            )[i]).len() <= u32::MAX,
    decreases data.len() - pos,
{
    if pos < data.len() {
        lemma_segment_end(data, pos, pos);
        let end = segment_end(data, pos, pos);
        let part = data.subrange(pos as int, end as int);
        lemma_segment_sizes(data, end);
        let rest = segments_from(data, end);
        assert forall|i: int| 0 <= i < segments_from(data, pos).len() implies (
        #[trigger] segments_from(data, pos)[i]).len() <= u32::MAX by {
            assert(segments_from(data, pos) == seq![egap_block(part)] + rest);
            if i > 0 {
                assert(segments_from(data, pos)[i] == rest[i - 1]);
            }
        }
    }
}

/// The lengths that `egap_adaptive_encode` gives add up to the length of the coded data.
pub proof fn lemma_segments_cover(data: Seq<u8>)
    requires
        segments_fit(data, 0),
    ensures
        sizes_total(block_sizes(segments_from(data, 0))) == joined(segments_from(data, 0)).len(),
{
    lemma_segment_sizes(data, 0);
    lemma_sizes_total(segments_from(data, 0));
}

/// Codes `data` in segments: the coded segments one behind the other, and their lengths.
pub fn egap_adaptive_encode(data: &[u8]) -> (r: (Vec<u8>, Vec<u32>))
    ensures
        r.0@ == joined(segments_from(data@, 0)),
        r.1@ == block_sizes(segments_from(data@, 0)),
        segments_fit(data@, 0) ==> sizes_total(r.1@) == r.0@.len(),
{
    let mut output: Vec<u8> = Vec::with_capacity(data.len());
    let mut sizes: Vec<u32> = Vec::new();
    let mut pos: usize = 0;
    let ghost mut done = Seq::<Seq<u8>>::empty();
    proof {
        assert(done + segments_from(data@, 0) =~= segments_from(data@, 0));
        assert(sizes@ =~= block_sizes(done));
    }
    while pos < data.len()
        invariant
            pos <= data@.len(),
            output@ == joined(done),
            sizes@ == block_sizes(done),
            done + segments_from(data@, pos as nat) == segments_from(data@, 0),
        decreases data@.len() - pos,
    {
        let end = find_segment_end(data, pos);
        let encoded = entropy_encode(&data[pos..end]);
        sizes.push((encoded.len() as u64 % 0x1_0000_0000) as u32);
        output.extend_from_slice(&encoded);
        proof {
            let more = done.push(encoded@);
            assert(more.drop_last() =~= done);
            assert(sizes@ =~= block_sizes(more));
            assert(done + segments_from(data@, pos as nat) =~= more + segments_from(
                data@,
                end as nat,
            ));
            done = more;
        }
        pos = end;
    }
    assert(done =~= segments_from(data@, 0));
    proof {
        if segments_fit(data@, 0) {
            lemma_segments_cover(data@);
        }
    }
    (output, sizes)
}

/// What the segments of `data` from the `i`-th at `pos` on hold, by the lengths in `sizes`.
pub open spec fn decode_segments(data: Seq<u8>, sizes: Seq<u32>, i: nat, pos: nat) -> Result<
    Seq<u8>,
    EgapError,
>
    decreases sizes.len() - i,
{
    if i >= sizes.len() {
        Ok(seq![])
    } else {
        let size = sizes[i as int] as nat;
        if pos + size > data.len() {
            Err(
                EgapError::SegmentTruncated {
                    index: i as usize,
                    need: size as usize,
                    offset: pos as usize,
                    have: (data.len() - pos) as usize,
                },
            )
        } else {
            match egap_decode(data.subrange(pos as int, (pos + size) as int)) {
                Err(e) => Err(e),
                Ok(out) => match decode_segments(data, sizes, i + 1, pos + size) {
                    Err(e) => Err(e),
                    Ok(rest) => Ok(out + rest),
                },
            }
        }
    }
}

/// What the segments in `data` hold, by their lengths.
pub fn egap_adaptive_decode(data: &[u8], segment_sizes: &[u32]) -> (r: Result<Vec<u8>, EgapError>)
    ensures
        match r {
            Ok(out) => decode_segments(data@, segment_sizes@, 0, 0) == Ok::<Seq<u8>, EgapError>(
                out@,
            ),
            Err(e) => decode_segments(data@, segment_sizes@, 0, 0) == Err::<Seq<u8>, EgapError>(e),
        },
{
    let mut output: Vec<u8> = Vec::new();
    let mut pos: usize = 0;
    let mut i: usize = 0;
    proof {
        match decode_segments(data@, segment_sizes@, 0, 0) {
            Ok(rest) => {
                assert(output@ + rest =~= rest);
            },
            Err(e) => {},
        }
    }
    while i < segment_sizes.len()
        invariant
            i <= segment_sizes@.len(),
            pos <= data@.len(),
            decode_segments(data@, segment_sizes@, 0, 0) == match decode_segments(
                data@,
                segment_sizes@,
                i as nat,
                pos as nat,
            ) {
                Ok(rest) => Ok(output@ + rest),
                Err(e) => Err::<Seq<u8>, EgapError>(e),
            },
        decreases segment_sizes@.len() - i,
    {
        let size = segment_sizes[i] as usize;
        if size > data.len() - pos {
            return Err(
                EgapError::SegmentTruncated {
                    index: i,
                    need: size,
                    offset: pos,
                    have: data.len() - pos,
                },
            );
        }
        let ghost before = output@;
        match entropy_decode(&data[pos..pos + size]) {
            Ok(decoded) => {
                output.extend_from_slice(&decoded);
                proof {
                    match decode_segments(
                        data@,
                        segment_sizes@,
                        (i + 1) as nat,
                        (pos + size) as nat,
                    ) {
                        Ok(rest) => {
                            assert(before + (decoded@ + rest) =~= output@ + rest);
                        },
                        Err(e) => {},
                    }
                }
                pos = pos + size;
            },
            Err(e) => {
                return Err(e);
            },
        }
        i += 1;
    }
    assert(output@ + seq![] =~= output@);
    Ok(output)
}

proof fn lemma_joined_concat(a: Seq<Seq<u8>>, b: Seq<Seq<u8>>)
    ensures
        joined(a + b) == joined(a) + joined(b),
    decreases b.len(),
{
    if b.len() == 0 {
        assert(a + b =~= a);
        assert(joined(a) + joined(b) =~= joined(a));
    } else {
        assert((a + b).drop_last() =~= a + b.drop_last());
        lemma_joined_concat(a, b.drop_last());
        assert(joined(a + b) =~= joined(a) + joined(b));
    }
}

proof fn lemma_decode_segments_step(
    before: Seq<u8>,
    block: Seq<u8>,
    after: Seq<u8>,
    sizes: Seq<u32>,
    i: nat,
    part: Seq<u8>,
    rest: Seq<u8>,
)
    requires
        i < sizes.len(),
        sizes[i as int] == block.len(),
        egap_decode(block) == Ok::<Seq<u8>, EgapError>(part),
        decode_segments(before + block + after, sizes, i + 1, before.len() + block.len()) == Ok::<
            Seq<u8>,
            EgapError,
        >(rest),
    ensures
        decode_segments(before + block + after, sizes, i, before.len()) == Ok::<
            Seq<u8>,
            EgapError,
        >(part + rest),
{
    let all = before + block + after;
    assert(all.subrange(before.len() as int, (before.len() + block.len()) as int) =~= block);
}

/// The first of the segments from `pos` on, and those behind it.
proof fn lemma_segment_split(data: Seq<u8>, pos: nat)
    requires
        segments_fit(data, pos),
        pos < data.len(),
    ensures
        ({
            let end = segment_end(data, pos, pos);
            let all = segments_from(data, pos);
            &&& pos < end <= data.len()
            &&& segments_fit(data, end)
            &&& all.len() > 0
            &&& all == seq![all[0]] + segments_from(data, end)
            &&& all[0].len() <= u32::MAX
            &&& egap_decode(all[0]) == Ok::<Seq<u8>, EgapError>(
                data.subrange(pos as int, end as int),
            )
        }),
{
    lemma_segment_end(data, pos, pos);
    let end = segment_end(data, pos, pos);
    let part = data.subrange(pos as int, end as int);
    lemma_egap_roundtrip(part);
    let all = segments_from(data, pos);
    assert(all == seq![egap_block(part)] + segments_from(data, end));
    assert(all[0] == egap_block(part));
}

#[verifier::spinoff_prover]
proof fn lemma_segments_decode(data: Seq<u8>, done: Seq<Seq<u8>>, pos: nat)
    requires
        segments_fit(data, pos),
        pos <= data.len(),
    ensures
        ({
            let all = done + segments_from(data, pos);
            decode_segments(joined(all), block_sizes(all), done.len(), joined(done).len()) == Ok::<
                Seq<u8>,
                EgapError,
            >(data.skip(pos as int))
        }),
    decreases data.len() - pos,
{
    let all = done + segments_from(data, pos);
    if pos == data.len() {
        assert(data.skip(pos as int) =~= seq![]);
        assert(segments_from(data, pos).len() == 0);
    } else {
        lemma_segment_split(data, pos);
        let end = segment_end(data, pos, pos);
        let part = data.subrange(pos as int, end as int);
        let block = segments_from(data, pos)[0];
        let more = done.push(block);
        let rest = segments_from(data, end);
        lemma_segments_decode(data, more, end);
        assert(all =~= more + rest);
        lemma_first_segment(done, block, rest, part, data.skip(end as int));
        assert(part + data.skip(end as int) =~= data.skip(pos as int));
    }
}

/// The first of the blocks still to be read is decoded, and then the others.
proof fn lemma_first_segment(
    done: Seq<Seq<u8>>,
    block: Seq<u8>,
    rest: Seq<Seq<u8>>,
    part: Seq<u8>,
    others: Seq<u8>,
)
    requires
        block.len() <= u32::MAX,
        egap_decode(block) == Ok::<Seq<u8>, EgapError>(part),
        ({
            let more = done.push(block);
            let all = more + rest;
            decode_segments(joined(all), block_sizes(all), more.len(), joined(more).len()) == Ok::<
                Seq<u8>,
                EgapError,
            >(others)
        }),
    ensures
        ({
            let all = done.push(block) + rest;
            decode_segments(joined(all), block_sizes(all), done.len(), joined(done).len()) == Ok::<
                Seq<u8>,
                EgapError,
            >(part + others)
        }),
{
    let more = done.push(block);
    let all = more + rest;
    assert(joined(more) == joined(done) + block) by {
        assert(more.drop_last() =~= done);
    }
    lemma_joined_concat(more, rest);
    assert(all[done.len() as int] == block);
    lemma_decode_segments_step(
        joined(done),
        block,
        joined(rest),
        block_sizes(all),
        done.len(),
        part,
        others,
    );
}

/// What `egap_adaptive_encode` writes, `egap_adaptive_decode` reads back with the lengths.
pub proof fn lemma_segments_roundtrip(data: Seq<u8>)
    requires
        segments_fit(data, 0),
    ensures
        decode_segments(
            joined(segments_from(data, 0)),
            block_sizes(segments_from(data, 0)),
            0,
            0,
        ) == Ok::<Seq<u8>, EgapError>(data),
{
    let none = Seq::<Seq<u8>>::empty();
    lemma_segments_decode(data, none, 0);
    assert(none + segments_from(data, 0) =~= segments_from(data, 0));
    assert(data.skip(0) =~= data);
}

proof fn lemma_sizes_split(sizes: Seq<u32>, i: nat)
    requires
        i < sizes.len(),
    ensures
        sizes_total(sizes.skip(i as int)) == sizes[i as int] as nat + sizes_total(
            sizes.skip(i as int + 1),
        ),
    decreases sizes.len(),
{
    let s = sizes.skip(i as int);
    if i + 1 == sizes.len() {
        assert(s.drop_last() =~= Seq::<u32>::empty());
        assert(sizes.skip(i as int + 1) =~= Seq::<u32>::empty());
        assert(s.last() == sizes[i as int]);
        assert(sizes_total(s.drop_last()) == 0);
    } else {
        let front = sizes.drop_last();
        lemma_sizes_split(front, i);
        assert(s.drop_last() =~= front.skip(i as int));
        assert(sizes.skip(i as int + 1).drop_last() =~= front.skip(i as int + 1));
    }
}

/// Segments that need more than the data holds are an error.
proof fn lemma_short_segments(data: Seq<u8>, sizes: Seq<u32>, i: nat, pos: nat)
    requires
        pos <= data.len(),
        i <= sizes.len(),
        pos + sizes_total(sizes.skip(i as int)) > data.len(),
    ensures
        decode_segments(data, sizes, i, pos) is Err,
    decreases sizes.len() - i,
{
    if i == sizes.len() {
        assert(sizes.skip(i as int) =~= Seq::<u32>::empty());
        assert(sizes_total(sizes.skip(i as int)) == 0);
    } else {
        lemma_sizes_split(sizes, i);
        let size = sizes[i as int] as nat;
        if pos + size <= data.len() {
            lemma_short_segments(data, sizes, i + 1, pos + size);
        }
    }
}

/// Coded data that is cut off anywhere before its end is an error.
pub proof fn lemma_cut_segments(data: Seq<u8>, k: nat)
    requires
        segments_fit(data, 0),
        k < joined(segments_from(data, 0)).len(),
    ensures
        decode_segments(
            joined(segments_from(data, 0)).take(k as int),
            block_sizes(segments_from(data, 0)),
            0,
            0,
        ) is Err,
{
    lemma_segments_cover(data);
    let sizes = block_sizes(segments_from(data, 0));
    assert(sizes.skip(0) =~= sizes);
    lemma_short_segments(joined(segments_from(data, 0)).take(k as int), sizes, 0, 0);
}

/// A segment ends at the end of the data or has 1024 bytes at least. In front of its end, and behind
/// that length, not every byte value has been seen; where it ends inside the data, the next byte
/// completes them.
pub proof fn lemma_segment_cut(data: Seq<u8>, pos: nat, i: nat)
    requires
        pos <= i <= data.len(),
        pos < data.len(),
        i > pos ==> !uses_all_bytes(data.subrange(pos as int, i as int)),
    ensures
        ({
            let end = segment_end(data, pos, i);
            &&& end == data.len() || end - pos >= 1024
            &&& end - pos > 1024 ==> !uses_all_bytes(data.subrange(pos as int, end as int))
            &&& end < data.len() ==> uses_all_bytes(
                data.subrange(pos as int, end as int + 1),
            )
        }),
    decreases data.len() - i,
{
    reveal(segment_end);
    let end = segment_end(data, pos, i);
    if i < data.len() {
        let seen = data.subrange(pos as int, i as int + 1);
        if uses_all_bytes(seen) {
            if end < data.len() {
                let longer = data.subrange(pos as int, end as int + 1);
                assert(longer.take(seen.len() as int) =~= seen);
                lemma_more_bytes(seen, longer);
            }
        } else {
            lemma_segment_cut(data, pos, i + 1);
        }
    }
}

proof fn lemma_more_bytes(a: Seq<u8>, b: Seq<u8>)
    requires
        uses_all_bytes(a),
        a.len() <= b.len(),
        a == b.take(a.len() as int),
    ensures
        uses_all_bytes(b),
{
    assert forall|x: u8| #[trigger] b.contains(x) by {
        assert(a.contains(x));
        let k = choose|k: int| 0 <= k < a.len() && a[k] == x;
        assert(b[k] == b.take(a.len() as int)[k]);
    }
}

} // verus!
