//! A byte string that a file repeats: choosing it, letting it grow, and clearing it.

use vstd::prelude::*;

use crate::bytes::{copy_of, same_bytes};
use crate::dict::strings;
use crate::sort::{
    lemma_holds_all, lemma_ordered, lemma_rank_decides, lemma_rank_order_total, order_ranked,
    rank_order, ranked_entries, sort_ranked, Ranked,
};
use crate::windows::{counted_views, Counted, WindowCount};

verus! {

/// How often a byte string must occur.
pub const MIN_SUBSTR_COUNT: usize = 24;

/// How many of the sampled byte strings are counted.
pub const TOP_CANDIDATES: usize = 50;

/// How far a byte string is extended.
pub const MAX_EXTENSION: usize = 128;

/// The sampled byte strings by how many bytes they cover, and by their length.
pub open spec fn sample_ranks(list: Seq<Counted>) -> Seq<Ranked> {
    Seq::new(
        list.len(),
        |i: int|
            Ranked {
                first: (list[i].count * list[i].chunk.len()) as u128,
                second: list[i].chunk.len() as usize,
                bytes: list[i].chunk,
            },
    )
}

/// The byte strings to count: the first of the ranked samples.
pub open spec fn top_samples(list: Seq<Counted>) -> Seq<Seq<u8>> {
    let order = order_ranked(sample_ranks(list));
    Seq::new(
        if order.len() < TOP_CANDIDATES {
            order.len()
        } else {
            TOP_CANDIDATES as nat
        },
        |i: int| list[order[i] as int].chunk,
    )
}

/// Picks the byte strings to count from the samples.
pub fn rank_samples(entries: &Vec<WindowCount>) -> (out: Vec<Vec<u8>>)
    ensures
        strings(out@) == top_samples(counted_views(entries@)),
{
    let mut first: Vec<u128> = Vec::with_capacity(entries.len());
    let mut second: Vec<usize> = Vec::with_capacity(entries.len());
    let mut bytes: Vec<Vec<u8>> = Vec::with_capacity(entries.len());
    let ghost list = counted_views(entries@);
    let mut i: usize = 0;
    while i < entries.len()
        invariant
            i <= entries.len(),
            list == counted_views(entries@),
            first.len() == i,
            second.len() == i,
            bytes.len() == i,
            forall|j: int|
                0 <= j < i ==> (#[trigger] first@[j]) == sample_ranks(list)[j].first,
            forall|j: int|
                0 <= j < i ==> (#[trigger] second@[j]) == sample_ranks(list)[j].second,
            forall|j: int|
                0 <= j < i ==> (#[trigger] bytes@[j])@ == sample_ranks(list)[j].bytes,
        decreases entries.len() - i,
    {
        let e = &entries[i];
        let n = e.chunk.len();
        assert(list[i as int] == e@);
        assert(e.count * n <= 0xffff_ffff_ffff_ffff * 0xffff_ffff_ffff_ffff) by (nonlinear_arith)
            requires
                e.count <= 0xffff_ffff_ffff_ffff,
                n <= 0xffff_ffff_ffff_ffff,
        ;
        first.push(e.count as u128 * n as u128);
        second.push(n);
        bytes.push(copy_of(e.chunk.as_slice()));
        i = i + 1;
    }
    let order = sort_ranked(first.as_slice(), second.as_slice(), bytes.as_slice());
    proof {
        assert(ranked_entries(first@, second@, bytes@) =~= sample_ranks(list));
        lemma_rank_order_total(sample_ranks(list));
        lemma_ordered(list.len(), rank_order(sample_ranks(list)));
    }
    let n: usize = if order.len() < TOP_CANDIDATES {
        order.len()
    } else {
        TOP_CANDIDATES
    };
    let mut out: Vec<Vec<u8>> = Vec::with_capacity(n);
    let mut k: usize = 0;
    while k < n
        invariant
            k <= n <= order.len(),
            order.len() == entries.len(),
            list == counted_views(entries@),
            order@ == order_ranked(sample_ranks(list)),
            forall|j: int| 0 <= j < order.len() ==> (#[trigger] order@[j]) < entries.len(),
            out.len() == k,
            forall|j: int|
                0 <= j < k ==> (#[trigger] out@[j])@ == list[order@[j] as int].chunk,
        decreases n - k,
    {
        let at = order[k];
        assert(order@[k as int] < entries.len());
        out.push(copy_of(entries[at].chunk.as_slice()));
        k = k + 1;
    }
    assert(strings(out@) =~= top_samples(list));
    out
}

/// How many bytes pattern `i` covers.
pub open spec fn covered(patterns: Seq<Seq<u8>>, counts: Seq<usize>, i: int) -> int {
    counts[i] * patterns[i].len()
}

/// Pattern `i` occurs often enough and covers the most bytes; the last of several.
pub open spec fn is_best(patterns: Seq<Seq<u8>>, counts: Seq<usize>, i: int) -> bool {
    &&& 0 <= i < counts.len()
    &&& counts[i] >= MIN_SUBSTR_COUNT
    &&& forall|j: int|
        0 <= j < counts.len() && (#[trigger] counts[j]) >= MIN_SUBSTR_COUNT ==> covered(
            patterns,
            counts,
            j,
        ) <= covered(patterns, counts, i) && (j > i ==> covered(patterns, counts, j) < covered(
            patterns,
            counts,
            i,
        ))
}

/// Picks the pattern that covers the most bytes, of those that occur often enough.
pub fn best_candidate(patterns: &Vec<Vec<u8>>, counts: &Vec<usize>) -> (r: Option<usize>)
    requires
        patterns@.len() == counts@.len(),
    ensures
        match r {
            Some(i) => is_best(strings(patterns@), counts@, i as int) && counts@[i as int] >= 24
                && forall|j: int|
                0 <= j < counts@.len() && (#[trigger] counts@[j]) >= 24 ==> counts@[j]
                    * patterns@[j]@.len() <= counts@[i as int] * patterns@[i as int]@.len(),
            None => forall|j: int|
                0 <= j < counts@.len() ==> (#[trigger] counts@[j]) < MIN_SUBSTR_COUNT,
        },
{
    let ghost pats = strings(patterns@);
    let mut best: Option<usize> = None;
    let mut best_score: u128 = 0;
    let mut i: usize = 0;
    while i < counts.len()
        invariant
            i <= counts.len(),
            patterns@.len() == counts@.len(),
            pats == strings(patterns@),
            match best {
                Some(b) => b < i && counts@[b as int] >= MIN_SUBSTR_COUNT && best_score == covered(
                    pats,
                    counts@,
                    b as int,
                ) && forall|j: int|
                    0 <= j < i && (#[trigger] counts@[j]) >= MIN_SUBSTR_COUNT ==> covered(
                        pats,
                        counts@,
                        j,
                    ) <= best_score && (j > b ==> covered(pats, counts@, j) < best_score),
                None => forall|j: int| 0 <= j < i ==> (#[trigger] counts@[j]) < MIN_SUBSTR_COUNT,
            },
        decreases counts.len() - i,
    {
        let c = counts[i];
        if c >= MIN_SUBSTR_COUNT {
            let n = patterns[i].len();
            assert(pats[i as int].len() == n);
            assert(c * n <= 0xffff_ffff_ffff_ffff * 0xffff_ffff_ffff_ffff) by (nonlinear_arith)
                requires
                    c <= 0xffff_ffff_ffff_ffff,
                    n <= 0xffff_ffff_ffff_ffff,
            ;
            let score = c as u128 * n as u128;
            assert(score == covered(pats, counts@, i as int));
            let better = match best {
                Some(_) => score >= best_score,
                None => true,
            };
            if better {
                best = Some(i);
                best_score = score;
            }
        }
        i = i + 1;
    }
    proof {
        if let Some(b) = best {
            lemma_best_covers_most(pats, counts@, b as int);
            assert forall|j: int| 0 <= j < counts@.len() && (#[trigger] counts@[j])
                >= 24 implies counts@[j] * patterns@[j]@.len() <= counts@[b as int]
                * patterns@[b as int]@.len() by {
                assert(pats[j] == patterns@[j]@ && pats[b as int] == patterns@[b as int]@);
            }
        }
    }
    best
}

/// No byte string that occurs at least 24 times covers more bytes, by its count times its length,
/// than the one that is chosen, and none behind it covers as many.
pub proof fn lemma_best_covers_most(patterns: Seq<Seq<u8>>, counts: Seq<usize>, i: int)
    requires
        is_best(patterns, counts, i),
    ensures
        0 <= i < counts.len(),
        counts[i] >= 24,
        forall|j: int|
            0 <= j < counts.len() && (#[trigger] counts[j]) >= 24 ==> counts[j] * patterns[j].len()
                <= counts[i] * patterns[i].len(),
        forall|j: int|
            i < j < counts.len() && (#[trigger] counts[j]) >= 24 ==> counts[j] * patterns[j].len()
                < counts[i] * patterns[i].len(),
{
}

/// The byte behind an occurrence at `off`.
pub open spec fn byte_behind(data: Seq<u8>, off: usize, len: nat) -> Option<u8> {
    if off + len < data.len() {
        Some(data[off + len])
    } else {
        None
    }
}

/// The byte before an occurrence at `off`.
pub open spec fn byte_before(data: Seq<u8>, off: usize) -> Option<u8> {
    if 0 < off <= data.len() {
        Some(data[off - 1])
    } else {
        None
    }
}

/// The neighbour of occurrence `i`: behind it, or before it.
pub open spec fn neighbour(
    data: Seq<u8>,
    offsets: Seq<usize>,
    len: nat,
    behind: bool,
    i: int,
) -> Option<u8> {
    if behind {
        byte_behind(data, offsets[i], len)
    } else {
        byte_before(data, offsets[i])
    }
}

/// Every occurrence has the neighbour `b`. Unless `strict`, those at the edge of the data that
/// have none are left out of account.
pub open spec fn common_neighbour(
    data: Seq<u8>,
    offsets: Seq<usize>,
    len: nat,
    behind: bool,
    strict: bool,
    b: u8,
) -> bool {
    &&& exists|i: int|
        0 <= i < offsets.len() && #[trigger] neighbour(data, offsets, len, behind, i) == Some(b)
    &&& forall|i: int|
        0 <= i < offsets.len() ==> (#[trigger] neighbour(data, offsets, len, behind, i) == Some(b)
            || (!strict && neighbour(data, offsets, len, behind, i) is None))
}

/// The neighbour that all occurrences have in common.
pub fn find_neighbour(data: &[u8], offsets: &Vec<usize>, len: usize, behind: bool, strict: bool) -> (r:
    Option<u8>)
    ensures
        match r {
            Some(b) => common_neighbour(data@, offsets@, len as nat, behind, strict, b),
            None => forall|b: u8|
                !(#[trigger] common_neighbour(data@, offsets@, len as nat, behind, strict, b)),
        },
{
    let mut found: Option<u8> = None;
    let ghost mut at: int = 0;
    let mut i: usize = 0;
    while i < offsets.len()
        invariant
            i <= offsets.len(),
            match found {
                Some(b) => 0 <= at < i && neighbour(data@, offsets@, len as nat, behind, at) == Some(
                    b,
                ) && forall|j: int|
                    0 <= j < i ==> (#[trigger] neighbour(data@, offsets@, len as nat, behind, j)
                        == Some(b) || (!strict && neighbour(
                        data@,
                        offsets@,
                        len as nat,
                        behind,
                        j,
                    ) is None)),
                None => forall|j: int|
                    0 <= j < i ==> !strict && #[trigger] neighbour(
                        data@,
                        offsets@,
                        len as nat,
                        behind,
                        j,
                    ) is None,
            },
        decreases offsets.len() - i,
    {
        let off = offsets[i];
        let next: Option<u8> = if behind {
            if off < data.len() && len < data.len() - off {
                Some(data[off + len])
            } else {
                None
            }
        } else if off > 0 && off <= data.len() {
            Some(data[off - 1])
        } else {
            None
        };
        assert(next == neighbour(data@, offsets@, len as nat, behind, i as int));
        match next {
            Some(b) => {
                match found {
                    Some(c) => {
                        if c != b {
                            assert(neighbour(data@, offsets@, len as nat, behind, at) != neighbour(
                                data@,
                                offsets@,
                                len as nat,
                                behind,
                                i as int,
                            ));
                            return None;
                        }
                    },
                    None => {
                        found = Some(b);
                        proof {
                            at = i as int;
                        }
                    },
                }
            },
            None => {
                if strict {
                    return None;
                }
            },
        }
        i = i + 1;
    }
    found
}

/// How a byte string grows.
#[derive(Clone, Copy, Debug, PartialEq, Eq)]
pub enum Growth {
    Behind(u8),
    Before(u8),
    Stop,
}

/// The byte that all occurrences have behind them is taken up; if there is none, the one that all
/// have before them.
pub open spec fn is_growth(
    data: Seq<u8>,
    offsets: Seq<usize>,
    len: nat,
    strict: bool,
    g: Growth,
) -> bool {
    match g {
        Growth::Behind(b) => common_neighbour(data, offsets, len, true, strict, b),
        Growth::Before(b) => (forall|c: u8|
            !(#[trigger] common_neighbour(data, offsets, len, true, strict, c)))
            && common_neighbour(data, offsets, len, false, strict, b),
        Growth::Stop => (forall|c: u8|
            !(#[trigger] common_neighbour(data, offsets, len, true, strict, c))) && (forall|c: u8|
            !(#[trigger] common_neighbour(data, offsets, len, false, strict, c))),
    }
}

/// How the byte string of `len` bytes at these offsets grows.
pub fn growth(data: &[u8], offsets: &Vec<usize>, len: usize, strict: bool) -> (g: Growth)
    ensures
        is_growth(data@, offsets@, len as nat, strict, g),
{
    match find_neighbour(data, offsets, len, true, strict) {
        Some(b) => Growth::Behind(b),
        None => match find_neighbour(data, offsets, len, false, strict) {
            Some(b) => Growth::Before(b),
            None => Growth::Stop,
        },
    }
}

/// A byte string and its offsets grow in only one way.
pub proof fn lemma_growth_unique(
    data: Seq<u8>,
    offsets: Seq<usize>,
    len: nat,
    strict: bool,
    g: Growth,
    h: Growth,
)
    requires
        is_growth(data, offsets, len, strict, g),
        is_growth(data, offsets, len, strict, h),
    ensures
        g == h,
{
    match (g, h) {
        (Growth::Behind(b), Growth::Behind(c)) => {
            let i = choose|i: int|
                0 <= i < offsets.len() && #[trigger] neighbour(data, offsets, len, true, i) == Some(
                    b,
                );
            assert(neighbour(data, offsets, len, true, i) == Some(c));
        },
        (Growth::Before(b), Growth::Before(c)) => {
            let i = choose|i: int|
                0 <= i < offsets.len() && #[trigger] neighbour(data, offsets, len, false, i)
                    == Some(b);
            assert(neighbour(data, offsets, len, false, i) == Some(c));
        },
        _ => {},
    }
}

/// Each offset moved down by one.
pub open spec fn moved_down(offsets: Seq<usize>) -> Seq<usize> {
    Seq::new(offsets.len(), |i: int| (offsets[i] - 1) as usize)
}

/// What a byte string and its offsets have grown to, and whether nothing more could be taken up.
pub struct Grown {
    pub bytes: Seq<u8>,
    pub offsets: Seq<usize>,
    pub stopped: bool,
}

/// `r` is what the byte string has grown to after at most `rounds` bytes. Nothing comes of it where
/// an offset would have to move below zero.
pub open spec fn grows_to(
    data: Seq<u8>,
    bytes: Seq<u8>,
    offsets: Seq<usize>,
    rounds: nat,
    r: Option<Grown>,
) -> bool
    decreases rounds,
{
    if rounds == 0 {
        r == Some(Grown { bytes, offsets, stopped: false })
    } else {
        let left = (rounds - 1) as nat;
        exists|g: Growth|
            #[trigger] is_growth(data, offsets, bytes.len(), false, g) && match g {
                Growth::Behind(b) => grows_to(data, bytes.push(b), offsets, left, r),
                Growth::Before(b) => if offsets.contains(0) {
                    r is None
                } else {
                    grows_to(data, seq![b] + bytes, moved_down(offsets), left, r)
                },
                Growth::Stop => r == Some(Grown { bytes, offsets, stopped: true }),
            }
    }
}

/// A byte string with its offsets.
#[derive(Debug)]
pub struct Pattern {
    pub bytes: Vec<u8>,
    pub offsets: Vec<usize>,
    pub stopped: bool,
}

/// What a `Pattern` says.
pub open spec fn pattern_value(r: Option<Pattern>) -> Option<Grown> {
    match r {
        Some(p) => Some(Grown { bytes: p.bytes@, offsets: p.offsets@, stopped: p.stopped }),
        None => None,
    }
}

fn move_down(offsets: &Vec<usize>) -> (r: Option<Vec<usize>>)
    ensures
        match r {
            Some(v) => !offsets@.contains(0) && v@ == moved_down(offsets@),
            None => offsets@.contains(0),
        },
{
    let mut v: Vec<usize> = Vec::with_capacity(offsets.len());
    let mut i: usize = 0;
    while i < offsets.len()
        invariant
            i <= offsets.len(),
            v.len() == i,
            forall|j: int| 0 <= j < i ==> (#[trigger] offsets@[j]) > 0,
            forall|j: int| 0 <= j < i ==> (#[trigger] v@[j]) == offsets@[j] - 1,
        decreases offsets.len() - i,
    {
        let off = offsets[i];
        if off == 0 {
            assert(offsets@[i as int] == 0);
            return None;
        }
        v.push(off - 1);
        i = i + 1;
    }
    proof {
        assert forall|j: int| 0 <= j < offsets@.len() implies offsets@[j] != 0 by {
            assert(v@[j] == offsets@[j] - 1);
        }
        assert(v@ =~= moved_down(offsets@));
    }
    Some(v)
}

/// Lets a byte string grow by the bytes that its occurrences have in common, behind it first, as
/// far as it goes.
pub fn extend_pattern(data: &[u8], bytes: Vec<u8>, offsets: Vec<usize>, rounds: usize) -> (r: Option<
    Pattern,
>)
    ensures
        grows_to(data@, bytes@, offsets@, rounds as nat, pattern_value(r)),
    decreases rounds,
{
    if rounds == 0 {
        return Some(Pattern { bytes, offsets, stopped: false });
    }
    let ghost len = bytes@.len();
    let g = growth(data, &offsets, bytes.len(), false);
    assert(is_growth(data@, offsets@, len, false, g));
    match g {
        Growth::Behind(b) => {
            let mut longer = bytes;
            longer.push(b);
            extend_pattern(data, longer, offsets, rounds - 1)
        },
        Growth::Before(b) => {
            match move_down(&offsets) {
                Some(moved) => {
                    let mut longer = bytes;
                    let ghost was = longer@;
                    longer.insert(0, b);
                    assert(longer@ =~= seq![b] + was);
                    extend_pattern(data, longer, moved, rounds - 1)
                },
                None => None,
            }
        },
        Growth::Stop => Some(Pattern { bytes, offsets, stopped: true }),
    }
}

/// An offset at which the byte string stands, but for bytes beyond the end of the data.
pub open spec fn stands_within(data: Seq<u8>, bytes: Seq<u8>, off: int) -> bool {
    forall|k: int| 0 <= k < bytes.len() && off + k < data.len() ==> (#[trigger] bytes[k]) == data[off + k]
}

/// A byte string that grows still stands at its offsets, but for bytes beyond the end of the data.
pub proof fn lemma_grown_stands(
    data: Seq<u8>,
    bytes: Seq<u8>,
    offsets: Seq<usize>,
    rounds: nat,
    r: Grown,
)
    requires
        grows_to(data, bytes, offsets, rounds, Some(r)),
        forall|i: int|
            0 <= i < offsets.len() ==> (#[trigger] offsets[i]) <= data.len() && stands_within(
                data,
                bytes,
                offsets[i] as int,
            ),
    ensures
        r.offsets.len() == offsets.len(),
        forall|i: int|
            0 <= i < r.offsets.len() ==> stands_within(
                data,
                r.bytes,
                (#[trigger] r.offsets[i]) as int,
            ),
    decreases rounds,
{
    if rounds > 0 {
        let left = (rounds - 1) as nat;
        let g = choose|g: Growth|
            #[trigger] is_growth(data, offsets, bytes.len(), false, g) && match g {
                Growth::Behind(b) => grows_to(data, bytes.push(b), offsets, left, Some(r)),
                Growth::Before(b) => !offsets.contains(0) && grows_to(
                    data,
                    seq![b] + bytes,
                    moved_down(offsets),
                    left,
                    Some(r),
                ),
                Growth::Stop => Some(r) == Some(Grown { bytes, offsets, stopped: true }),
            };
        match g {
            Growth::Behind(b) => {
                let now = bytes.push(b);
                assert forall|i: int| 0 <= i < offsets.len() implies (#[trigger] offsets[i])
                    <= data.len() && stands_within(data, now, offsets[i] as int) by {
                    let off = offsets[i] as int;
                    let n = neighbour(data, offsets, bytes.len(), true, i);
                    assert(n == Some(b) || n is None);
                    assert forall|k: int| 0 <= k < now.len() && off + k < data.len() implies (
                    #[trigger] now[k]) == data[off + k] by {
                        if k < bytes.len() {
                            assert(bytes[k] == data[off + k]);
                        }
                    }
                }
                lemma_grown_stands(data, now, offsets, left, r);
            },
            Growth::Before(b) => {
                let now = seq![b] + bytes;
                let moved = moved_down(offsets);
                assert forall|i: int| 0 <= i < moved.len() implies (#[trigger] moved[i])
                    <= data.len() && stands_within(data, now, moved[i] as int) by {
                    assert(offsets.contains(offsets[i]));
                    let off = offsets[i] as int;
                    let n = neighbour(data, offsets, bytes.len(), false, i);
                    assert(n == Some(b) || n is None);
                    assert(n == Some(data[off - 1]));
                    assert forall|k: int| 0 <= k < now.len() && off - 1 + k < data.len() implies (
                    #[trigger] now[k]) == data[off - 1 + k] by {
                        if k > 0 {
                            assert(now[k] == bytes[k - 1]);
                        }
                    }
                }
                lemma_grown_stands(data, now, moved, left, r);
            },
            Growth::Stop => {},
        }
    }
}

/// The list with `x` behind it, unless it is there already.
pub open spec fn with_new(list: Seq<Seq<u8>>, x: Seq<u8>) -> Seq<Seq<u8>> {
    if list.contains(x) {
        list
    } else {
        list.push(x)
    }
}

/// The fronts and ends of `bytes` with at least `min_len` and fewer than `len` bytes, each once,
/// the shorter ones first and the front before the end.
pub open spec fn affixes_below(bytes: Seq<u8>, min_len: nat, len: nat) -> Seq<Seq<u8>>
    decreases len,
{
    if len <= min_len {
        Seq::empty()
    } else {
        let n = (len - 1) as nat;
        let before = affixes_below(bytes, min_len, n);
        with_new(with_new(before, bytes.take(n as int)), bytes.skip(bytes.len() - n))
    }
}

fn push_new(list: &mut Vec<Vec<u8>>, x: &[u8])
    ensures
        strings(final(list)@) == with_new(strings(old(list)@), x@),
{
    let ghost before = strings(list@);
    let mut i: usize = 0;
    while i < list.len()
        invariant
            i <= list.len(),
            before == strings(list@),
            forall|j: int| 0 <= j < i ==> (#[trigger] before[j]) != x@,
        decreases list.len() - i,
    {
        if same_bytes(list[i].as_slice(), x) {
            assert(before[i as int] == x@);
            return;
        }
        assert(before[i as int] == list@[i as int]@);
        i = i + 1;
    }
    list.push(copy_of(x));
    assert(strings(list@) =~= before.push(x@));
}

/// The shorter byte strings to count beside `bytes`: its fronts and ends.
pub fn affixes(bytes: &Vec<u8>, min_len: usize) -> (list: Vec<Vec<u8>>)
    ensures
        strings(list@) == affixes_below(bytes@, min_len as nat, bytes@.len()),
{
    let mut list: Vec<Vec<u8>> = Vec::new();
    assert(strings(list@) =~= Seq::empty());
    let mut n: usize = min_len;
    while n < bytes.len()
        invariant
            min_len <= n,
            n <= bytes.len() || n == min_len,
            strings(list@) == affixes_below(bytes@, min_len as nat, n as nat),
        decreases bytes.len() - n,
    {
        let front = &bytes[0..n];
        assert(front@ =~= bytes@.take(n as int));
        push_new(&mut list, front);
        let end = &bytes[bytes.len() - n..bytes.len()];
        assert(end@ =~= bytes@.skip(bytes@.len() - n));
        push_new(&mut list, end);
        n = n + 1;
    }
    assert(n > bytes.len() ==> affixes_below(bytes@, min_len as nat, bytes@.len()) =~= Seq::empty());
    list
}

/// Each front or end is listed once, and has fewer than `len` bytes.
pub proof fn lemma_affixes(bytes: Seq<u8>, min_len: nat, len: nat)
    requires
        len <= bytes.len(),
    ensures
        affixes_below(bytes, min_len, len).no_duplicates(),
        forall|i: int|
            0 <= i < affixes_below(bytes, min_len, len).len() ==> min_len <= (
            #[trigger] affixes_below(bytes, min_len, len)[i]).len() < len,
    decreases len,
{
    if len > min_len {
        lemma_affixes(bytes, min_len, (len - 1) as nat);
    }
}

/// A byte string with how often it occurs and how many bytes it covers.
#[derive(Debug)]
pub struct Substring {
    pub bytes: Vec<u8>,
    pub count: usize,
    pub score: u128,
}

/// What a `Substring` says.
pub struct SubstringValue {
    pub bytes: Seq<u8>,
    pub count: usize,
    pub score: u128,
}

impl View for Substring {
    type V = SubstringValue;

    open spec fn view(&self) -> SubstringValue {
        SubstringValue { bytes: self.bytes@, count: self.count, score: self.score }
    }
}

/// A byte string with its count.
pub open spec fn substring_of(bytes: Seq<u8>, count: usize) -> SubstringValue {
    SubstringValue { bytes, count, score: (count * bytes.len()) as u128 }
}

/// The first `n` of the shorter byte strings that occur more often than is asked.
pub open spec fn frequent_affixes(
    list: Seq<Seq<u8>>,
    counts: Seq<usize>,
    n: nat,
) -> Seq<SubstringValue>
    decreases n,
{
    if n == 0 {
        Seq::empty()
    } else {
        let before = frequent_affixes(list, counts, (n - 1) as nat);
        if counts[n - 1] > MIN_SUBSTR_COUNT {
            before.push(substring_of(list[n - 1], counts[n - 1]))
        } else {
            before
        }
    }
}

/// The byte strings by how many bytes they cover, and by their bytes.
pub open spec fn substring_ranks(list: Seq<SubstringValue>) -> Seq<Ranked> {
    Seq::new(
        list.len(),
        |i: int| Ranked { first: list[i].score, second: 0, bytes: list[i].bytes },
    )
}

/// The byte strings in order: those that cover the most bytes first.
pub open spec fn ranked_substrings(list: Seq<SubstringValue>) -> Seq<SubstringValue> {
    let order = order_ranked(substring_ranks(list));
    Seq::new(list.len(), |i: int| list[order[i] as int])
}

/// The views of a list of byte strings.
pub open spec fn substring_values(v: Seq<Substring>) -> Seq<SubstringValue> {
    Seq::new(v.len(), |i: int| v[i]@)
}

fn make_substring(bytes: &Vec<u8>, count: usize) -> (s: Substring)
    ensures
        s@ == substring_of(bytes@, count),
{
    let n = bytes.len();
    assert(count * n <= 0xffff_ffff_ffff_ffff * 0xffff_ffff_ffff_ffff) by (nonlinear_arith)
        requires
            count <= 0xffff_ffff_ffff_ffff,
            n <= 0xffff_ffff_ffff_ffff,
    ;
    Substring { bytes: copy_of(bytes.as_slice()), count, score: count as u128 * n as u128 }
}

/// The byte string that was found and those of its fronts and ends that occur often, in order.
pub fn summarize(bytes: &Vec<u8>, count: usize, list: &Vec<Vec<u8>>, counts: &Vec<usize>) -> (out: Vec<
    Substring,
>)
    requires
        list@.len() == counts@.len(),
    ensures
        substring_values(out@) == ranked_substrings(
            seq![substring_of(bytes@, count)] + frequent_affixes(
                strings(list@),
                counts@,
                counts@.len(),
            ),
        ),
{
    let ghost subs = strings(list@);
    let mut all: Vec<Substring> = Vec::new();
    all.push(make_substring(bytes, count));
    let ghost head = seq![substring_of(bytes@, count)];
    assert(substring_values(all@) =~= head + frequent_affixes(subs, counts@, 0));
    let mut i: usize = 0;
    while i < counts.len()
        invariant
            i <= counts.len(),
            list@.len() == counts@.len(),
            subs == strings(list@),
            substring_values(all@) == head + frequent_affixes(subs, counts@, i as nat),
        decreases counts.len() - i,
    {
        let ghost before = substring_values(all@);
        if counts[i] > MIN_SUBSTR_COUNT {
            let s = make_substring(&list[i], counts[i]);
            let ghost v = s@;
            all.push(s);
            assert(subs[i as int] == list@[i as int]@);
            assert(substring_values(all@) =~= before.push(v));
            assert(before.push(v) =~= head + frequent_affixes(subs, counts@, i as nat).push(v));
        }
        i = i + 1;
    }
    rank_substrings(all)
}

fn rank_substrings(all: Vec<Substring>) -> (out: Vec<Substring>)
    ensures
        substring_values(out@) == ranked_substrings(substring_values(all@)),
{
    let ghost values = substring_values(all@);
    let mut first: Vec<u128> = Vec::with_capacity(all.len());
    let mut second: Vec<usize> = Vec::with_capacity(all.len());
    let mut bytes: Vec<Vec<u8>> = Vec::with_capacity(all.len());
    let mut i: usize = 0;
    while i < all.len()
        invariant
            i <= all.len(),
            values == substring_values(all@),
            first.len() == i,
            second.len() == i,
            bytes.len() == i,
            forall|j: int| 0 <= j < i ==> (#[trigger] first@[j]) == values[j].score,
            forall|j: int| 0 <= j < i ==> (#[trigger] second@[j]) == 0,
            forall|j: int| 0 <= j < i ==> (#[trigger] bytes@[j])@ == values[j].bytes,
        decreases all.len() - i,
    {
        assert(values[i as int] == all@[i as int]@);
        first.push(all[i].score);
        second.push(0);
        bytes.push(copy_of(all[i].bytes.as_slice()));
        i = i + 1;
    }
    let order = sort_ranked(first.as_slice(), second.as_slice(), bytes.as_slice());
    proof {
        assert(ranked_entries(first@, second@, bytes@) =~= substring_ranks(values));
        lemma_rank_order_total(substring_ranks(values));
        lemma_ordered(values.len(), rank_order(substring_ranks(values)));
    }
    let mut out: Vec<Substring> = Vec::with_capacity(order.len());
    let mut k: usize = 0;
    while k < order.len()
        invariant
            k <= order.len(),
            order.len() == all.len(),
            values == substring_values(all@),
            order@ == order_ranked(substring_ranks(values)),
            forall|j: int| 0 <= j < order.len() ==> (#[trigger] order@[j]) < all.len(),
            out.len() == k,
            forall|j: int| 0 <= j < k ==> (#[trigger] out@[j])@ == values[order@[j] as int],
        decreases order.len() - k,
    {
        let at = order[k];
        assert(order@[k as int] < all.len());
        let s = &all[at];
        out.push(
            Substring { bytes: copy_of(s.bytes.as_slice()), count: s.count, score: s.score },
        );
        assert(values[at as int] == all@[at as int]@);
        k = k + 1;
    }
    assert(substring_values(out@) =~= ranked_substrings(values));
    out
}

/// The first place from `i` on of an offset that is at least `limit`.
pub open spec fn first_past(offsets: Seq<usize>, i: nat, limit: int) -> nat
    decreases offsets.len() - i,
{
    if i < offsets.len() && offsets[i as int] < limit {
        first_past(offsets, i + 1, limit)
    } else {
        i
    }
}

proof fn lemma_first_past(offsets: Seq<usize>, i: nat, limit: int)
    ensures
        i <= first_past(offsets, i, limit),
    decreases offsets.len() - i,
{
    if i < offsets.len() && offsets[i as int] < limit {
        lemma_first_past(offsets, i + 1, limit);
    }
}

/// Place `p` of a chunk that starts at `start` belongs to one of the occurrences from `a` up to
/// `b`.
pub open spec fn is_covered(
    offsets: Seq<usize>,
    len: nat,
    a: nat,
    b: nat,
    start: nat,
    p: int,
) -> bool {
    exists|k: int| a <= k < b && (#[trigger] offsets[k]) <= start + p < offsets[k] + len
}

/// Puts zeros in place of the occurrences of a byte string of `len` bytes that start in a chunk.
/// The chunk starts at `start` in a file; the offsets before place `from` have been dealt with.
/// Returns the place of the first offset that has not.
pub fn clean_chunk(chunk: &mut Vec<u8>, start: usize, offsets: &[usize], from: usize, len: usize) -> (
    next: usize)
    requires
        from <= offsets@.len(),
        start + old(chunk)@.len() + len <= usize::MAX,
        forall|i: int|
            first_past(offsets@, from as nat, start as int) <= i < first_past(
                offsets@,
                first_past(offsets@, from as nat, start as int),
                start + old(chunk)@.len(),
            ) ==> start <= (#[trigger] offsets@[i]),
    ensures
        next as nat == first_past(
            offsets@,
            first_past(offsets@, from as nat, start as int),
            start + old(chunk)@.len(),
        ),
        final(chunk)@.len() == old(chunk)@.len(),
        forall|p: int|
            0 <= p < old(chunk)@.len() ==> (#[trigger] final(chunk)@[p]) == (if is_covered(
                offsets@,
                len as nat,
                first_past(offsets@, from as nat, start as int),
                next as nat,
                start as nat,
                p,
            ) {
                0
            } else {
                old(chunk)@[p]
            }),
{
    let n = chunk.len();
    let ghost before = chunk@;
    let mut idx: usize = from;
    while idx < offsets.len() && offsets[idx] < start
        invariant
            from <= idx <= offsets@.len(),
            first_past(offsets@, from as nat, start as int) == first_past(
                offsets@,
                idx as nat,
                start as int,
            ),
        decreases offsets@.len() - idx,
    {
        idx = idx + 1;
    }
    let ghost a = idx as nat;
    while idx < offsets.len() && offsets[idx] < start + n
        invariant
            a <= idx <= offsets@.len(),
            a == first_past(offsets@, from as nat, start as int),
            n == before.len(),
            chunk@.len() == n,
            start + n + len <= usize::MAX,
            forall|i: int|
                a <= i < first_past(offsets@, a, start + n) ==> start <= (#[trigger] offsets@[i]),
            first_past(offsets@, a, start + n) == first_past(offsets@, idx as nat, start + n),
            forall|p: int|
                0 <= p < n ==> (#[trigger] chunk@[p]) == (if is_covered(
                    offsets@,
                    len as nat,
                    a,
                    idx as nat,
                    start as nat,
                    p,
                ) {
                    0
                } else {
                    before[p]
                }),
        decreases offsets@.len() - idx,
    {
        assert(offsets@[idx as int] >= start) by {
            lemma_first_past(offsets@, (idx + 1) as nat, start + n);
        }
        let local = offsets[idx] - start;
        let end: usize = if local + len < n {
            local + len
        } else {
            n
        };
        let ghost was = chunk@;
        let mut i: usize = local;
        while i < end
            invariant
                local <= i,
                i <= end || i == local,
                end <= n,
                chunk@.len() == n,
                was.len() == n,
                forall|p: int|
                    0 <= p < n ==> (#[trigger] chunk@[p]) == (if local <= p < i {
                        0
                    } else {
                        was[p]
                    }),
            decreases end - i,
        {
            chunk.set(i, 0);
            i = i + 1;
        }
        proof {
            assert forall|p: int| 0 <= p < n implies (#[trigger] chunk@[p]) == (if is_covered(
                offsets@,
                len as nat,
                a,
                (idx + 1) as nat,
                start as nat,
                p,
            ) {
                0
            } else {
                before[p]
            }) by {
                let was_covered = is_covered(offsets@, len as nat, a, idx as nat, start as nat, p);
                assert(was[p] == (if was_covered {
                    0
                } else {
                    before[p]
                }));
                assert(chunk@[p] == (if local <= p < end {
                    0
                } else {
                    was[p]
                }));
                if was_covered {
                    let k = choose|k: int|
                        a <= k < idx && (#[trigger] offsets@[k]) <= start + p < offsets@[k] + len;
                    assert(a <= k < idx + 1);
                }
                if local <= p < end {
                    assert(offsets@[idx as int] <= start + p < offsets@[idx as int] + len);
                }
                if is_covered(offsets@, len as nat, a, (idx + 1) as nat, start as nat, p) {
                    let k = choose|k: int|
                        a <= k < idx + 1 && (#[trigger] offsets@[k]) <= start + p < offsets@[k]
                            + len;
                    if k < idx {
                        assert(was_covered);
                    }
                }
            }
        }
        idx = idx + 1;
    }
    idx
}

/// Of the samples the fifty that cover the most bytes are counted, those that cover more first, and all
/// where there are no more. One that is left out does not cover more bytes than one that is not.
pub proof fn lemma_top_samples(list: Seq<Counted>)
    requires
        list.len() <= usize::MAX,
        forall|i: int|
            0 <= i < list.len() ==> (#[trigger] list[i]).count <= usize::MAX && list[i].chunk.len()
                <= usize::MAX,
    ensures
        ({
            let top = top_samples(list);
            &&& list.len() <= 50 ==> top.len() == list.len()
            &&& list.len() > 50 ==> top.len() == 50
            &&& forall|j: int|
                0 <= j < list.len() ==> top.contains((#[trigger] list[j]).chunk) || all_cover(
                    list,
                    top,
                    list[j].count * list[j].chunk.len(),
                )
        }),
{
    let top = top_samples(list);
    let ranks = sample_ranks(list);
    let order = order_ranked(ranks);
    lemma_rank_order_total(ranks);
    lemma_ordered(list.len(), rank_order(ranks));
    assert forall|j: int| 0 <= j < list.len() implies top.contains((#[trigger] list[j]).chunk)
        || all_cover(list, top, list[j].count * list[j].chunk.len()) by {
        lemma_holds_all(order, list.len(), j);
        let k = choose|k: int| 0 <= k < list.len() && #[trigger] order[k] == j;
        if k < top.len() {
            assert(top[k] == list[j].chunk);
        } else {
            lemma_cover_fits(list[j]);
            assert forall|i: int| 0 <= i < top.len() implies covers_as_much(
                list,
                #[trigger] top[i],
                list[j].count * list[j].chunk.len(),
            ) by {
                let m = order[i] as int;
                lemma_rank_decides(ranks, i, k);
                lemma_cover_fits(list[m]);
                assert(list[m].chunk == top[i]);
            }
        }
    }
}

/// The string of a sample that covers `least` bytes or more.
pub open spec fn covers_as_much(list: Seq<Counted>, chunk: Seq<u8>, least: nat) -> bool {
    exists|m: int|
        0 <= m < list.len() && (#[trigger] list[m]).chunk == chunk && list[m].count
            * list[m].chunk.len() >= least
}

/// Each of the strings covers `least` bytes or more.
pub open spec fn all_cover(list: Seq<Counted>, top: Seq<Seq<u8>>, least: nat) -> bool {
    forall|i: int| 0 <= i < top.len() ==> covers_as_much(list, #[trigger] top[i], least)
}

proof fn lemma_cover_fits(c: Counted)
    requires
        c.count <= usize::MAX,
        c.chunk.len() <= usize::MAX,
    ensures
        0 <= c.count * c.chunk.len() <= u128::MAX,
{
    let a = c.count;
    let b = c.chunk.len();
    assert(0 <= a * b <= 0xffff_ffff_ffff_ffff * 0xffff_ffff_ffff_ffff) by (nonlinear_arith)
        requires
            a <= 0xffff_ffff_ffff_ffff,
            b <= 0xffff_ffff_ffff_ffff,
    ;
}

/// The byte behind each of the occurrences is `b`.
pub open spec fn all_behind(data: Seq<u8>, offsets: Seq<usize>, len: nat, b: u8) -> bool {
    forall|i: int|
        0 <= i < offsets.len() ==> (#[trigger] offsets[i]) + len < data.len() && data[offsets[i]
            + len] == b
}

/// The byte in front of each of the occurrences is `b`.
pub open spec fn all_before(data: Seq<u8>, offsets: Seq<usize>, b: u8) -> bool {
    forall|i: int|
        0 <= i < offsets.len() ==> 0 < (#[trigger] offsets[i]) <= data.len() && data[offsets[i] - 1]
            == b
}

/// A byte is taken up only where the occurrences have it as their neighbour: in a strict search every
/// one of them, else every one that has a neighbour at all, and one at least. The byte behind comes
/// before the byte in front, and nothing stops the growth while one can be taken up.
pub proof fn lemma_growth_is_common(
    data: Seq<u8>,
    offsets: Seq<usize>,
    len: nat,
    strict: bool,
    g: Growth,
)
    requires
        is_growth(data, offsets, len, strict, g),
    ensures
        match g {
            Growth::Behind(b) => {
                &&& offsets.len() > 0
                &&& forall|i: int|
                    0 <= i < offsets.len() && (#[trigger] offsets[i]) + len < data.len()
                        ==> data[offsets[i] + len] == b
                &&& strict ==> forall|i: int|
                    0 <= i < offsets.len() ==> (#[trigger] offsets[i]) + len < data.len()
            },
            Growth::Before(b) => {
                &&& offsets.len() > 0
                &&& forall|i: int|
                    0 <= i < offsets.len() && 0 < (#[trigger] offsets[i]) <= data.len()
                        ==> data[offsets[i] - 1] == b
                &&& strict ==> forall|i: int|
                    0 <= i < offsets.len() ==> 0 < (#[trigger] offsets[i]) <= data.len()
            },
            Growth::Stop => true,
        },
        !(g is Behind) && offsets.len() > 0 ==> forall|b: u8|
            !#[trigger] all_behind(data, offsets, len, b),
        g == Growth::Stop && offsets.len() > 0 ==> forall|b: u8|
            !#[trigger] all_before(data, offsets, b),
{
    if let Growth::Behind(b) = g {
        assert forall|i: int| 0 <= i < offsets.len() implies ((#[trigger] offsets[i]) + len
            < data.len() ==> data[offsets[i] + len] == b) && (strict ==> offsets[i] + len
            < data.len()) by {
            assert(neighbour(data, offsets, len, true, i) == Some(b) || (!strict && neighbour(
                data,
                offsets,
                len,
                true,
                i,
            ) is None));
        }
    }
    if let Growth::Before(b) = g {
        assert forall|i: int| 0 <= i < offsets.len() implies (0 < (#[trigger] offsets[i])
            <= data.len() ==> data[offsets[i] - 1] == b) && (strict ==> 0 < offsets[i]
            <= data.len()) by {
            assert(neighbour(data, offsets, len, false, i) == Some(b) || (!strict && neighbour(
                data,
                offsets,
                len,
                false,
                i,
            ) is None));
        }
    }
    if !(g is Behind) && offsets.len() > 0 {
        assert forall|b: u8| !#[trigger] all_behind(data, offsets, len, b) by {
            if all_behind(data, offsets, len, b) {
                assert forall|i: int| 0 <= i < offsets.len() implies #[trigger] neighbour(
                    data,
                    offsets,
                    len,
                    true,
                    i,
                ) == Some(b) by {
                    assert(offsets[i] + len < data.len());
                }
                assert(neighbour(data, offsets, len, true, 0) == Some(b));
                assert(common_neighbour(data, offsets, len, true, strict, b));
            }
        }
    }
    if g == Growth::Stop && offsets.len() > 0 {
        assert forall|b: u8| !#[trigger] all_before(data, offsets, b) by {
            if all_before(data, offsets, b) {
                assert forall|i: int| 0 <= i < offsets.len() implies #[trigger] neighbour(
                    data,
                    offsets,
                    len,
                    false,
                    i,
                ) == Some(b) by {
                    assert(0 < offsets[i] <= data.len());
                }
                assert(neighbour(data, offsets, len, false, 0) == Some(b));
                assert(common_neighbour(data, offsets, len, false, strict, b));
            }
        }
    }
}

/// Exactly the fronts and ends of every length from the least one on, short of the whole, are listed.
pub proof fn lemma_affixes_complete(bytes: Seq<u8>, min_len: nat, len: nat, x: Seq<u8>)
    requires
        len <= bytes.len(),
    ensures
        affixes_below(bytes, min_len, len).contains(x) <==> min_len <= x.len() < len && (x
            == bytes.take(x.len() as int) || x == bytes.skip(bytes.len() - x.len())),
    decreases len,
{
    if len > min_len {
        let n = (len - 1) as nat;
        lemma_affixes_complete(bytes, min_len, n, x);
        let before = affixes_below(bytes, min_len, n);
        let front = bytes.take(n as int);
        let end = bytes.skip(bytes.len() - n);
        lemma_with_new(before, front, x);
        lemma_with_new(with_new(before, front), end, x);
    }
}

proof fn lemma_with_new(list: Seq<Seq<u8>>, new: Seq<u8>, x: Seq<u8>)
    ensures
        with_new(list, new).contains(x) <==> list.contains(x) || x == new,
{
    let now = with_new(list, new);
    if !list.contains(new) {
        assert(now[list.len() as int] == new);
    }
    if list.contains(x) {
        let i = choose|i: int| 0 <= i < list.len() && list[i] == x;
        assert(now[i] == x);
    }
}

/// Exactly the byte strings that occur more than 24 times are kept, with their counts and the number of
/// bytes that they cover.
pub proof fn lemma_frequent_affixes(list: Seq<Seq<u8>>, counts: Seq<usize>, n: nat, j: int)
    requires
        0 <= j < n <= counts.len(),
        list.len() == counts.len(),
    ensures
        counts[j] > 24 ==> frequent_affixes(list, counts, n).contains(
            (SubstringValue {
                bytes: list[j],
                count: counts[j],
                score: (counts[j] * list[j].len()) as u128,
            }),
        ),
        forall|i: int|
            0 <= i < frequent_affixes(list, counts, n).len() ==> (#[trigger] frequent_affixes(
                list,
                counts,
                n,
            )[i]).count > 24,
    decreases n,
{
    let before = frequent_affixes(list, counts, (n - 1) as nat);
    let all = frequent_affixes(list, counts, n);
    if n > 1 {
        lemma_frequent_affixes(
            list,
            counts,
            (n - 1) as nat,
            if j < n - 1 {
                j
            } else {
                0
            },
        );
    } else {
        assert(before =~= Seq::empty());
    }
    if counts[j] > 24 {
        let s = substring_of(list[j], counts[j]);
        if j == n - 1 {
            assert(all[before.len() as int] == s);
        } else {
            let i = choose|i: int| 0 <= i < before.len() && before[i] == s;
            assert(all[i] == s);
        }
    }
    assert forall|i: int| 0 <= i < all.len() implies (#[trigger] all[i]).count > 24 by {
        if i < before.len() {
            assert(all[i] == before[i]);
        }
    }
}

/// The rows come by the number of bytes that they cover, the most first, and none is lost.
pub proof fn lemma_rows_descend(list: Seq<SubstringValue>, i: int, j: int)
    requires
        list.len() <= usize::MAX,
        0 <= i < j < list.len(),
    ensures
        ({
            let r = ranked_substrings(list);
            &&& r.len() == list.len()
            &&& r[i].score >= r[j].score
            &&& list.contains(r[i])
            &&& r.contains(list[i])
            &&& r.contains(list[j])
        }),
{
    let ranks = substring_ranks(list);
    let order = order_ranked(ranks);
    lemma_rank_decides(ranks, i, j);
    lemma_rank_order_total(ranks);
    lemma_ordered(list.len(), rank_order(ranks));
    lemma_holds_all(order, list.len(), i);
    lemma_holds_all(order, list.len(), j);
    let a = choose|a: int| 0 <= a < list.len() && #[trigger] order[a] == i;
    let b = choose|b: int| 0 <= b < list.len() && #[trigger] order[b] == j;
    assert(ranked_substrings(list)[a] == list[i]);
    assert(ranked_substrings(list)[b] == list[j]);
    assert(ranked_substrings(list)[i] == list[order[i] as int]);
}

/// The place that divides offsets which do not decrease: those from `i` up to it are below the limit,
/// and those from it on are not.
pub proof fn lemma_offsets_divided(offsets: Seq<usize>, i: nat, limit: int, k: int)
    requires
        i <= offsets.len(),
        forall|a: int, b: int| 0 <= a <= b < offsets.len() ==> offsets[a] <= offsets[b],
        i <= k < offsets.len(),
    ensures
        i <= first_past(offsets, i, limit) <= offsets.len(),
        k < first_past(offsets, i, limit) <==> offsets[k] < limit,
    decreases offsets.len() - i,
{
    if i < offsets.len() && offsets[i as int] < limit && k > i {
        lemma_offsets_divided(offsets, i + 1, limit, k);
    } else if i < offsets.len() && offsets[i as int] < limit {
        lemma_first_past(offsets, i + 1, limit);
        lemma_first_past_inside(offsets, i + 1, limit);
    }
}

proof fn lemma_first_past_inside(offsets: Seq<usize>, i: nat, limit: int)
    requires
        i <= offsets.len(),
    ensures
        first_past(offsets, i, limit) <= offsets.len(),
    decreases offsets.len() - i,
{
    if i < offsets.len() && offsets[i as int] < limit {
        lemma_first_past_inside(offsets, i + 1, limit);
    }
}

/// Of offsets that do not decrease, a chunk of `n` bytes at `start` has zeros exactly where an
/// occurrence that begins in the chunk reaches.
pub proof fn lemma_zeros(offsets: Seq<usize>, len: nat, start: nat, n: nat, p: int)
    requires
        forall|a: int, b: int| 0 <= a <= b < offsets.len() ==> offsets[a] <= offsets[b],
        0 <= p < n,
    ensures
        ({
            let a = first_past(offsets, 0, start as int);
            let b = first_past(offsets, a, (start + n) as int);
            is_covered(offsets, len, a, b, start, p) <==> exists|k: int|
                0 <= k < offsets.len() && start <= (#[trigger] offsets[k]) < start + n && offsets[k]
                    <= start + p < offsets[k] + len
        }),
{
    let a = first_past(offsets, 0, start as int);
    let b = first_past(offsets, a, (start + n) as int);
    lemma_first_past_inside(offsets, 0, start as int);
    lemma_first_past_inside(offsets, a, (start + n) as int);
    if is_covered(offsets, len, a, b, start, p) {
        let k = choose|k: int| a <= k < b && (#[trigger] offsets[k]) <= start + p < offsets[k] + len;
        lemma_offsets_divided(offsets, 0, start as int, k);
        lemma_offsets_divided(offsets, a, (start + n) as int, k);
        assert(start <= offsets[k] < start + n);
    }
    if exists|k: int|
        0 <= k < offsets.len() && start <= (#[trigger] offsets[k]) < start + n && offsets[k] <= start
            + p < offsets[k] + len {
        let k = choose|k: int|
            0 <= k < offsets.len() && start <= (#[trigger] offsets[k]) < start + n && offsets[k]
                <= start + p < offsets[k] + len;
        lemma_offsets_divided(offsets, 0, start as int, k);
        lemma_offsets_divided(offsets, a, (start + n) as int, k);
        assert(a <= k < b);
    }
}

/// A byte string takes up one byte in each round, and no more than it has rounds. It stops before the
/// rounds are used up only where there is no byte to take up, behind or before.
pub proof fn lemma_grown_as_far_as_it_goes(
    data: Seq<u8>,
    bytes: Seq<u8>,
    offsets: Seq<usize>,
    rounds: nat,
    r: Grown,
)
    requires
        grows_to(data, bytes, offsets, rounds, Some(r)),
    ensures
        bytes.len() <= r.bytes.len() <= bytes.len() + rounds,
        !r.stopped ==> r.bytes.len() == bytes.len() + rounds,
        r.stopped ==> is_growth(data, r.offsets, r.bytes.len(), false, Growth::Stop),
    decreases rounds,
{
    if rounds > 0 {
        let left = (rounds - 1) as nat;
        let g = choose|g: Growth|
            #[trigger] is_growth(data, offsets, bytes.len(), false, g) && match g {
                Growth::Behind(b) => grows_to(data, bytes.push(b), offsets, left, Some(r)),
                Growth::Before(b) => if offsets.contains(0) {
                    false
                } else {
                    grows_to(data, seq![b] + bytes, moved_down(offsets), left, Some(r))
                },
                Growth::Stop => Some(r) == Some(Grown { bytes, offsets, stopped: true }),
            };
        match g {
            Growth::Behind(b) => {
                lemma_grown_as_far_as_it_goes(data, bytes.push(b), offsets, left, r);
            },
            Growth::Before(b) => {
                lemma_grown_as_far_as_it_goes(data, seq![b] + bytes, moved_down(offsets), left, r);
            },
            Growth::Stop => {},
        }
    }
}

} // verus!
