//! Dictionary stages: frequent byte strings become two-byte codes behind an escape byte.

use std::collections::HashMap;
use vstd::prelude::*;

use crate::bytes::{byte_counts, copy_of, count_of};
use crate::segments::joined;

verus! {

broadcast use vstd::std_specs::hash::group_hash_axioms;

/// Larger inputs are coded in pieces of this many bytes, independently of each other.
pub const ENCODE_CHUNK_SIZE: usize = 4194304;

/// Inputs up to this size are coded in one piece.
pub const ENCODE_SINGLE_LIMIT: usize = 8388608;

/// The automaton for a dictionary has room for this many bytes.
pub const MAX_DICTIONARY_BYTES: usize = 0x7f00_0000;

/// The automaton for a dictionary that has a string twice has room for this many bytes.
pub const MAX_REPEATED_BYTES: usize = 0x7f_0000;

/// A dictionary's codes and the strings they stand for.
pub open spec fn table(map: Map<u8, Vec<u8>>) -> Map<u8, Seq<u8>> {
    map.map_values(|v: Vec<u8>| v@)
}

/// How many bytes the strings for the codes below `n` have together.
pub open spec fn table_size(t: Map<u8, Seq<u8>>, n: nat) -> nat
    decreases n,
{
    if n == 0 {
        0
    } else {
        table_size(t, (n - 1) as nat) + if t.contains_key((n - 1) as u8) {
            t[(n - 1) as u8].len()
        } else {
            0
        }
    }
}

/// No string is empty, and no two codes stand for the same string.
pub open spec fn proper_table(t: Map<u8, Seq<u8>>) -> bool {
    &&& forall|c: u8| #[trigger] t.contains_key(c) ==> t[c].len() > 0
    &&& distinct_strings(t)
}

/// No string has two codes.
pub open spec fn distinct_strings(t: Map<u8, Seq<u8>>) -> bool {
    forall|c: u8, d: u8|
        #[trigger] t.contains_key(c) && #[trigger] t.contains_key(d) && t[c] == t[d] ==> c == d
}

/// There is an automaton for the dictionary.
pub open spec fn table_fits(t: Map<u8, Seq<u8>>) -> bool {
    &&& table_size(t, 256) <= MAX_DICTIONARY_BYTES
    &&& distinct_strings(t) || table_size(t, 256) <= MAX_REPEATED_BYTES
}

/// The string `p` stands in `data` at `pos`.
pub open spec fn occurs_at(p: Seq<u8>, data: Seq<u8>, pos: int) -> bool {
    0 <= pos && pos + p.len() <= data.len() && data.subrange(pos, pos + p.len()) == p
}

/// One step of a coded text: a byte, or a code of the dictionary.
pub enum Piece {
    Byte(u8),
    Code(u8),
}

/// A byte is itself, or the escape byte and a zero where it is the escape byte; a code comes
/// behind the escape byte.
pub open spec fn piece_bytes(piece: Piece, escape: u8) -> Seq<u8> {
    match piece {
        Piece::Byte(b) => if b == escape {
            seq![escape, 0u8]
        } else {
            seq![b]
        },
        Piece::Code(c) => seq![escape, c],
    }
}

pub open spec fn pieces_bytes(pieces: Seq<Piece>, escape: u8) -> Seq<u8>
    decreases pieces.len(),
{
    if pieces.len() == 0 {
        seq![]
    } else {
        pieces_bytes(pieces.drop_last(), escape) + piece_bytes(pieces.last(), escape)
    }
}

pub open spec fn piece_text(piece: Piece, t: Map<u8, Seq<u8>>) -> Seq<u8> {
    match piece {
        Piece::Byte(b) => seq![b],
        Piece::Code(c) => t[c],
    }
}

/// What the pieces stand for.
pub open spec fn pieces_text(pieces: Seq<Piece>, t: Map<u8, Seq<u8>>) -> Seq<u8>
    decreases pieces.len(),
{
    if pieces.len() == 0 {
        seq![]
    } else {
        pieces_text(pieces.drop_last(), t) + piece_text(pieces.last(), t)
    }
}

/// The codes among the pieces are codes of the dictionary.
pub open spec fn known_codes(pieces: Seq<Piece>, t: Map<u8, Seq<u8>>) -> bool {
    forall|i: int|
        0 <= i < pieces.len() ==> (#[trigger] pieces[i] matches Piece::Code(c) ==> t.contains_key(
            c,
        ))
}

/// `out` is a coding of `data`.
pub open spec fn codes_text(
    out: Seq<u8>,
    data: Seq<u8>,
    escape: u8,
    t: Map<u8, Seq<u8>>,
) -> bool {
    exists|pieces: Seq<Piece>| #[trigger]
        pieces_bytes(pieces, escape) == out && pieces_text(pieces, t) == data && known_codes(
            pieces,
            t,
        )
}

/// `c` has the longest of the strings that stand at `pos`.
pub open spec fn is_longest_code(t: Map<u8, Seq<u8>>, data: Seq<u8>, pos: int, c: u8) -> bool {
    &&& t.contains_key(c)
    &&& occurs_at(t[c], data, pos)
    &&& forall|d: u8| #[trigger]
        t.contains_key(d) && occurs_at(t[d], data, pos) ==> t[d].len() <= t[c].len()
}

/// The code of the longest string that stands at `pos`, if one does.
pub open spec fn longest_code(t: Map<u8, Seq<u8>>, data: Seq<u8>, pos: int) -> Option<u8> {
    if exists|c: u8| #[trigger] is_longest_code(t, data, pos, c) {
        Some(choose|c: u8| #[trigger] is_longest_code(t, data, pos, c))
    } else {
        None
    }
}

/// The pieces for `data` from `pos` on: the longest string at each position, else the byte.
pub open spec fn greedy_pieces(t: Map<u8, Seq<u8>>, data: Seq<u8>, pos: nat) -> Seq<Piece>
    decreases data.len() - pos,
{
    if pos >= data.len() {
        seq![]
    } else {
        match longest_code(t, data, pos as int) {
            Some(c) => if 0 < t[c].len() <= data.len() - pos {
                seq![Piece::Code(c)] + greedy_pieces(t, data, pos + t[c].len())
            } else {
                seq![]
            },
            None => seq![Piece::Byte(data[pos as int])] + greedy_pieces(t, data, pos + 1),
        }
    }
}

/// The coding of one piece of input.
pub open spec fn greedy_code(t: Map<u8, Seq<u8>>, data: Seq<u8>, escape: u8) -> Seq<u8> {
    pieces_bytes(greedy_pieces(t, data, 0), escape)
}

/// The codings of the pieces of `data` from `start` on, one behind the other.
pub open spec fn chunked_code(
    t: Map<u8, Seq<u8>>,
    data: Seq<u8>,
    escape: u8,
    start: nat,
) -> Seq<u8>
    decreases data.len() - start,
{
    if start >= data.len() {
        seq![]
    } else if data.len() - start <= ENCODE_CHUNK_SIZE {
        greedy_code(t, data.skip(start as int), escape)
    } else {
        greedy_code(t, data.subrange(start as int, start + ENCODE_CHUNK_SIZE), escape)
            + chunked_code(t, data, escape, start + ENCODE_CHUNK_SIZE as nat)
    }
}

/// What a stage makes of `data` with a proper dictionary.
pub open spec fn stage_code(t: Map<u8, Seq<u8>>, data: Seq<u8>, escape: u8) -> Seq<u8> {
    if data.len() <= ENCODE_SINGLE_LIMIT {
        greedy_code(t, data, escape)
    } else {
        chunked_code(t, data, escape, 0)
    }
}

/// Why a stage cannot be undone.
#[derive(Clone, Copy, Debug, PartialEq, Eq, Structural)]
pub enum DictError {
    EndsAfterEscape,
    UnknownCode(u8),
}

/// What the coding `data` stands for.
pub open spec fn dict_decode(data: Seq<u8>, escape: u8, t: Map<u8, Seq<u8>>) -> Result<
    Seq<u8>,
    DictError,
>
    decreases data.len(),
{
    if data.len() == 0 {
        Ok(seq![])
    } else if data[0] != escape {
        match dict_decode(data.skip(1), escape, t) {
            Ok(rest) => Ok(seq![data[0]] + rest),
            Err(e) => Err(e),
        }
    } else if data.len() == 1 {
        Err(DictError::EndsAfterEscape)
    } else if data[1] != 0 && !t.contains_key(data[1]) {
        Err(DictError::UnknownCode(data[1]))
    } else {
        let here = if data[1] == 0 {
            seq![escape]
        } else {
            t[data[1]]
        };
        match dict_decode(data.skip(2), escape, t) {
            Ok(rest) => Ok(here + rest),
            Err(e) => Err(e),
        }
    }
}

pub proof fn lemma_pieces_bytes_concat(a: Seq<Piece>, b: Seq<Piece>, escape: u8)
    ensures
        pieces_bytes(a + b, escape) == pieces_bytes(a, escape) + pieces_bytes(b, escape),
    decreases b.len(),
{
    if b.len() == 0 {
        assert(a + b =~= a);
        assert(pieces_bytes(a, escape) + pieces_bytes(b, escape) =~= pieces_bytes(a, escape));
    } else {
        assert((a + b).drop_last() =~= a + b.drop_last());
        lemma_pieces_bytes_concat(a, b.drop_last(), escape);
        assert(pieces_bytes(a + b, escape) =~= pieces_bytes(a, escape) + pieces_bytes(b, escape));
    }
}

pub proof fn lemma_pieces_text_concat(a: Seq<Piece>, b: Seq<Piece>, t: Map<u8, Seq<u8>>)
    ensures
        pieces_text(a + b, t) == pieces_text(a, t) + pieces_text(b, t),
    decreases b.len(),
{
    if b.len() == 0 {
        assert(a + b =~= a);
        assert(pieces_text(a, t) + pieces_text(b, t) =~= pieces_text(a, t));
    } else {
        assert((a + b).drop_last() =~= a + b.drop_last());
        lemma_pieces_text_concat(a, b.drop_last(), t);
        assert(pieces_text(a + b, t) =~= pieces_text(a, t) + pieces_text(b, t));
    }
}

proof fn lemma_decode_pieces(pieces: Seq<Piece>, escape: u8, t: Map<u8, Seq<u8>>)
    requires
        known_codes(pieces, t),
        !t.contains_key(0),
    ensures
        dict_decode(pieces_bytes(pieces, escape), escape, t) == Ok::<Seq<u8>, DictError>(
            pieces_text(pieces, t),
        ),
    decreases pieces.len(),
{
    if pieces.len() > 0 {
        let first = seq![pieces[0]];
        let rest = pieces.skip(1);
        assert(pieces =~= first + rest);
        lemma_pieces_bytes_concat(first, rest, escape);
        lemma_pieces_text_concat(first, rest, t);
        assert forall|i: int| 0 <= i < rest.len() implies (#[trigger] rest[i] matches Piece::Code(
            c,
        ) ==> t.contains_key(c)) by {
            assert(rest[i] == pieces[i + 1]);
        }
        lemma_decode_pieces(rest, escape, t);
        let all = pieces_bytes(pieces, escape);
        let tail = pieces_bytes(rest, escape);
        assert(first.drop_last() =~= seq![]);
        let none = Seq::<Piece>::empty();
        assert(pieces_bytes(none, escape) =~= seq![]);
        assert(pieces_text(none, t) =~= seq![]);
        assert(pieces_bytes(first, escape) =~= piece_bytes(pieces[0], escape));
        assert(pieces_text(first, t) =~= piece_text(pieces[0], t));
        let one = piece_bytes(pieces[0], escape);
        assert(all =~= one + tail);
        assert(all.skip(one.len() as int) =~= tail);
        assert(known_codes(pieces, t));
        match pieces[0] {
            Piece::Byte(b) => {},
            Piece::Code(c) => {
                assert(t.contains_key(c));
            },
        }
    }
}

/// Whatever codes a text is decoded to it, as long as no string has the code zero.
pub proof fn lemma_decode_coding(out: Seq<u8>, data: Seq<u8>, escape: u8, t: Map<u8, Seq<u8>>)
    requires
        codes_text(out, data, escape, t),
        !t.contains_key(0),
    ensures
        dict_decode(out, escape, t) == Ok::<Seq<u8>, DictError>(data),
{
    let pieces = choose|pieces: Seq<Piece>| #[trigger]
        pieces_bytes(pieces, escape) == out && pieces_text(pieces, t) == data && known_codes(
            pieces,
            t,
        );
    lemma_decode_pieces(pieces, escape, t);
}

/// The byte value that occurs least often, the lowest of several.
pub open spec fn is_rarest(data: Seq<u8>, b: u8) -> bool {
    &&& forall|c: u8| count_of(data, b) <= #[trigger] count_of(data, c)
    &&& forall|c: u8| c < b ==> count_of(data, b) < #[trigger] count_of(data, c)
}

/// The lowest index with the least count.
pub fn least_used(counts: &[u64; 256]) -> (b: u8)
    ensures
        forall|c: u8| counts@[b as int] <= #[trigger] counts@[c as int],
        forall|c: u8| c < b ==> counts@[b as int] < #[trigger] counts@[c as int],
{
    let mut best: usize = 0;
    let mut i: usize = 1;
    while i < 256
        invariant
            best < i <= 256,
            forall|c: int| 0 <= c < i ==> counts@[best as int] <= #[trigger] counts@[c],
            forall|c: int| 0 <= c < best ==> counts@[best as int] < #[trigger] counts@[c],
        decreases 256 - i,
    {
        if counts[i] < counts[best] {
            best = i;
        }
        i += 1;
    }
    best as u8
}

/// The byte value to escape codes with: one that does not occur, else the rarest; the lowest of
/// several.
pub fn select_escape_byte(data: &[u8]) -> (b: u8)
    ensures
        is_rarest(data@, b),
{
    let counts = byte_counts(data);
    let b = least_used(&counts);
    proof {
        assert(counts@[b as int] as nat == count_of(data@, b));
        assert forall|c: u8| count_of(data@, b) <= #[trigger] count_of(data@, c) by {
            assert(counts@[c as int] as nat == count_of(data@, c));
        }
        assert forall|c: u8| c < b implies count_of(data@, b) < #[trigger] count_of(data@, c) by {
            assert(counts@[c as int] as nat == count_of(data@, c));
        }
    }
    b
}

/// Adds the byte counts of `data` to `total`; a count stays at the largest number.
pub fn add_byte_counts(total: &mut [u64; 256], data: &[u8])
    ensures
        forall|b: u8|
            (#[trigger] final(total)@[b as int]) as nat == if old(total)@[b as int] + count_of(
                data@,
                b,
            ) <= u64::MAX {
                old(total)@[b as int] as nat + count_of(data@, b)
            } else {
                u64::MAX as nat
            },
{
    let counts = byte_counts(data);
    let mut i: usize = 0;
    while i < 256
        invariant
            i <= 256,
            forall|b: u8| (#[trigger] counts@[b as int]) as nat == count_of(data@, b),
            forall|b: u8| i <= b ==> #[trigger] total@[b as int] == old(total)@[b as int],
            forall|b: u8|
                b < i ==> (#[trigger] total@[b as int]) as nat == if old(total)@[b as int]
                    + count_of(data@, b) <= u64::MAX {
                    old(total)@[b as int] as nat + count_of(data@, b)
                } else {
                    u64::MAX as nat
                },
        decreases 256 - i,
    {
        proof {
            assert(counts@[(i as u8) as int] as nat == count_of(data@, i as u8));
            assert(total@[(i as u8) as int] == old(total)@[(i as u8) as int]);
        }
        total[i] = total[i].saturating_add(counts[i]);
        i += 1;
    }
}

/// The first index at which `needle` stands in `haystack`, by `memchr::memchr`. Claimed of it:
/// `Some(i)` comes with the least index of the byte, and `None` exactly if the byte does not
/// occur.
#[verifier::external_body]
fn find_byte(needle: u8, haystack: &[u8]) -> (r: Option<usize>)
    ensures
        match r {
            Some(i) => i < haystack@.len() && haystack@[i as int] == needle && forall|j: int|
                0 <= j < i ==> haystack@[j] != needle,
            None => !haystack@.contains(needle),
        },
{
    memchr::memchr(needle, haystack)
}

/// The strings behind a list of vectors.
pub open spec fn strings(v: Seq<Vec<u8>>) -> Seq<Seq<u8>> {
    Seq::new(v.len(), |i: int| v[i]@)
}

pub open spec fn strings_size(s: Seq<Seq<u8>>) -> nat
    decreases s.len(),
{
    if s.len() == 0 {
        0
    } else {
        strings_size(s.drop_last()) + s.last().len()
    }
}

/// There is an automaton for the patterns.
pub open spec fn patterns_fit(patterns: Seq<Seq<u8>>) -> bool {
    &&& patterns.len() <= 256
    &&& strings_size(patterns) <= MAX_DICTIONARY_BYTES
    &&& patterns.no_duplicates() || strings_size(patterns) <= MAX_REPEATED_BYTES
}

/// Each entry says which pattern stands where, and none begins before the one in front of it ends.
pub open spec fn matches_ok(
    patterns: Seq<Seq<u8>>,
    data: Seq<u8>,
    found: Seq<(usize, usize, usize)>,
) -> bool {
    &&& forall|i: int|
        0 <= i < found.len() ==> {
            &&& (#[trigger] found[i]).0 < patterns.len()
            &&& found[i].1 <= found[i].2 <= data.len()
            &&& data.subrange(found[i].1 as int, found[i].2 as int) == patterns[found[i].0 as int]
            &&& i > 0 ==> found[i - 1].2 <= found[i].1
        }
}

/// No pattern stands at a position outside the entries, and none that stands where an entry
/// begins is longer.
pub open spec fn leftmost_longest(
    patterns: Seq<Seq<u8>>,
    data: Seq<u8>,
    found: Seq<(usize, usize, usize)>,
) -> bool {
    &&& forall|i: int, k: int|
        0 <= i < found.len() && 0 <= k < patterns.len() && occurs_at(
            #[trigger] patterns[k],
            data,
            (#[trigger] found[i]).1 as int,
        ) ==> patterns[k].len() <= found[i].2 - found[i].1
    &&& forall|i: int, k: int, q: int|
        #[trigger] in_gap(data, found, i, q) && 0 <= k < patterns.len() ==> !(
        #[trigger] occurs_at(patterns[k], data, q))
}

/// Where the gap in front of entry `i` begins.
pub open spec fn gap_start(found: Seq<(usize, usize, usize)>, i: int) -> int {
    if i == 0 {
        0
    } else {
        found[i - 1].2 as int
    }
}

/// Where the gap in front of entry `i` ends; behind the last entry comes the end of the data.
pub open spec fn gap_end(data: Seq<u8>, found: Seq<(usize, usize, usize)>, i: int) -> int {
    if i == found.len() {
        data.len() as int
    } else {
        found[i].1 as int
    }
}

/// `q` is in the gap in front of entry `i`, or behind the last one.
pub open spec fn in_gap(
    data: Seq<u8>,
    found: Seq<(usize, usize, usize)>,
    i: int,
    q: int,
) -> bool {
    0 <= i <= found.len() && gap_start(found, i) <= q < gap_end(data, found, i)
}

/// The non-overlapping matches of `patterns` in `data`, as pattern index, start and end, by
/// `aho_corasick::AhoCorasick::find_iter` on an automaton with
/// `aho_corasick::MatchKind::LeftmostLongest`. Claimed of it: the matches come in order, do not
/// overlap, and each is an occurrence of its pattern; where no pattern is empty, each match is as
/// long as any at its start, and no pattern occurs at a position between the matches. Which of
/// several equal patterns is reported is not stated, nor where empty patterns match. The automaton
/// can be built whenever its states, its transitions and the matches at its states can be numbered
/// below 2^31 - 1: it has hardly more states than the patterns have bytes, and the matches at a
/// state are all of equal patterns.
#[verifier::external_body]
fn find_patterns(patterns: &Vec<Vec<u8>>, data: &[u8]) -> (found: Vec<(usize, usize, usize)>)
    requires
        patterns_fit(strings(patterns@)),
    ensures
        matches_ok(strings(patterns@), data@, found@),
        (forall|k: int| 0 <= k < patterns@.len() ==> (#[trigger] strings(patterns@)[k]).len() > 0)
            ==> leftmost_longest(strings(patterns@), data@, found@),
{
    aho_corasick::AhoCorasick::builder()
        .match_kind(aho_corasick::MatchKind::LeftmostLongest)
        .build(patterns)
        .expect("the patterns are within the automaton's limits")
        .find_iter(data)
        .map(|m| (m.pattern().as_usize(), m.start(), m.end()))
        .collect()
}

/// The bytes of `data` as pieces.
pub open spec fn byte_pieces(data: Seq<u8>) -> Seq<Piece> {
    Seq::new(data.len(), |i: int| Piece::Byte(data[i]))
}

proof fn lemma_byte_pieces_text(data: Seq<u8>, t: Map<u8, Seq<u8>>)
    ensures
        pieces_text(byte_pieces(data), t) == data,
    decreases data.len(),
{
    if data.len() > 0 {
        assert(byte_pieces(data).drop_last() =~= byte_pieces(data.drop_last()));
        lemma_byte_pieces_text(data.drop_last(), t);
        assert(data.drop_last() + seq![data.last()] =~= data);
    } else {
        assert(pieces_text(byte_pieces(data), t) =~= data);
    }
}

proof fn lemma_plain_bytes(data: Seq<u8>, escape: u8)
    requires
        !data.contains(escape),
    ensures
        pieces_bytes(byte_pieces(data), escape) == data,
    decreases data.len(),
{
    if data.len() > 0 {
        let shorter = data.drop_last();
        assert(byte_pieces(data).drop_last() =~= byte_pieces(shorter));
        assert(data[data.len() - 1] != escape);
        assert(!shorter.contains(escape)) by {
            if shorter.contains(escape) {
                let i = choose|i: int| 0 <= i < shorter.len() && shorter[i] == escape;
                assert(data[i] == escape);
            }
        }
        lemma_plain_bytes(shorter, escape);
        assert(pieces_bytes(byte_pieces(data), escape) =~= data);
    } else {
        assert(pieces_bytes(byte_pieces(data), escape) =~= data);
    }
}

/// Appends the bytes of `data`, each escape byte with a zero behind it.
pub fn emit_literals(out: &mut Vec<u8>, data: &[u8], escape_byte: u8)
    ensures
        final(out)@ == old(out)@ + pieces_bytes(byte_pieces(data@), escape_byte),
{
    let ghost before = out@;
    let mut pos: usize = 0;
    proof {
        assert(byte_pieces(data@.take(0)) =~= seq![]);
        assert(before + pieces_bytes(byte_pieces(data@.take(0)), escape_byte) =~= before);
        assert(data@.take(data@.len() as int) =~= data@);
    }
    while pos < data.len()
        invariant
            pos <= data@.len(),
            out@ == before + pieces_bytes(byte_pieces(data@.take(pos as int)), escape_byte),
            data@.take(data@.len() as int) == data@,
        decreases data@.len() - pos,
    {
        let rest = &data[pos..data.len()];
        let ghost now = out@;
        let ghost done = byte_pieces(data@.take(pos as int));
        match find_byte(escape_byte, rest) {
            Some(offset) => {
                out.extend_from_slice(&data[pos..pos + offset]);
                out.push(escape_byte);
                out.push(0);
                proof {
                    let run = data@.subrange(pos as int, pos + offset);
                    assert(!run.contains(escape_byte)) by {
                        if run.contains(escape_byte) {
                            let i = choose|i: int| 0 <= i < run.len() && run[i] == escape_byte;
                            assert(rest@[i] == escape_byte);
                        }
                    }
                    lemma_plain_bytes(run, escape_byte);
                    let upto = data@.take(pos + offset);
                    assert(byte_pieces(upto) =~= done + byte_pieces(run));
                    lemma_pieces_bytes_concat(done, byte_pieces(run), escape_byte);
                    let next = byte_pieces(data@.take(pos + offset + 1));
                    assert(next.drop_last() =~= byte_pieces(upto));
                    assert(rest@[offset as int] == data@[pos + offset]);
                    assert(next.last() == Piece::Byte(escape_byte));
                    assert(out@ =~= before + pieces_bytes(next, escape_byte));
                }
                pos = pos + offset + 1;
            },
            None => {
                out.extend_from_slice(rest);
                proof {
                    lemma_plain_bytes(rest@, escape_byte);
                    assert(byte_pieces(data@) =~= done + byte_pieces(rest@));
                    lemma_pieces_bytes_concat(done, byte_pieces(rest@), escape_byte);
                    assert(out@ =~= before + pieces_bytes(byte_pieces(data@), escape_byte));
                }
                pos = data.len();
            },
        }
    }
}

/// The patterns are the strings of the dictionary, and `codes` are their codes.
pub open spec fn lists_table(
    t: Map<u8, Seq<u8>>,
    patterns: Seq<Seq<u8>>,
    codes: Seq<u8>,
) -> bool {
    &&& patterns.len() == codes.len()
    &&& forall|k: int|
        0 <= k < codes.len() ==> t.contains_key(#[trigger] codes[k]) && t[codes[k]] == patterns[k]
    &&& forall|c: u8| #[trigger]
        t.contains_key(c) ==> exists|k: int| 0 <= k < codes.len() && #[trigger] codes[k] == c
}

/// In a gap every position has its byte.
proof fn lemma_greedy_gap(t: Map<u8, Seq<u8>>, data: Seq<u8>, from: nat, to: nat)
    requires
        from <= to <= data.len(),
        forall|q: int, c: u8|
            from <= q < to && #[trigger] t.contains_key(c) ==> !(#[trigger] occurs_at(
                t[c],
                data,
                q,
            )),
    ensures
        greedy_pieces(t, data, from) == byte_pieces(data.subrange(from as int, to as int))
            + greedy_pieces(t, data, to),
    decreases to - from,
{
    if from == to {
        assert(byte_pieces(data.subrange(from as int, to as int)) =~= seq![]);
        assert(greedy_pieces(t, data, from) =~= byte_pieces(data.subrange(from as int, to as int))
            + greedy_pieces(t, data, to));
    } else {
        lemma_greedy_gap(t, data, from + 1, to);
        assert(longest_code(t, data, from as int) is None) by {
            if exists|c: u8| #[trigger] is_longest_code(t, data, from as int, c) {
                let c = choose|c: u8| #[trigger] is_longest_code(t, data, from as int, c);
                assert(occurs_at(t[c], data, from as int));
            }
        }
        let b = Piece::Byte(data[from as int]);
        assert(seq![b] + byte_pieces(data.subrange((from + 1) as int, to as int)) =~= byte_pieces(
            data.subrange(from as int, to as int),
        ));
        assert(greedy_pieces(t, data, from) =~= byte_pieces(data.subrange(from as int, to as int))
            + greedy_pieces(t, data, to));
    }
}

/// The longest string of a proper dictionary at a position has one code.
proof fn lemma_longest_code_unique(t: Map<u8, Seq<u8>>, data: Seq<u8>, pos: int, c: u8)
    requires
        proper_table(t),
        is_longest_code(t, data, pos, c),
    ensures
        longest_code(t, data, pos) == Some(c),
{
    let d = choose|d: u8| #[trigger] is_longest_code(t, data, pos, d);
    assert(t.contains_key(c) && t.contains_key(d));
    assert(t[c].len() == t[d].len());
    assert(t[c] == t[d]);
}

/// A gap and the code behind it continue the pieces.
proof fn lemma_extend_pieces(
    pieces: Seq<Piece>,
    data: Seq<u8>,
    from: int,
    start: int,
    end: int,
    code: u8,
    escape: u8,
    t: Map<u8, Seq<u8>>,
)
    requires
        0 <= from <= start <= end <= data.len(),
        pieces_text(pieces, t) == data.take(from),
        known_codes(pieces, t),
        t.contains_key(code),
        t[code] == data.subrange(start, end),
    ensures
        ({
            let gap = byte_pieces(data.subrange(from, start));
            let all = pieces + gap.push(Piece::Code(code));
            &&& pieces_bytes(all, escape) == pieces_bytes(pieces, escape) + pieces_bytes(
                gap,
                escape,
            ) + seq![escape, code]
            &&& pieces_text(all, t) == data.take(end)
            &&& known_codes(all, t)
        }),
{
    let gap = byte_pieces(data.subrange(from, start));
    let mid = pieces + gap;
    let all = pieces + gap.push(Piece::Code(code));
    lemma_pieces_bytes_concat(pieces, gap, escape);
    lemma_pieces_text_concat(pieces, gap, t);
    lemma_byte_pieces_text(data.subrange(from, start), t);
    assert(all.drop_last() =~= mid);
    assert(all.last() == Piece::Code(code));
    assert(pieces_text(all, t) =~= data.take(end));
    assert forall|j: int| 0 <= j < all.len() implies (#[trigger] all[j] matches Piece::Code(c)
        ==> t.contains_key(c)) by {
        if j < pieces.len() {
            assert(all[j] == pieces[j]);
        } else if j < mid.len() {
            assert(all[j] == gap[j - pieces.len()]);
        }
    }
}

/// The greedy pieces go over the gap in front of a match and then over the match.
proof fn lemma_greedy_step(
    t: Map<u8, Seq<u8>>,
    data: Seq<u8>,
    patterns: Seq<Seq<u8>>,
    codes: Seq<u8>,
    found: Seq<(usize, usize, usize)>,
    i: int,
)
    requires
        proper_table(t),
        lists_table(t, patterns, codes),
        matches_ok(patterns, data, found),
        leftmost_longest(patterns, data, found),
        0 <= i < found.len(),
    ensures
        greedy_pieces(t, data, gap_start(found, i) as nat) == byte_pieces(
            data.subrange(gap_start(found, i), found[i].1 as int),
        ).push(Piece::Code(codes[found[i].0 as int])) + greedy_pieces(t, data, found[i].2 as nat),
{
    let from = gap_start(found, i);
    let (p, start, end) = found[i];
    let code = codes[p as int];
    assert(t.contains_key(code) && t[code] == patterns[p as int]);
    if i > 0 {
        assert(found[i - 1].2 <= found[i].1);
    }
    assert forall|q: int, c: u8| from <= q < start && #[trigger] t.contains_key(c) implies !(
    #[trigger] occurs_at(t[c], data, q)) by {
        let k = choose|k: int| 0 <= k < codes.len() && #[trigger] codes[k] == c;
        assert(in_gap(data, found, i, q));
        assert(!occurs_at(patterns[k], data, q));
    }
    lemma_greedy_gap(t, data, from as nat, start as nat);
    assert(t[code].len() == end - start);
    assert(occurs_at(t[code], data, start as int));
    assert forall|d: u8| #[trigger]
        t.contains_key(d) && occurs_at(t[d], data, start as int) implies t[d].len()
        <= t[code].len() by {
        let k = choose|k: int| 0 <= k < codes.len() && #[trigger] codes[k] == d;
        assert(occurs_at(patterns[k], data, found[i].1 as int));
    }
    assert(is_longest_code(t, data, start as int, code));
    lemma_longest_code_unique(t, data, start as int, code);
    let gap = byte_pieces(data.subrange(from, start as int));
    assert(gap + (seq![Piece::Code(code)] + greedy_pieces(t, data, end as nat)) =~= gap.push(
        Piece::Code(code),
    ) + greedy_pieces(t, data, end as nat));
}

/// Codes one piece of input with the strings in `patterns`, whose codes are in `pattern_to_code`.
fn encode_chunk_ac(
    data: &[u8],
    escape_byte: u8,
    patterns: &Vec<Vec<u8>>,
    pattern_to_code: &Vec<u8>,
    Ghost(t): Ghost<Map<u8, Seq<u8>>>,
) -> (out: Vec<u8>)
    requires
        patterns_fit(strings(patterns@)),
        lists_table(t, strings(patterns@), pattern_to_code@),
    ensures
        codes_text(out@, data@, escape_byte, t),
        proper_table(t) ==> out@ == greedy_code(t, data@, escape_byte),
{
    let mut out: Vec<u8> = Vec::with_capacity(data.len());
    let found = find_patterns(patterns, data);
    let ghost pats = strings(patterns@);
    let ghost proper = proper_table(t);
    let ghost mut pieces = Seq::<Piece>::empty();
    let mut last_end: usize = 0;
    let mut i: usize = 0;
    proof {
        assert(data@.take(0) =~= seq![]);
        assert(pieces + greedy_pieces(t, data@, 0) =~= greedy_pieces(t, data@, 0));
        if proper {
            assert forall|k: int| 0 <= k < pats.len() implies (#[trigger] pats[k]).len() > 0 by {
                assert(t.contains_key(pattern_to_code@[k]));
            }
        }
    }
    while i < found.len()
        invariant
            i <= found@.len(),
            last_end <= data@.len(),
            last_end == gap_start(found@, i as int),
            pats == strings(patterns@),
            lists_table(t, pats, pattern_to_code@),
            matches_ok(pats, data@, found@),
            proper == proper_table(t),
            proper ==> leftmost_longest(pats, data@, found@),
            out@ == pieces_bytes(pieces, escape_byte),
            pieces_text(pieces, t) == data@.take(last_end as int),
            known_codes(pieces, t),
            proper ==> pieces + greedy_pieces(t, data@, last_end as nat) == greedy_pieces(
                t,
                data@,
                0,
            ),
        decreases found@.len() - i,
    {
        let (p, start, end) = found[i];
        assert(found@[i as int] == (p, start, end));
        let gap = &data[last_end..start];
        emit_literals(&mut out, gap, escape_byte);
        out.push(escape_byte);
        let code = pattern_to_code[p];
        out.push(code);
        proof {
            let more = byte_pieces(gap@).push(Piece::Code(code));
            lemma_extend_pieces(pieces, data@, last_end as int, start as int, end as int, code, escape_byte, t);
            if proper {
                lemma_greedy_step(t, data@, pats, pattern_to_code@, found@, i as int);
                assert(pieces + (more + greedy_pieces(t, data@, end as nat)) =~= (pieces + more)
                    + greedy_pieces(t, data@, end as nat));
            }
            pieces = pieces + more;
        }
        last_end = end;
        i += 1;
    }
    let tail = &data[last_end..data.len()];
    emit_literals(&mut out, tail, escape_byte);
    proof {
        let tail_pieces = byte_pieces(tail@);
        let all = pieces + tail_pieces;
        lemma_pieces_bytes_concat(pieces, tail_pieces, escape_byte);
        lemma_pieces_text_concat(pieces, tail_pieces, t);
        lemma_byte_pieces_text(tail@, t);
        assert(pieces_text(all, t) =~= data@);
        assert(known_codes(all, t)) by {
            assert forall|j: int| 0 <= j < all.len() implies (
            #[trigger] all[j] matches Piece::Code(c) ==> t.contains_key(c)) by {
                if j < pieces.len() {
                    assert(all[j] == pieces[j]);
                } else {
                    assert(all[j] == tail_pieces[j - pieces.len()]);
                }
            }
        }
        if proper {
            assert forall|q: int, c: u8|
                last_end <= q < data@.len() && #[trigger] t.contains_key(c) implies !(
            #[trigger] occurs_at(t[c], data@, q)) by {
                let k = choose|k: int|
                    0 <= k < pattern_to_code@.len() && #[trigger] pattern_to_code@[k] == c;
                assert(in_gap(data@, found@, found@.len() as int, q));
                assert(!occurs_at(pats[k], data@, q));
            }
            lemma_greedy_gap(t, data@, last_end as nat, data@.len());
            assert(greedy_pieces(t, data@, data@.len()) =~= seq![]);
            assert(all =~= greedy_pieces(t, data@, 0));
        }
        assert(out@ == pieces_bytes(all, escape_byte));
    }
    out
}

proof fn lemma_codes_text_concat(
    a: Seq<u8>,
    x: Seq<u8>,
    b: Seq<u8>,
    y: Seq<u8>,
    escape: u8,
    t: Map<u8, Seq<u8>>,
)
    requires
        codes_text(a, x, escape, t),
        codes_text(b, y, escape, t),
    ensures
        codes_text(a + b, x + y, escape, t),
{
    let p = choose|p: Seq<Piece>| #[trigger]
        pieces_bytes(p, escape) == a && pieces_text(p, t) == x && known_codes(p, t);
    let q = choose|q: Seq<Piece>| #[trigger]
        pieces_bytes(q, escape) == b && pieces_text(q, t) == y && known_codes(q, t);
    lemma_pieces_bytes_concat(p, q, escape);
    lemma_pieces_text_concat(p, q, t);
    let all = p + q;
    assert forall|j: int| 0 <= j < all.len() implies (#[trigger] all[j] matches Piece::Code(c)
        ==> t.contains_key(c)) by {
        if j < p.len() {
            assert(all[j] == p[j]);
        } else {
            assert(all[j] == q[j - p.len()]);
        }
    }
    assert(pieces_bytes(all, escape) == a + b);
}

/// The strings of a dictionary in the order of their codes, and the codes.
fn list_table(code_map: &HashMap<u8, Vec<u8>>) -> (r: (Vec<Vec<u8>>, Vec<u8>))
    ensures
        lists_table(table(code_map@), strings(r.0@), r.1@),
        r.0@.len() <= 256,
        table_fits(table(code_map@)) ==> patterns_fit(strings(r.0@)),
{
    let ghost t = table(code_map@);
    let mut patterns: Vec<Vec<u8>> = Vec::new();
    let mut codes: Vec<u8> = Vec::new();
    let mut c: usize = 0;
    assert(strings(patterns@) =~= seq![]);
    while c < 256
        invariant
            c <= 256,
            t == table(code_map@),
            patterns@.len() == codes@.len(),
            codes@.len() <= c,
            forall|k: int| 0 <= k < codes@.len() ==> (#[trigger] codes@[k]) < c,
            codes@.no_duplicates(),
            forall|k: int|
                0 <= k < codes@.len() ==> t.contains_key(#[trigger] codes@[k]) && t[codes@[k]]
                    == patterns@[k]@,
            forall|d: u8|
                #[trigger] t.contains_key(d) && d < c ==> exists|k: int|
                    0 <= k < codes@.len() && #[trigger] codes@[k] == d,
            strings_size(strings(patterns@)) == table_size(t, c as nat),
        decreases 256 - c,
    {
        let code = c as u8;
        let ghost codes0 = codes@;
        let ghost pats0 = strings(patterns@);
        match code_map.get(&code) {
            Some(chunk) => {
                assert(t.contains_key(code) && t[code] == chunk@);
                let copy = copy_of(chunk);
                patterns.push(copy);
                codes.push(code);
                proof {
                    assert(strings(patterns@).drop_last() =~= pats0);
                    assert(codes@[codes0.len() as int] == code);
                    assert forall|d: u8| #[trigger] t.contains_key(d) && d < c + 1 implies exists|
                        k: int,
                    |
                        0 <= k < codes@.len() && #[trigger] codes@[k] == d by {
                        if d < c {
                            let k = choose|k: int| 0 <= k < codes0.len() && #[trigger] codes0[k]
                                == d;
                            assert(codes@[k] == d);
                        }
                    }
                }
            },
            None => {
                assert(!t.contains_key(code));
            },
        }
        c += 1;
    }
    proof {
        let pats = strings(patterns@);
        if distinct_strings(t) {
            assert forall|a: int, b: int| 0 <= a < pats.len() && 0 <= b < pats.len() && a
                != b implies pats[a] != pats[b] by {
                assert(t.contains_key(codes@[a]) && t.contains_key(codes@[b]));
                assert(codes@[a] != codes@[b]);
            }
        }
    }
    (patterns, codes)
}

/// Codes `source_data` with a dictionary: the longest string at each position becomes the escape
/// byte and its code.
pub fn encode_with_map(
    source_data: &[u8],
    escape_byte: u8,
    code_map: &HashMap<u8, Vec<u8>>,
) -> (out: Vec<u8>)
    requires
        table_fits(table(code_map@)),
    ensures
        codes_text(out@, source_data@, escape_byte, table(code_map@)),
        proper_table(table(code_map@)) ==> out@ == stage_code(
            table(code_map@),
            source_data@,
            escape_byte,
        ),
{
    let (patterns, codes) = list_table(code_map);
    let ghost t = table(code_map@);
    let size = source_data.len();
    if size <= ENCODE_SINGLE_LIMIT {
        return encode_chunk_ac(source_data, escape_byte, &patterns, &codes, Ghost(t));
    }
    let mut out: Vec<u8> = Vec::new();
    let mut start: usize = 0;
    proof {
        let none = Seq::<Piece>::empty();
        assert(source_data@.take(0) =~= seq![]);
        assert(pieces_bytes(none, escape_byte) =~= out@);
        assert(pieces_text(none, t) =~= source_data@.take(0));
        assert(known_codes(none, t));
        assert(out@ + chunked_code(t, source_data@, escape_byte, 0) =~= chunked_code(
            t,
            source_data@,
            escape_byte,
            0,
        ));
    }
    while start < size
        invariant
            start <= size,
            size == source_data@.len(),
            t == table(code_map@),
            patterns@.len() <= 256,
            patterns_fit(strings(patterns@)),
            lists_table(t, strings(patterns@), codes@),
            codes_text(out@, source_data@.take(start as int), escape_byte, t),
            proper_table(t) ==> out@ + chunked_code(t, source_data@, escape_byte, start as nat)
                == chunked_code(t, source_data@, escape_byte, 0),
        decreases size - start,
    {
        let len = if size - start <= ENCODE_CHUNK_SIZE {
            size - start
        } else {
            ENCODE_CHUNK_SIZE
        };
        let chunk = &source_data[start..start + len];
        let coded = encode_chunk_ac(chunk, escape_byte, &patterns, &codes, Ghost(t));
        let ghost before = out@;
        out.extend_from_slice(&coded);
        proof {
            lemma_codes_text_concat(
                before,
                source_data@.take(start as int),
                coded@,
                chunk@,
                escape_byte,
                t,
            );
            assert(source_data@.take(start as int) + chunk@ =~= source_data@.take(start + len));
            assert(out@ =~= before + coded@);
            assert(source_data@.skip(start as int) =~= source_data@.subrange(
                start as int,
                size as int,
            ));
            let rest = chunked_code(t, source_data@, escape_byte, (start + len) as nat);
            assert(before + (coded@ + rest) =~= out@ + rest);
            if start + len == size {
                assert(rest =~= seq![]);
                assert(coded@ + rest =~= coded@);
            }
        }
        start = start + len;
    }
    proof {
        assert(source_data@.take(start as int) =~= source_data@);
        assert(out@ + seq![] =~= out@);
    }
    out
}

/// Undoes a stage.
pub fn decode_dict_stage(data: &[u8], escape_byte: u8, code_map: &HashMap<u8, Vec<u8>>) -> (r: Result<
    Vec<u8>,
    DictError,
>)
    ensures
        match r {
            Ok(out) => dict_decode(data@, escape_byte, table(code_map@)) == Ok::<
                Seq<u8>,
                DictError,
            >(out@),
            Err(e) => dict_decode(data@, escape_byte, table(code_map@)) == Err::<
                Seq<u8>,
                DictError,
            >(e),
        },
{
    let ghost t = table(code_map@);
    let mut out: Vec<u8> = Vec::with_capacity(data.len());
    let mut i: usize = 0;
    proof {
        assert(data@.skip(0) =~= data@);
        match dict_decode(data@, escape_byte, t) {
            Ok(rest) => {
                assert(out@ + rest =~= rest);
            },
            Err(e) => {},
        }
    }
    while i < data.len()
        invariant
            i <= data@.len(),
            t == table(code_map@),
            dict_decode(data@, escape_byte, t) == match dict_decode(
                data@.skip(i as int),
                escape_byte,
                t,
            ) {
                Ok(rest) => Ok(out@ + rest),
                Err(e) => Err::<Seq<u8>, DictError>(e),
            },
        decreases data@.len() - i,
    {
        let b = data[i];
        let ghost here = data@.skip(i as int);
        let ghost before = out@;
        if b == escape_byte {
            if data.len() - i < 2 {
                return Err(DictError::EndsAfterEscape);
            }
            let code = data[i + 1];
            if code == 0 {
                out.push(escape_byte);
            } else {
                match code_map.get(&code) {
                    Some(chunk) => {
                        assert(t.contains_key(code) && t[code] == chunk@);
                        out.extend_from_slice(chunk);
                    },
                    None => {
                        assert(!t.contains_key(code));
                        return Err(DictError::UnknownCode(code));
                    },
                }
            }
            proof {
                assert(here.skip(2) =~= data@.skip(i + 2));
                let part = if code == 0 {
                    seq![escape_byte]
                } else {
                    t[code]
                };
                assert(out@ =~= before + part);
                match dict_decode(data@.skip(i + 2), escape_byte, t) {
                    Ok(rest) => {
                        assert(before + (part + rest) =~= out@ + rest);
                    },
                    Err(e) => {},
                }
            }
            i = i + 2;
        } else {
            out.push(b);
            proof {
                assert(here.skip(1) =~= data@.skip(i + 1));
                match dict_decode(data@.skip(i + 1), escape_byte, t) {
                    Ok(rest) => {
                        assert(before + (seq![b] + rest) =~= out@ + rest);
                    },
                    Err(e) => {},
                }
            }
            i = i + 1;
        }
    }
    proof {
        assert(data@.skip(i as int) =~= seq![]);
        assert(out@ + seq![] =~= out@);
    }
    Ok(out)
}

proof fn lemma_greedy_text(t: Map<u8, Seq<u8>>, data: Seq<u8>, pos: nat)
    requires
        proper_table(t),
        pos <= data.len(),
    ensures
        pieces_text(greedy_pieces(t, data, pos), t) == data.skip(pos as int),
        known_codes(greedy_pieces(t, data, pos), t),
    decreases data.len() - pos,
{
    let all = greedy_pieces(t, data, pos);
    if pos == data.len() {
        assert(all.len() == 0);
        assert(data.skip(pos as int) =~= seq![]);
    } else {
        let (first, len) = match longest_code(t, data, pos as int) {
            Some(c) => (Piece::Code(c), t[c].len()),
            None => (Piece::Byte(data[pos as int]), 1nat),
        };
        if let Some(c) = longest_code(t, data, pos as int) {
            assert(is_longest_code(t, data, pos as int, c));
            assert(t.contains_key(c));
        }
        let rest = greedy_pieces(t, data, pos + len);
        lemma_greedy_text(t, data, pos + len);
        assert(all =~= seq![first] + rest);
        lemma_pieces_text_concat(seq![first], rest, t);
        let none = Seq::<Piece>::empty();
        assert(seq![first].drop_last() =~= none);
        assert(pieces_text(none, t) =~= seq![]);
        assert(pieces_text(seq![first], t) =~= piece_text(first, t));
        assert(data.subrange(pos as int, (pos + len) as int) =~= piece_text(first, t));
        assert(pieces_text(all, t) =~= data.skip(pos as int));
        assert forall|j: int| 0 <= j < all.len() implies (#[trigger] all[j] matches Piece::Code(c)
            ==> t.contains_key(c)) by {
            if j > 0 {
                assert(all[j] == rest[j - 1]);
            }
        }
    }
}

proof fn lemma_chunked_text(t: Map<u8, Seq<u8>>, data: Seq<u8>, escape: u8, start: nat)
    requires
        proper_table(t),
        start <= data.len(),
    ensures
        codes_text(chunked_code(t, data, escape, start), data.skip(start as int), escape, t),
    decreases data.len() - start,
{
    if start == data.len() {
        let none = Seq::<Piece>::empty();
        assert(data.skip(start as int) =~= seq![]);
        assert(pieces_bytes(none, escape) =~= seq![]);
        assert(pieces_text(none, t) =~= seq![]);
        assert(known_codes(none, t));
    } else if data.len() - start <= ENCODE_CHUNK_SIZE {
        lemma_greedy_code_text(t, data.skip(start as int), escape);
    } else {
        let here = data.subrange(start as int, start + ENCODE_CHUNK_SIZE);
        let next = start + ENCODE_CHUNK_SIZE as nat;
        lemma_greedy_code_text(t, here, escape);
        lemma_chunked_text(t, data, escape, next);
        lemma_codes_text_concat(
            greedy_code(t, here, escape),
            here,
            chunked_code(t, data, escape, next),
            data.skip(next as int),
            escape,
            t,
        );
        assert(here + data.skip(next as int) =~= data.skip(start as int));
    }
}

proof fn lemma_greedy_code_text(t: Map<u8, Seq<u8>>, data: Seq<u8>, escape: u8)
    requires
        proper_table(t),
    ensures
        codes_text(greedy_code(t, data, escape), data, escape, t),
{
    lemma_greedy_text(t, data, 0);
    assert(data.skip(0) =~= data);
    assert(pieces_bytes(greedy_pieces(t, data, 0), escape) == greedy_code(t, data, escape));
}

/// What a stage makes of any data, its inverse turns back, for every escape byte and every proper
/// dictionary without a code zero.
pub proof fn lemma_stage_roundtrip(t: Map<u8, Seq<u8>>, data: Seq<u8>, escape: u8)
    requires
        proper_table(t),
        !t.contains_key(0),
    ensures
        dict_decode(stage_code(t, data, escape), escape, t) == Ok::<Seq<u8>, DictError>(data),
{
    if data.len() <= ENCODE_SINGLE_LIMIT {
        lemma_greedy_code_text(t, data, escape);
    } else {
        lemma_chunked_text(t, data, escape, 0);
        assert(data.skip(0) =~= data);
    }
    lemma_decode_coding(stage_code(t, data, escape), data, escape, t);
}

/// Chunks that were coded one by one with the same dictionary decode together: their codings, one
/// behind the other, stand for the chunks one behind the other.
pub proof fn lemma_joined_coding(
    outs: Seq<Seq<u8>>,
    parts: Seq<Seq<u8>>,
    escape: u8,
    t: Map<u8, Seq<u8>>,
)
    requires
        outs.len() == parts.len(),
        forall|i: int|
            0 <= i < outs.len() ==> codes_text(#[trigger] outs[i], parts[i], escape, t),
    ensures
        codes_text(joined(outs), joined(parts), escape, t),
    decreases outs.len(),
{
    if outs.len() == 0 {
        let none = Seq::<Piece>::empty();
        assert(pieces_bytes(none, escape) =~= joined(outs));
        assert(pieces_text(none, t) =~= joined(parts));
        assert(known_codes(none, t));
    } else {
        lemma_joined_coding(outs.drop_last(), parts.drop_last(), escape, t);
        assert(codes_text(outs[outs.len() - 1], parts[parts.len() - 1], escape, t));
        lemma_codes_text_concat(
            joined(outs.drop_last()),
            joined(parts.drop_last()),
            outs.last(),
            parts.last(),
            escape,
            t,
        );
    }
}

/// At each place the coding takes the longest string of the dictionary that stands there, and goes on
/// behind it; it takes the byte only where no string does.
pub proof fn lemma_greedy_takes_longest(t: Map<u8, Seq<u8>>, data: Seq<u8>, pos: nat)
    requires
        pos < data.len(),
        forall|c: u8| #[trigger] t.contains_key(c) ==> t[c].len() > 0,
    ensures
        ({
            let all = greedy_pieces(t, data, pos);
            &&& all.len() > 0
            &&& match all[0] {
                Piece::Code(c) => {
                    &&& t.contains_key(c)
                    &&& pos + t[c].len() <= data.len()
                    &&& data.subrange(pos as int, (pos + t[c].len()) as int) == t[c]
                    &&& forall|d: u8| #[trigger]
                        t.contains_key(d) && t[d].len() > t[c].len() && pos + t[d].len()
                            <= data.len() ==> data.subrange(pos as int, (pos + t[d].len()) as int)
                            != t[d]
                    &&& all.skip(1) == greedy_pieces(t, data, pos + t[c].len())
                },
                Piece::Byte(b) => {
                    &&& b == data[pos as int]
                    &&& forall|d: u8| #[trigger]
                        t.contains_key(d) && pos + t[d].len() <= data.len() ==> data.subrange(
                            pos as int,
                            (pos + t[d].len()) as int,
                        ) != t[d]
                    &&& all.skip(1) == greedy_pieces(t, data, pos + 1)
                },
            }
        }),
{
    let all = greedy_pieces(t, data, pos);
    let p = pos as int;
    match longest_code(t, data, p) {
        Some(c) => {
            assert(is_longest_code(t, data, p, c));
            assert(all.skip(1) =~= greedy_pieces(t, data, pos + t[c].len()));
            assert forall|d: u8| #[trigger]
                t.contains_key(d) && t[d].len() > t[c].len() && pos + t[d].len()
                    <= data.len() implies data.subrange(p, p + t[d].len()) != t[d] by {
                if data.subrange(p, p + t[d].len()) == t[d] {
                    assert(occurs_at(t[d], data, p));
                }
            }
        },
        None => {
            assert(all.skip(1) =~= greedy_pieces(t, data, pos + 1));
            assert forall|d: u8| #[trigger]
                t.contains_key(d) && pos + t[d].len() <= data.len() implies data.subrange(
                p,
                p + t[d].len(),
            ) != t[d] by {
                if data.subrange(p, p + t[d].len()) == t[d] {
                    assert(occurs_at(t[d], data, p));
                    let c = lemma_longest_of(t, data, p, 256, d);
                    assert(is_longest_code(t, data, p, c));
                }
            }
        },
    }
}

proof fn lemma_longest_of(t: Map<u8, Seq<u8>>, data: Seq<u8>, pos: int, n: nat, d: u8) -> (c: u8)
    requires
        n <= 256,
        t.contains_key(d),
        occurs_at(t[d], data, pos),
    ensures
        t.contains_key(c),
        occurs_at(t[c], data, pos),
        t[d].len() <= t[c].len(),
        forall|e: u8| #[trigger]
            t.contains_key(e) && e < n && occurs_at(t[e], data, pos) ==> t[e].len() <= t[c].len(),
    decreases n,
{
    if n == 0 {
        d
    } else {
        let c = lemma_longest_of(t, data, pos, (n - 1) as nat, d);
        let e = (n - 1) as u8;
        if t.contains_key(e) && occurs_at(t[e], data, pos) && t[e].len() > t[c].len() {
            e
        } else {
            c
        }
    }
}

proof fn lemma_decode_behind(pieces: Seq<Piece>, tail: Seq<u8>, escape: u8, t: Map<u8, Seq<u8>>)
    requires
        known_codes(pieces, t),
        !t.contains_key(0),
    ensures
        dict_decode(tail, escape, t) matches Err(e) ==> dict_decode(
            pieces_bytes(pieces, escape) + tail,
            escape,
            t,
        ) == Err::<Seq<u8>, DictError>(e),
        dict_decode(tail, escape, t) matches Ok(x) ==> dict_decode(
            pieces_bytes(pieces, escape) + tail,
            escape,
            t,
        ) == Ok::<Seq<u8>, DictError>(pieces_text(pieces, t) + x),
    decreases pieces.len(),
{
    if pieces.len() == 0 {
        assert(pieces_bytes(pieces, escape) + tail =~= tail);
        if let Ok(x) = dict_decode(tail, escape, t) {
            assert(pieces_text(pieces, t) + x =~= x);
        }
    } else {
        let front = pieces.drop_last();
        let last = pieces.last();
        assert forall|i: int| 0 <= i < front.len() implies (#[trigger] front[i] matches Piece::Code(
            c,
        ) ==> t.contains_key(c)) by {
            assert(front[i] == pieces[i]);
        }
        assert(pieces[pieces.len() - 1] matches Piece::Code(c) ==> t.contains_key(c));
        let more = piece_bytes(last, escape) + tail;
        assert(pieces_bytes(pieces, escape) + tail =~= pieces_bytes(front, escape) + more);
        match last {
            Piece::Byte(b) => {
                if b == escape {
                    assert(more.skip(2) =~= tail);
                } else {
                    assert(more.skip(1) =~= tail);
                }
            },
            Piece::Code(c) => {
                assert(more.skip(2) =~= tail);
            },
        }
        lemma_decode_behind(front, more, escape, t);
        if let Ok(x) = dict_decode(tail, escape, t) {
            assert(pieces_text(front, t) + (piece_text(last, t) + x) =~= pieces_text(pieces, t) + x);
        }
    }
}

/// A coding that ends with the escape byte is refused, and so is one with a code that the dictionary
/// does not have, whatever stands in front and behind.
pub proof fn lemma_decode_refuses(
    pieces: Seq<Piece>,
    c: u8,
    rest: Seq<u8>,
    escape: u8,
    t: Map<u8, Seq<u8>>,
)
    requires
        known_codes(pieces, t),
        !t.contains_key(0),
    ensures
        dict_decode(pieces_bytes(pieces, escape) + seq![escape], escape, t) == Err::<
            Seq<u8>,
            DictError,
        >(DictError::EndsAfterEscape),
        c != 0 && !t.contains_key(c) ==> dict_decode(
            pieces_bytes(pieces, escape) + (seq![escape, c] + rest),
            escape,
            t,
        ) == Err::<Seq<u8>, DictError>(DictError::UnknownCode(c)),
{
    lemma_decode_behind(pieces, seq![escape], escape, t);
    lemma_decode_behind(pieces, seq![escape, c] + rest, escape, t);
}

/// What a byte and a code take: one byte, or two where it is the escape byte; two for a code.
pub proof fn lemma_piece_bytes(b: u8, escape: u8)
    ensures
        b != escape ==> piece_bytes(Piece::Byte(b), escape) == seq![b],
        piece_bytes(Piece::Byte(escape), escape) == seq![escape, 0u8],
        piece_bytes(Piece::Code(b), escape) == seq![escape, b],
{
}

} // verus!
