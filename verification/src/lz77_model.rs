//! What the LZ77 format says: tokens, their bits, the match finder's choices and the decoder.

use vstd::arithmetic::power::pow;
use vstd::arithmetic::power2::lemma2_to64;
use vstd::prelude::*;

use crate::bits::{
    bits_value, bytes_bits, lemma_bits_value_of_nat_bits, lemma_bytes_bits_concat,
    lemma_bytes_bits_len, lemma_bytes_bits_of_pack, lemma_nat_bits_len, nat_bits, pack_bits,
    pad_len,
};
use crate::bytes::{
    le_bytes, le_value, lemma_le_bytes_len, lemma_le_digits, lemma_le_roundtrip,
    lemma_pow256_values,
};

verus! {

/// One step of a compressed stream.
pub enum Token {
    Literal { byte: u8 },
    Match { dist: nat, len: nat },
}

/// The hash chains: the last position for each hash, and for each position of the window the
/// position before it with the same hash. `u32::MAX` stands for none.
pub struct Chains {
    pub head: Seq<u32>,
    pub prev: Seq<u32>,
}

impl Chains {
    pub open spec fn wf(self) -> bool {
        self.head.len() == 65536 && self.prev.len() == 65536
    }

    pub open spec fn empty() -> Chains {
        Chains {
            head: Seq::new(65536, |i: int| u32::MAX),
            prev: Seq::new(65536, |i: int| u32::MAX),
        }
    }
}

/// The hash of three bytes.
pub open spec fn hash3(a: u8, b: u8, c: u8) -> u32 {
    (((a as u32) << 10) ^ ((b as u32) << 5) ^ (c as u32)) & 0xffff
}

/// The hash of the three bytes at `p`.
pub open spec fn hash_at(data: Seq<u8>, p: int) -> int {
    hash3(data[p], data[p + 1], data[p + 2]) as int
}

/// Enters position `p` into the chains, where three bytes are left.
pub open spec fn insert(data: Seq<u8>, t: Chains, p: nat) -> Chains {
    if p + 2 < data.len() {
        let h = hash_at(data, p as int);
        Chains {
            head: t.head.update(h, (p % 0x1_0000_0000) as u32),
            prev: t.prev.update(p as int % 65536, t.head[h]),
        }
    } else {
        t
    }
}

/// Enters the `n` positions from `p` on.
pub open spec fn insert_run(data: Seq<u8>, t: Chains, p: nat, n: nat) -> Chains
    decreases n,
{
    if n == 0 {
        t
    } else {
        insert(data, insert_run(data, t, p, (n - 1) as nat), (p + n - 1) as nat)
    }
}

/// How many bytes from `a` and from `b` on agree, `n` at least and `max` at most.
pub open spec fn agreement(data: Seq<u8>, a: int, b: int, n: nat, max: nat) -> nat
    decreases max - n,
{
    if n < max && data[a + n] == data[b + n] {
        agreement(data, a, b, n + 1, max)
    } else {
        n
    }
}

/// The length of the match of `pos` with the earlier position `cp`.
pub open spec fn match_len(data: Seq<u8>, cp: int, pos: int) -> nat {
    let left = (data.len() - pos) as nat;
    agreement(
        data,
        cp,
        pos,
        0,
        if left < 258 {
            left
        } else {
            258
        },
    )
}

/// The earlier positions that the chain from `cp` on offers to `pos`, at most `left` of them.
pub open spec fn chain(t: Chains, pos: nat, cp: u32, left: nat) -> Seq<nat>
    decreases left,
{
    if cp == u32::MAX || left == 0 || cp >= pos || pos - cp > 65535 {
        seq![]
    } else {
        let next = t.prev[cp as int % 65536];
        seq![cp as nat] + if next != u32::MAX && next >= cp {
            seq![]
        } else {
            chain(t, pos, next, (left - 1) as nat)
        }
    }
}

/// Length and distance of the longest match of `pos` with one of `candidates`, the first of them
/// where several are as long; zeros where none has three bytes.
pub open spec fn longest(data: Seq<u8>, pos: nat, candidates: Seq<nat>) -> (nat, nat)
    decreases candidates.len(),
{
    if candidates.len() == 0 {
        (0, 0)
    } else {
        let best = longest(data, pos, candidates.drop_last());
        let len = match_len(data, candidates.last() as int, pos as int);
        if len >= 3 && len > best.0 {
            (len, (pos - candidates.last()) as nat)
        } else {
            best
        }
    }
}

/// Length and distance of the match that is found at `pos`; zeros if none is.
#[verifier::opaque]
pub open spec fn find_match(data: Seq<u8>, t: Chains, pos: nat) -> (nat, nat) {
    if pos + 2 >= data.len() {
        (0, 0)
    } else {
        longest(data, pos, chain(t, pos, t.head[hash_at(data, pos as int)], 128))
    }
}

/// How many bytes are left from `pos` on.
pub open spec fn remaining(data: Seq<u8>, pos: nat) -> nat {
    if pos < data.len() {
        (data.len() - pos) as nat
    } else {
        0
    }
}

/// The tokens for `data` from `pos` on: at each position the longest match, unless the next
/// position has one that is longer by more than one, and a literal where there is none.
pub open spec fn tokens_from(data: Seq<u8>, t: Chains, pos: nat) -> Seq<Token>
    decreases remaining(data, pos),
{
    if pos >= data.len() {
        seq![]
    } else {
        let (len, dist) = find_match(data, t, pos);
        let (lazy_len, lazy_dist) = find_match(data, t, pos + 1);
        if len < 3 {
            seq![Token::Literal { byte: data[pos as int] }] + tokens_from(
                data,
                insert(data, t, pos),
                pos + 1,
            )
        } else if len < 258 && lazy_len > len + 1 {
            seq![
                Token::Literal { byte: data[pos as int] },
                Token::Match { dist: lazy_dist, len: lazy_len },
            ] + tokens_from(data, insert_run(data, t, pos, 1 + lazy_len), pos + 1 + lazy_len)
        } else {
            seq![Token::Match { dist, len }] + tokens_from(
                data,
                insert_run(data, t, pos, len),
                pos + len,
            )
        }
    }
}

/// A literal: a zero bit and the byte. A match: a one bit; the distance less one, in eight bits
/// behind a zero bit or in sixteen behind a one bit; a zero bit for the length three, else a one
/// bit and the length less four in eight bits.
pub open spec fn token_bits(token: Token) -> Seq<bool> {
    match token {
        Token::Literal { byte } => seq![false] + nat_bits(byte as nat, 8),
        Token::Match { dist, len } => seq![true] + (if dist <= 256 {
            seq![false] + nat_bits((dist - 1) as nat, 8)
        } else {
            seq![true] + nat_bits((dist - 1) as nat, 16)
        }) + (if len == 3 {
            seq![false]
        } else {
            seq![true] + nat_bits((len - 4) as nat, 8)
        }),
    }
}

pub open spec fn tokens_bits(tokens: Seq<Token>) -> Seq<bool>
    decreases tokens.len(),
{
    if tokens.len() == 0 {
        seq![]
    } else {
        token_bits(tokens[0]) + tokens_bits(tokens.skip(1))
    }
}

/// The four bytes that every block begins with.
pub open spec fn magic() -> Seq<u8> {
    seq![0x4cu8, 0x5au8, 0x37u8, 0x37u8]
}

/// The bits of a compressed block.
pub open spec fn payload_bits(data: Seq<u8>) -> Seq<bool> {
    tokens_bits(tokens_from(data, Chains::empty(), 0))
}

/// A compressed block: magic, length in four bytes, format byte, number of filling bits, bits.
pub open spec fn compressed_block(data: Seq<u8>) -> Seq<u8> {
    magic() + le_bytes(data.len(), 4) + seq![
        0x90u8,
        pad_len(payload_bits(data).len()) as u8,
    ] + pack_bits(payload_bits(data))
}

/// A block that holds its bytes as they are.
pub open spec fn raw_block(data: Seq<u8>) -> Seq<u8> {
    magic() + le_bytes(data.len(), 4) + seq![0u8, 0u8] + data
}

/// Why a block cannot be read.
#[derive(Clone, Copy, Debug, PartialEq, Eq, Structural)]
pub enum LzError {
    TooShort,
    BadMagic,
    RawTruncated,
    Truncated,
    BadReference { distance: usize, position: usize },
    SizeMismatch { found: usize, expected: usize },
    TrailingData,
}

/// The number in the `n` bits from `at` on.
pub open spec fn field(bits: Seq<bool>, at: nat, n: nat) -> nat {
    bits_value(bits.subrange(at as int, (at + n) as int))
}

/// Where a distance field ends: behind a flag bit come eight or sixteen bits.
pub open spec fn dist_end(bits: Seq<bool>, at: nat) -> nat {
    at + 1 + if bits[at as int] {
        16nat
    } else {
        8
    }
}

/// Where a length field ends: behind a flag bit come eight bits or none.
pub open spec fn len_end(bits: Seq<bool>, at: nat) -> nat {
    at + 1 + if bits[at as int] {
        8nat
    } else {
        0
    }
}

/// The token at bit `at` and the position behind it; nothing if the bits end before. `format` is
/// the block's format byte: with its high bit set, distance and length come as `token_bits` says;
/// without, the distance has `format` bits and the length eight.
pub open spec fn read_token(bits: Seq<bool>, at: nat, format: u8) -> Option<(Token, nat)> {
    if at >= bits.len() {
        None
    } else if !bits[at as int] {
        if at + 9 > bits.len() {
            None
        } else {
            Some((Token::Literal { byte: field(bits, at + 1, 8) as u8 }, at + 9))
        }
    } else if format >= 128 {
        if at + 1 >= bits.len() || dist_end(bits, at + 1) >= bits.len() {
            None
        } else {
            let mid = dist_end(bits, at + 1);
            let end = len_end(bits, mid);
            if end > bits.len() {
                None
            } else {
                Some(
                    (
                        Token::Match {
                            dist: field(bits, at + 2, (mid - (at + 2)) as nat) + 1,
                            len: if bits[mid as int] {
                                field(bits, mid + 1, 8) + 4
                            } else {
                                3
                            },
                        },
                        end,
                    ),
                )
            }
        }
    } else if at + 1 + format + 8 > bits.len() {
        None
    } else {
        Some(
            (
                Token::Match {
                    dist: field(bits, at + 1, format as nat) % 0x1_0000_0000,
                    len: field(bits, at + 1 + format as nat, 8) + 3,
                },
                at + 1 + format as nat + 8,
            ),
        )
    }
}

/// `out` and `len` more bytes, each a copy of the byte `dist` places before it.
pub open spec fn copy_match(out: Seq<u8>, dist: nat, len: nat) -> Seq<u8>
    decreases len,
{
    if len == 0 {
        out
    } else {
        let shorter = copy_match(out, dist, (len - 1) as nat);
        shorter.push(shorter[shorter.len() - dist])
    }
}

/// What the tokens from bit `at` on make of `out`, until it has `size` bytes: the bytes, and
/// where the last token ends.
pub open spec fn decode_tokens(
    bits: Seq<bool>,
    at: nat,
    format: u8,
    out: Seq<u8>,
    size: nat,
) -> Result<(Seq<u8>, nat), LzError>
    decreases bits.len() - at,
{
    if out.len() == size {
        Ok((out, at))
    } else if out.len() > size {
        Err(LzError::SizeMismatch { found: out.len() as usize, expected: size as usize })
    } else {
        match read_token(bits, at, format) {
            None => Err(LzError::Truncated),
            Some((Token::Literal { byte }, next)) => decode_tokens(
                bits,
                next,
                format,
                out.push(byte),
                size,
            ),
            Some((Token::Match { dist, len }, next)) => if dist == 0 || dist > out.len() {
                Err(
                    LzError::BadReference {
                        distance: dist as usize,
                        position: out.len() as usize,
                    },
                )
            } else {
                decode_tokens(bits, next, format, copy_match(out, dist, len), size)
            },
        }
    }
}

/// What the block at the start of `data` holds, and how many bytes it takes.
pub open spec fn decode_block(data: Seq<u8>) -> Result<(Seq<u8>, nat), LzError> {
    if data.len() < 10 {
        Err(LzError::TooShort)
    } else if data.take(4) != magic() {
        Err(LzError::BadMagic)
    } else {
        let size = le_value(data.subrange(4, 8));
        if size == 0 {
            Ok((seq![], 10))
        } else if data[8] == 0 {
            if data.len() - 10 < size {
                Err(LzError::RawTruncated)
            } else {
                Ok((data.subrange(10, (10 + size) as int), 10 + size))
            }
        } else {
            match decode_tokens(bytes_bits(data.skip(10)), 0, data[8], seq![], size) {
                Ok((out, at)) => Ok((out, 10 + (at + 7) / 8)),
                Err(e) => Err(e),
            }
        }
    }
}

/// What all of `data` holds, if it is one block.
pub open spec fn decode_single(data: Seq<u8>) -> Result<Seq<u8>, LzError> {
    match decode_block(data) {
        Ok((out, n)) => if n == data.len() {
            Ok(out)
        } else {
            Err(LzError::TrailingData)
        },
        Err(e) => Err(e),
    }
}

/// What the blocks of `data` hold, one behind the other.
pub open spec fn decode_stream(data: Seq<u8>) -> Result<Seq<u8>, LzError>
    decreases data.len(),
{
    if data.len() == 0 {
        Ok(seq![])
    } else {
        match decode_block(data) {
            Ok((out, n)) => if 0 < n <= data.len() {
                match decode_stream(data.skip(n as int)) {
                    Ok(rest) => Ok(out + rest),
                    Err(e) => Err(e),
                }
            } else {
                Ok(out)
            },
            Err(e) => Err(e),
        }
    }
}

pub proof fn lemma_hash3_bound(a: u8, b: u8, c: u8)
    ensures
        hash3(a, b, c) < 65536,
{
    let x = ((a as u32) << 10) ^ ((b as u32) << 5) ^ (c as u32);
    assert(x & 0xffff < 65536) by (bit_vector);
}

pub proof fn lemma_insert_run_wf(data: Seq<u8>, t: Chains, p: nat, n: nat)
    requires
        t.wf(),
    ensures
        insert_run(data, t, p, n).wf(),
    decreases n,
{
    if n > 0 {
        lemma_insert_run_wf(data, t, p, (n - 1) as nat);
        let q = p + n - 1;
        lemma_hash3_bound(data[q], data[q + 1], data[q + 2]);
    }
}

pub proof fn lemma_agreement(data: Seq<u8>, a: int, b: int, n: nat, max: nat)
    requires
        n <= max,
    ensures
        n <= agreement(data, a, b, n, max) <= max,
        forall|i: int| n <= i < agreement(data, a, b, n, max) ==> data[a + i] == #[trigger] data[b + i],
    decreases max - n,
{
    if n < max && data[a + n] == data[b + n] {
        lemma_agreement(data, a, b, n + 1, max);
    }
}

/// A match that is found repeats earlier bytes, as far as its length says.
pub open spec fn match_ok(data: Seq<u8>, pos: nat, found: (nat, nat)) -> bool {
    found.0 > 0 ==> {
        &&& 3 <= found.0 <= 258
        &&& pos + found.0 <= data.len()
        &&& 1 <= found.1 <= 65535
        &&& found.1 <= pos
        &&& forall|i: int|
            0 <= i < found.0 ==> data[pos - found.1 + i] == #[trigger] data[pos + i]
    }
}

pub proof fn lemma_chain_bounds(t: Chains, pos: nat, cp: u32, left: nat)
    ensures
        forall|i: int|
            0 <= i < chain(t, pos, cp, left).len() ==> (#[trigger] chain(t, pos, cp, left)[i])
                < pos && pos - chain(t, pos, cp, left)[i] <= 65535,
    decreases left,
{
    if cp == u32::MAX || left == 0 || cp >= pos || pos - cp > 65535 {
    } else {
        let next = t.prev[cp as int % 65536];
        lemma_chain_bounds(t, pos, next, (left - 1) as nat);
        let c = chain(t, pos, cp, left);
        let rest = chain(t, pos, next, (left - 1) as nat);
        assert forall|i: int| 0 <= i < c.len() implies (#[trigger] c[i]) < pos && pos - c[i]
            <= 65535 by {
            if i > 0 {
                assert(c[i] == rest[i - 1]);
            }
        }
    }
}

pub proof fn lemma_longest_ok(data: Seq<u8>, pos: nat, candidates: Seq<nat>)
    requires
        pos < data.len(),
        forall|i: int|
            0 <= i < candidates.len() ==> (#[trigger] candidates[i]) < pos && pos - candidates[i]
                <= 65535,
    ensures
        match_ok(data, pos, longest(data, pos, candidates)),
    decreases candidates.len(),
{
    if candidates.len() > 0 {
        lemma_longest_ok(data, pos, candidates.drop_last());
        let left = (data.len() - pos) as nat;
        let max: nat = if left < 258 {
            left
        } else {
            258
        };
        let cp = candidates.last() as int;
        lemma_agreement(data, cp, pos as int, 0, max);
        let found = longest(data, pos, candidates);
        assert forall|i: int| 0 <= i < found.0 implies data[pos - found.1 + i]
            == #[trigger] data[pos + i] by {
            if found == (match_len(data, cp, pos as int), (pos - cp) as nat) {
                assert(data[cp + i] == data[pos as int + i]);
            }
        }
    }
}

pub proof fn lemma_find_match_ok(data: Seq<u8>, t: Chains, pos: nat)
    ensures
        match_ok(data, pos, find_match(data, t, pos)),
{
    reveal(find_match);
    if pos + 2 < data.len() {
        let cp = t.head[hash_at(data, pos as int)];
        lemma_chain_bounds(t, pos, cp, 128);
        lemma_longest_ok(data, pos, chain(t, pos, cp, 128));
    }
}

/// Copying back `len` bytes that repeat continues a prefix of `data`.
pub proof fn lemma_copy_match(data: Seq<u8>, pos: nat, dist: nat, len: nat)
    requires
        1 <= dist <= pos,
        pos + len <= data.len(),
        forall|i: int| 0 <= i < len ==> data[pos - dist + i] == #[trigger] data[pos + i],
    ensures
        copy_match(data.take(pos as int), dist, len) == data.take((pos + len) as int),
    decreases len,
{
    if len > 0 {
        lemma_copy_match(data, pos, dist, (len - 1) as nat);
        assert(data[pos - dist + (len - 1)] == data[pos + (len - 1)]);
        assert(copy_match(data.take(pos as int), dist, len) =~= data.take((pos + len) as int));
    } else {
        assert(copy_match(data.take(pos as int), dist, len) =~= data.take((pos + len) as int));
    }
}

/// A token is what is read where its bits stand.
pub proof fn lemma_read_token(before: Seq<bool>, token: Token, after: Seq<bool>)
    requires
        token matches Token::Match { dist, len } ==> 1 <= dist <= 65536 && 3 <= len <= 259,
    ensures
        read_token(before + token_bits(token) + after, before.len(), 0x90) == Some(
            (token, before.len() + token_bits(token).len()),
        ),
{
    lemma2_to64();
    let bits = before + token_bits(token) + after;
    let at = before.len();
    match token {
        Token::Literal { byte } => {
            lemma_nat_bits_len(byte as nat, 8);
            lemma_bits_value_of_nat_bits(byte as nat, 8);
            assert(bits.subrange((at + 1) as int, (at + 9) as int) =~= nat_bits(byte as nat, 8));
            assert(bits[at as int] == token_bits(token)[0]);
        },
        Token::Match { dist, len } => {
            let w: nat = if dist <= 256 {
                8
            } else {
                16
            };
            let d = (dist - 1) as nat;
            let l = (len - 4) as nat;
            lemma_nat_bits_len(d, w);
            lemma_bits_value_of_nat_bits(d, w);
            let tb = token_bits(token);
            assert(bits[at as int] == tb[0]);
            assert(bits[(at + 1) as int] == tb[1]);
            assert(bits.subrange((at + 2) as int, (at + 2 + w) as int) =~= nat_bits(d, w));
            assert(bits[(at + 2 + w) as int] == tb[(2 + w) as int]);
            if len != 3 {
                lemma_nat_bits_len(l, 8);
                lemma_bits_value_of_nat_bits(l, 8);
                assert(bits.subrange((at + 3 + w) as int, (at + 3 + w + 8) as int) =~= nat_bits(
                    l,
                    8,
                ));
            }
        },
    }
}

/// One step of the decoder over a token's bits.
proof fn lemma_decode_step(
    before: Seq<bool>,
    token: Token,
    after: Seq<bool>,
    out: Seq<u8>,
    size: nat,
)
    requires
        out.len() < size,
        token matches Token::Match { dist, len } ==> 1 <= dist <= 65536 && 3 <= len <= 259 && dist
            <= out.len(),
    ensures
        decode_tokens(before + token_bits(token) + after, before.len(), 0x90, out, size)
            == decode_tokens(
            before + token_bits(token) + after,
            before.len() + token_bits(token).len(),
            0x90,
            match token {
                Token::Literal { byte } => out.push(byte),
                Token::Match { dist, len } => copy_match(out, dist, len),
            },
            size,
        ),
{
    lemma_read_token(before, token, after);
}

pub proof fn lemma_tokens_bits_cons(token: Token, rest: Seq<Token>)
    ensures
        tokens_bits(seq![token] + rest) == token_bits(token) + tokens_bits(rest),
{
    assert((seq![token] + rest).skip(1) =~= rest);
}

/// Decoding goes through the tokens that were made for `data` from `pos` on.
#[verifier::spinoff_prover]
#[verifier::rlimit(40)]
pub proof fn lemma_decode_tokens(
    data: Seq<u8>,
    t: Chains,
    pos: nat,
    before: Seq<bool>,
    after: Seq<bool>,
)
    requires
        pos <= data.len(),
    ensures
        decode_tokens(
            before + tokens_bits(tokens_from(data, t, pos)) + after,
            before.len(),
            0x90,
            data.take(pos as int),
            data.len(),
        ) == Ok::<(Seq<u8>, nat), LzError>(
            (data, before.len() + tokens_bits(tokens_from(data, t, pos)).len()),
        ),
    decreases data.len() - pos,
{
    let tokens = tokens_from(data, t, pos);
    let out = data.take(pos as int);
    if pos == data.len() {
        assert(out =~= data);
        assert(tokens_bits(tokens).len() == 0);
    } else {
        let (len, dist) = find_match(data, t, pos);
        let (lazy_len, lazy_dist) = find_match(data, t, pos + 1);
        lemma_find_match_ok(data, t, pos);
        lemma_find_match_ok(data, t, pos + 1);
        let literal = Token::Literal { byte: data[pos as int] };
        if len < 3 {
            let t2 = insert(data, t, pos);
            lemma_decode_literal_then(
                data,
                pos,
                before,
                tokens_from(data, t2, pos + 1),
                after,
            );
            lemma_decode_tokens(data, t2, pos + 1, before + token_bits(literal), after);
        } else if len < 258 && lazy_len > len + 1 {
            let t2 = insert_run(data, t, pos, 1 + lazy_len);
            let rest = tokens_from(data, t2, pos + 1 + lazy_len);
            let second = Token::Match { dist: lazy_dist, len: lazy_len };
            assert(tokens =~= seq![literal] + (seq![second] + rest));
            lemma_decode_literal_then(data, pos, before, seq![second] + rest, after);
            lemma_decode_match_then(
                data,
                pos + 1,
                lazy_dist,
                lazy_len,
                before + token_bits(literal),
                rest,
                after,
            );
            lemma_decode_tokens(
                data,
                t2,
                pos + 1 + lazy_len,
                before + token_bits(literal) + token_bits(second),
                after,
            );
        } else {
            let t2 = insert_run(data, t, pos, len);
            let first = Token::Match { dist, len };
            lemma_decode_match_then(
                data,
                pos,
                dist,
                len,
                before,
                tokens_from(data, t2, pos + len),
                after,
            );
            lemma_decode_tokens(data, t2, pos + len, before + token_bits(first), after);
        }
    }
}

proof fn lemma_decode_literal_then(
    data: Seq<u8>,
    pos: nat,
    before: Seq<bool>,
    rest: Seq<Token>,
    after: Seq<bool>,
)
    requires
        pos < data.len(),
    ensures
        ({
            let first = Token::Literal { byte: data[pos as int] };
            let next = before + token_bits(first);
            &&& tokens_bits(seq![first] + rest).len() == token_bits(first).len() + tokens_bits(
                rest,
            ).len()
            &&& decode_tokens(
                before + tokens_bits(seq![first] + rest) + after,
                before.len(),
                0x90,
                data.take(pos as int),
                data.len(),
            ) == decode_tokens(
                next + tokens_bits(rest) + after,
                next.len(),
                0x90,
                data.take((pos + 1) as int),
                data.len(),
            )
        }),
{
    let first = Token::Literal { byte: data[pos as int] };
    lemma_tokens_bits_cons(first, rest);
    lemma_decode_step(
        before,
        first,
        tokens_bits(rest) + after,
        data.take(pos as int),
        data.len(),
    );
    assert(before + tokens_bits(seq![first] + rest) + after =~= before + token_bits(first) + (
    tokens_bits(rest) + after));
    assert(before + token_bits(first) + tokens_bits(rest) + after =~= before + token_bits(first) + (
    tokens_bits(rest) + after));
    assert(data.take(pos as int).push(data[pos as int]) =~= data.take((pos + 1) as int));
}

proof fn lemma_decode_match_then(
    data: Seq<u8>,
    pos: nat,
    dist: nat,
    len: nat,
    before: Seq<bool>,
    rest: Seq<Token>,
    after: Seq<bool>,
)
    requires
        pos < data.len(),
        len > 0,
        match_ok(data, pos, (len, dist)),
    ensures
        ({
            let first = Token::Match { dist, len };
            let next = before + token_bits(first);
            &&& tokens_bits(seq![first] + rest).len() == token_bits(first).len() + tokens_bits(
                rest,
            ).len()
            &&& decode_tokens(
                before + tokens_bits(seq![first] + rest) + after,
                before.len(),
                0x90,
                data.take(pos as int),
                data.len(),
            ) == decode_tokens(
                next + tokens_bits(rest) + after,
                next.len(),
                0x90,
                data.take((pos + len) as int),
                data.len(),
            )
        }),
{
    let first = Token::Match { dist, len };
    lemma_tokens_bits_cons(first, rest);
    lemma_decode_step(
        before,
        first,
        tokens_bits(rest) + after,
        data.take(pos as int),
        data.len(),
    );
    assert(before + tokens_bits(seq![first] + rest) + after =~= before + token_bits(first) + (
    tokens_bits(rest) + after));
    assert(before + token_bits(first) + tokens_bits(rest) + after =~= before + token_bits(first) + (
    tokens_bits(rest) + after));
    lemma_copy_match(data, pos, dist, len);
}

/// A compressed block, whatever stands behind it, is decoded to the bytes it was made of, and its
/// length is what the decoder takes.
pub proof fn lemma_decode_compressed_block(data: Seq<u8>, rest: Seq<u8>)
    requires
        data.len() <= u32::MAX,
    ensures
        decode_block(compressed_block(data) + rest) == Ok::<(Seq<u8>, nat), LzError>(
            (data, compressed_block(data).len()),
        ),
{
    let all = compressed_block(data) + rest;
    let bits = payload_bits(data);
    let packed = pack_bits(bits);
    lemma_le_bytes_len(data.len(), 4);
    lemma_pow256_values();
    lemma_le_roundtrip(data.len(), 4);
    assert(all.take(4) =~= magic());
    assert(all.subrange(4, 8) =~= le_bytes(data.len(), 4));
    assert(all.skip(10) =~= packed + rest);
    lemma_bytes_bits_of_pack(bits);
    lemma_bytes_bits_concat(packed, rest);
    let after = crate::bits::zeros(pad_len(bits.len())) + bytes_bits(rest);
    let none = Seq::<bool>::empty();
    assert(bytes_bits(all.skip(10)) =~= none + bits + after);
    lemma_decode_tokens(data, Chains::empty(), 0, none, after);
    assert(data.take(0) =~= seq![]);
    if data.len() == 0 {
        assert(data =~= seq![]);
        assert(bits.len() == 0);
    }
}

/// So is a raw block.
pub proof fn lemma_decode_raw_block(data: Seq<u8>, rest: Seq<u8>)
    requires
        data.len() <= u32::MAX,
    ensures
        decode_block(raw_block(data) + rest) == Ok::<(Seq<u8>, nat), LzError>(
            (data, raw_block(data).len()),
        ),
{
    let all = raw_block(data) + rest;
    lemma_le_bytes_len(data.len(), 4);
    lemma_pow256_values();
    lemma_le_roundtrip(data.len(), 4);
    assert(all.take(4) =~= magic());
    assert(all.subrange(4, 8) =~= le_bytes(data.len(), 4));
    assert(all.subrange(10, (10 + data.len()) as int) =~= data);
    assert(data.len() == 0 ==> data =~= seq![]);
}

/// A block takes at least ten bytes, and no more than there are.
pub proof fn lemma_decode_block_len(data: Seq<u8>)
    ensures
        decode_block(data) matches Ok((out, n)) ==> 10 <= n <= data.len(),
{
    if data.len() >= 10 {
        let size = le_value(data.subrange(4, 8));
        lemma_bytes_bits_len(data.skip(10));
        lemma_decode_tokens_end(bytes_bits(data.skip(10)), 0, data[8], seq![], size);
    }
}

proof fn lemma_decode_tokens_end(
    bits: Seq<bool>,
    at: nat,
    format: u8,
    out: Seq<u8>,
    size: nat,
)
    requires
        at <= bits.len(),
    ensures
        decode_tokens(bits, at, format, out, size) matches Ok((o, end)) ==> at <= end
            <= bits.len() && o.len() == size,
    decreases bits.len() - at,
{
    if out.len() < size {
        match read_token(bits, at, format) {
            None => {},
            Some((Token::Literal { byte }, next)) => {
                lemma_decode_tokens_end(bits, next, format, out.push(byte), size);
            },
            Some((Token::Match { dist, len }, next)) => {
                lemma_decode_tokens_end(bits, next, format, copy_match(out, dist, len), size);
            },
        }
    }
}

/// The two bit strings begin with the same `n` bits.
spec fn agree(a: Seq<bool>, b: Seq<bool>, n: nat) -> bool {
    n <= a.len() && n <= b.len() && a.take(n as int) == b.take(n as int)
}

proof fn lemma_agree_at(a: Seq<bool>, b: Seq<bool>, n: nat)
    requires
        agree(a, b, n),
    ensures
        forall|i: int| 0 <= i < n ==> #[trigger] a[i] == b[i],
{
    assert forall|i: int| 0 <= i < n implies #[trigger] a[i] == b[i] by {
        assert(a.take(n as int)[i] == b.take(n as int)[i]);
    }
}

proof fn lemma_same_field(a: Seq<bool>, b: Seq<bool>, n: nat, at: nat, len: nat)
    requires
        agree(a, b, n),
        at + len <= n,
    ensures
        field(a, at, len) == field(b, at, len),
{
    lemma_agree_at(a, b, n);
    assert(a.subrange(at as int, (at + len) as int) =~= b.subrange(at as int, (at + len) as int));
}

/// A token depends on no bit behind it.
proof fn lemma_same_token(a: Seq<bool>, b: Seq<bool>, n: nat, at: nat, format: u8)
    requires
        agree(a, b, n),
        read_token(a, at, format) matches Some((token, next)) && next <= n,
    ensures
        read_token(b, at, format) == read_token(a, at, format),
        (read_token(a, at, format)->0).1 > at,
{
    lemma_agree_at(a, b, n);
    assert(a[at as int] == b[at as int]);
    if !a[at as int] {
        lemma_same_field(a, b, n, at + 1, 8);
    } else if format >= 128 {
        assert(a[at as int + 1] == b[at as int + 1]);
        let mid = dist_end(a, at + 1);
        assert(a[mid as int] == b[mid as int]);
        lemma_same_field(a, b, n, at + 2, (mid - (at + 2)) as nat);
        if a[mid as int] {
            lemma_same_field(a, b, n, mid + 1, 8);
        }
    } else {
        lemma_same_field(a, b, n, at + 1, format as nat);
        lemma_same_field(a, b, n, at + 1 + format as nat, 8);
    }
}

proof fn lemma_same_tokens(
    a: Seq<bool>,
    b: Seq<bool>,
    n: nat,
    at: nat,
    format: u8,
    out: Seq<u8>,
    size: nat,
)
    requires
        agree(a, b, n),
        at <= a.len(),
        decode_tokens(a, at, format, out, size) matches Ok((o, end)) && end <= n,
    ensures
        decode_tokens(b, at, format, out, size) == decode_tokens(a, at, format, out, size),
    decreases a.len() - at,
{
    if out.len() < size {
        match read_token(a, at, format) {
            None => {},
            Some((Token::Literal { byte }, next)) => {
                lemma_decode_tokens_end(a, next, format, out.push(byte), size);
                lemma_same_token(a, b, n, at, format);
                lemma_same_tokens(a, b, n, next, format, out.push(byte), size);
            },
            Some((Token::Match { dist, len }, next)) => {
                let more = copy_match(out, dist, len);
                lemma_decode_tokens_end(a, next, format, more, size);
                lemma_same_token(a, b, n, at, format);
                lemma_same_tokens(a, b, n, next, format, more, size);
            },
        }
    }
}

/// A block depends on nothing behind it: with anything else there it is read alike. Its length is
/// the one that its header gives.
pub proof fn lemma_block_alone(data: Seq<u8>, rest: Seq<u8>)
    requires
        decode_block(data) is Ok,
    ensures
        ({
            let (out, n) = decode_block(data)->Ok_0;
            &&& decode_block(data.take(n as int) + rest) == decode_block(data)
            &&& out.len() == le_value(data.subrange(4, 8))
        }),
{
    let (out, n) = decode_block(data)->Ok_0;
    lemma_decode_block_len(data);
    let other = data.take(n as int) + rest;
    let size = le_value(data.subrange(4, 8));
    assert(other.take(4) =~= data.take(4));
    assert(other.subrange(4, 8) =~= data.subrange(4, 8));
    assert(other[8] == data[8]);
    if size > 0 {
        if data[8] == 0 {
            assert(other.subrange(10, (10 + size) as int) =~= data.subrange(10, (10 + size) as int));
        } else {
            let part = data.subrange(10, n as int);
            let behind = data.skip(n as int);
            lemma_bytes_bits_concat(part, behind);
            lemma_bytes_bits_concat(part, rest);
            lemma_bytes_bits_len(part);
            assert(data.skip(10) =~= part + behind);
            assert(other.skip(10) =~= part + rest);
            let a = bytes_bits(data.skip(10));
            let b = bytes_bits(other.skip(10));
            let m = bytes_bits(part).len();
            assert(a.take(m as int) =~= bytes_bits(part));
            assert(b.take(m as int) =~= bytes_bits(part));
            lemma_bytes_bits_len(data.skip(10));
            lemma_decode_tokens_end(a, 0, data[8], seq![], size);
            lemma_same_tokens(a, b, m, 0, data[8], seq![], size);
        }
    }
}

/// A match goes on as far as the bytes agree, up to 258 of them and to the end of the data: the next
/// byte, where there is one, differs.
pub proof fn lemma_match_is_full(data: Seq<u8>, cp: int, pos: int)
    requires
        0 <= cp < pos < data.len(),
    ensures
        ({
            let n = match_len(data, cp, pos);
            &&& n <= 258
            &&& pos + n <= data.len()
            &&& forall|i: int| 0 <= i < n ==> data[cp + i] == #[trigger] data[pos + i]
            &&& n < 258 && pos + n < data.len() ==> data[cp + n] != data[pos + n]
        }),
{
    let left = (data.len() - pos) as nat;
    let max: nat = if left < 258 {
        left
    } else {
        258
    };
    lemma_agreement(data, cp, pos, 0, max);
    lemma_agreement_stops(data, cp, pos, 0, max);
}

proof fn lemma_agreement_stops(data: Seq<u8>, a: int, b: int, n: nat, max: nat)
    requires
        n <= max,
    ensures
        ({
            let r = agreement(data, a, b, n, max);
            r < max ==> data[a + r] != data[b + r]
        }),
    decreases max - n,
{
    if n < max && data[a + n] == data[b + n] {
        lemma_agreement_stops(data, a, b, n + 1, max);
    }
}

/// Of the earlier positions that are offered, the one with the longest match is taken, and of several
/// as long the one that is offered first; none exactly where no match has three bytes.
pub proof fn lemma_longest_is_longest(data: Seq<u8>, pos: nat, candidates: Seq<nat>)
    requires
        forall|i: int| 0 <= i < candidates.len() ==> (#[trigger] candidates[i]) < pos,
    ensures
        ({
            let (len, dist) = longest(data, pos, candidates);
            &&& forall|i: int|
                0 <= i < candidates.len() ==> match_len(
                    data,
                    (#[trigger] candidates[i]) as int,
                    pos as int,
                ) <= len || match_len(data, candidates[i] as int, pos as int) < 3
            &&& len > 0 ==> len >= 3 && exists|i: int|
                0 <= i < candidates.len() && dist == pos - (#[trigger] candidates[i]) && len
                    == match_len(data, candidates[i] as int, pos as int) && forall|j: int|
                    0 <= j < i ==> match_len(
                        data,
                        (#[trigger] candidates[j]) as int,
                        pos as int,
                    ) < len
        }),
    decreases candidates.len(),
{
    if candidates.len() > 0 {
        let front = candidates.drop_last();
        assert forall|i: int| 0 <= i < front.len() implies (#[trigger] front[i]) < pos by {
            assert(front[i] == candidates[i]);
        }
        lemma_longest_is_longest(data, pos, front);
        let (len, dist) = longest(data, pos, candidates);
        let best = longest(data, pos, front);
        let last = candidates[candidates.len() - 1];
        let new = match_len(data, last as int, pos as int);
        assert forall|i: int| 0 <= i < candidates.len() implies match_len(
            data,
            (#[trigger] candidates[i]) as int,
            pos as int,
        ) <= len || match_len(data, candidates[i] as int, pos as int) < 3 by {
            if i < front.len() {
                assert(front[i] == candidates[i]);
            }
        }
        if new >= 3 && new > best.0 {
            let i = candidates.len() - 1;
            assert forall|j: int| 0 <= j < i implies match_len(
                data,
                (#[trigger] candidates[j]) as int,
                pos as int,
            ) < len by {
                assert(front[j] == candidates[j]);
            }
            assert(dist == pos - candidates[i]);
        } else if len > 0 {
            let i = choose|i: int|
                0 <= i < front.len() && dist == pos - (#[trigger] front[i]) && len == match_len(
                    data,
                    front[i] as int,
                    pos as int,
                ) && forall|j: int|
                    0 <= j < i ==> match_len(data, (#[trigger] front[j]) as int, pos as int) < len;
            assert(front[i] == candidates[i]);
            assert forall|j: int| 0 <= j < i implies match_len(
                data,
                (#[trigger] candidates[j]) as int,
                pos as int,
            ) < len by {
                assert(front[j] == candidates[j]);
            }
        }
    }
}

/// What a position's entry changes: the chain of its three bytes starts with it, what was its start
/// comes next, and every other chain starts as before.
pub proof fn lemma_entered(data: Seq<u8>, t: Chains, p: nat)
    requires
        t.wf(),
        p + 2 < data.len(),
        p < u32::MAX,
    ensures
        insert(data, t, p).wf(),
        insert(data, t, p).head[hash_at(data, p as int)] == p,
        insert(data, t, p).prev[p as int % 65536] == t.head[hash_at(data, p as int)],
        forall|h: int|
            0 <= h < 65536 && h != hash_at(data, p as int) ==> #[trigger] insert(
                data,
                t,
                p,
            ).head[h] == t.head[h],
{
    lemma_hash3_bound(data[p as int], data[p as int + 1], data[p as int + 2]);
}

/// The first position that is offered is the latest with the same three bytes, if it is close enough; no
/// more than 128 are, each further back than the one before and less than 65536 bytes away.
pub proof fn lemma_chain_goes_back(t: Chains, pos: nat, cp: u32, left: nat)
    ensures
        ({
            let c = chain(t, pos, cp, left);
            &&& c.len() <= left
            &&& left > 0 && cp < pos && pos - cp <= 65535 && cp != u32::MAX ==> c.len() > 0 && c[0]
                == cp
            &&& c.len() > 0 ==> c[0] == cp
            &&& forall|i: int| 0 < i < c.len() ==> (#[trigger] c[i]) < c[i - 1]
            &&& forall|i: int|
                0 <= i < c.len() ==> (#[trigger] c[i]) < pos && pos - c[i] <= 65535
        }),
    decreases left,
{
    if !(cp == u32::MAX || left == 0 || cp >= pos || pos - cp > 65535) {
        let next = t.prev[cp as int % 65536];
        if !(next != u32::MAX && next >= cp) {
            lemma_chain_goes_back(t, pos, next, (left - 1) as nat);
            let rest = chain(t, pos, next, (left - 1) as nat);
            let c = chain(t, pos, cp, left);
            assert forall|i: int| 0 < i < c.len() implies (#[trigger] c[i]) < c[i - 1] by {
                assert(c[i] == rest[i - 1]);
                if i > 1 {
                    assert(c[i - 1] == rest[i - 2]);
                }
            }
            assert forall|i: int| 0 <= i < c.len() implies (#[trigger] c[i]) < pos && pos - c[i]
                <= 65535 by {
                if i > 0 {
                    assert(c[i] == rest[i - 1]);
                }
            }
        }
    }
}

/// The steps of the coding. A match of three bytes or more is taken, unless it has fewer than 258 and
/// the next position has one that is longer by two or more: then a literal goes before that one.
pub proof fn lemma_tokens_step(data: Seq<u8>, t: Chains, pos: nat)
    requires
        pos < data.len(),
    ensures
        ({
            let all = tokens_from(data, t, pos);
            let here = find_match(data, t, pos);
            let next = find_match(data, t, pos + 1);
            let literal = Token::Literal { byte: data[pos as int] };
            &&& all.len() > 0
            &&& here.0 <= 2 ==> all[0] == literal
            &&& 3 <= here.0 < 258 && next.0 >= here.0 + 2 ==> all.len() > 1 && all[0] == literal
                && all[1] == (Token::Match { dist: next.1, len: next.0 })
            &&& here.0 >= 3 && (here.0 >= 258 || next.0 <= here.0 + 1) ==> all[0] == (Token::Match {
                dist: here.1,
                len: here.0,
            })
        }),
{
}

/// What a token takes: nine bits for a literal; for a match eleven, eight more for a distance above
/// 256, and eight more for a length above three.
pub proof fn lemma_token_bits_len(token: Token)
    ensures
        match token {
            Token::Literal { byte } => token_bits(token).len() == 9,
            Token::Match { dist, len } => token_bits(token).len() == 11 + (if dist > 256 {
                8nat
            } else {
                0
            }) + (if len != 3 {
                8nat
            } else {
                0
            }),
        },
{
    match token {
        Token::Literal { byte } => {
            lemma_nat_bits_len(byte as nat, 8);
        },
        Token::Match { dist, len } => {
            lemma_nat_bits_len((dist - 1) as nat, 8);
            lemma_nat_bits_len((dist - 1) as nat, 16);
            lemma_nat_bits_len((len - 4) as nat, 8);
        },
    }
}

/// Each of the three bytes has its own share in a hash: the last one as it is, the one before times 32,
/// the first one times 1024, without what exceeds sixteen bits.
pub proof fn lemma_hash_shares(a: u8, b: u8, c: u8)
    ensures
        hash3(0, 0, c) == c,
        hash3(0, b, 0) == 32 * b,
        hash3(a, 0, 0) == 1024 * a % 65536,
        hash3(a, b, c) == hash3(a, 0, 0) ^ hash3(0, b, 0) ^ hash3(0, 0, c),
{
    assert(((((0u8 as u32) << 10) ^ ((0u8 as u32) << 5) ^ (c as u32)) & 0xffff) == c) by (bit_vector);
    assert(((((0u8 as u32) << 10) ^ ((b as u32) << 5) ^ (0u8 as u32)) & 0xffff) == 32 * b)
        by (bit_vector);
    assert(((((a as u32) << 10) ^ ((0u8 as u32) << 5) ^ (0u8 as u32)) & 0xffff) == 1024 * a % 65536)
        by (bit_vector);
    assert(((((a as u32) << 10) ^ ((b as u32) << 5) ^ (c as u32)) & 0xffff) == ((((a as u32) << 10) ^ ((
    0u8 as u32) << 5) ^ (0u8 as u32)) & 0xffff) ^ ((((0u8 as u32) << 10) ^ ((b as u32) << 5) ^ (
    0u8 as u32)) & 0xffff) ^ ((((0u8 as u32) << 10) ^ ((0u8 as u32) << 5) ^ (c as u32)) & 0xffff))
        by (bit_vector);
}

/// A block begins with `LZ77`, the length of what it holds in four bytes, and 0x90 where it is
/// compressed or zero where it is not; the bytes of a raw block follow as they are.
pub proof fn lemma_block_layout(data: Seq<u8>, i: nat)
    ensures
        ({
            let c = compressed_block(data);
            let r = raw_block(data);
            &&& c.len() >= 10 && r.len() == data.len() + 10
            &&& c[0] == 0x4c && c[1] == 0x5a && c[2] == 0x37 && c[3] == 0x37 && c[8] == 0x90
            &&& r[0] == 0x4c && r[1] == 0x5a && r[2] == 0x37 && r[3] == 0x37 && r[8] == 0
            &&& i < 4 ==> c[4 + i as int] == (data.len() / pow(256, i) as nat) % 256
            &&& i < 4 ==> r[4 + i as int] == (data.len() / pow(256, i) as nat) % 256
            &&& r.skip(10) == data
            &&& (8 * (c.len() - 10) - c[9] == payload_bits(data).len())
        }),
{
    let c = compressed_block(data);
    let r = raw_block(data);
    lemma_le_bytes_len(data.len(), 4);
    if i < 4 {
        lemma_le_digits(data.len(), 4, i);
        assert(c[4 + i as int] == le_bytes(data.len(), 4)[i as int]);
        assert(r[4 + i as int] == le_bytes(data.len(), 4)[i as int]);
    }
    assert(r.skip(10) =~= data);
}

/// The match that is found is no shorter than that with the latest position of the same hash, where that
/// position is close enough; and there is none where fewer than three bytes are left.
pub proof fn lemma_found_beats_latest(data: Seq<u8>, t: Chains, pos: nat)
    requires
        t.wf(),
    ensures
        pos + 3 > data.len() ==> find_match(data, t, pos) == (0nat, 0nat),
        pos + 3 <= data.len() ==> {
            let cp = t.head[hash_at(data, pos as int)];
            cp < pos && cp != u32::MAX && pos - cp <= 65535 ==> {
                let n = match_len(data, cp as int, pos as int);
                find_match(data, t, pos).0 >= n || n < 3
            }
        },
{
    reveal(find_match);
    if pos + 3 <= data.len() {
        let cp = t.head[hash_at(data, pos as int)];
        let c = chain(t, pos, cp, 128);
        lemma_chain_goes_back(t, pos, cp, 128);
        lemma_longest_is_longest(data, pos, c);
        if cp < pos && cp != u32::MAX && pos - cp <= 65535 {
            assert(c[0] == cp);
        }
    }
}

/// Bytes that do not begin with `LZ77` are no block, nor are fewer than ten, nor is a raw block that
/// lacks its end.
pub proof fn lemma_no_block(data: Seq<u8>, k: nat)
    requires
        0 < data.len() <= u32::MAX,
        k < data.len() + 10,
    ensures
        data.len() < 10 ==> decode_block(data) is Err,
        data.len() >= 10 && !(data[0] == 0x4c && data[1] == 0x5a && data[2] == 0x37 && data[3]
            == 0x37) ==> decode_block(data) is Err,
        decode_block(raw_block(data).take(k as int)) is Err,
{
    if data.len() >= 10 && data.take(4) == magic() {
        let m = magic();
        assert(data.take(4)[0] == m[0] && data.take(4)[1] == m[1] && data.take(4)[2] == m[2]
            && data.take(4)[3] == m[3]);
    }
    let r = raw_block(data);
    let part = r.take(k as int);
    lemma_le_bytes_len(data.len(), 4);
    if k >= 10 {
        assert(part.subrange(4, 8) =~= le_bytes(data.len(), 4));
        lemma_pow256_values();
        lemma_le_roundtrip(data.len(), 4);
        assert(part[8] == r[8]);
    }
}

} // verus!
