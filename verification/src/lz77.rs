//! LZ77 compression with hash chains and lazy matching.

use vstd::prelude::*;

use crate::bits::{bytes_bits, lemma_bytes_bits_len, BitReader, BitWriter};
use crate::bytes::{
    byte_counts, copy_of, count_of, le_value, lemma_count_of_bound, lemma_le_bytes_len,
    lemma_le_value_bound, lemma_pow256_values, push_le, read_le,
};
use crate::lz77_model::{
    agreement, chain, compressed_block, copy_match, decode_block, decode_single, decode_stream,
    decode_tokens, field, find_match, hash3, insert_run, lemma_decode_compressed_block,
    lemma_decode_raw_block, lemma_find_match_ok, lemma_hash3_bound, lemma_tokens_bits_cons, longest,
    magic, match_len, payload_bits, raw_block, read_token, token_bits, tokens_bits, tokens_from,
    Chains, LzError, Token,
};
use crate::windows::{
    counted_views, different_windows, frequent, frequent_windows, lemma_frequent_windows,
    lemma_repeats_counted, list_frequent_windows, surplus, window_total, Counted,
};

verus! {

pub const LZ77_MIN_MATCH: usize = 3;
pub const LZ77_MAX_MATCH: usize = 258;
pub const LZ77_HASH_SIZE: usize = 65536;
pub const LZ77_WINDOW_SIZE: usize = 65536;
pub const LZ77_MAX_DISTANCE: usize = 65535;
pub const LZ77_MAX_CHAIN: usize = 128;
/// Larger inputs are cut into blocks of this many bytes.
pub const LZ77_GLOBAL_CHUNK_SIZE: usize = 4194304;
/// So many bytes are looked at for repetitions.
pub const LZ77_REPETITION_SAMPLE: usize = 262144;
/// With fewer repeated four-byte groups a block is not worth compressing.
pub const LZ77_REPETITION_THRESHOLD: usize = 512;

/// The view of the two tables as chains.
pub open spec fn chains(head: Seq<u32>, prev: Seq<u32>) -> Chains {
    Chains { head, prev }
}

/// The hash of three bytes.
pub fn lz77_hash(a: u8, b: u8, c: u8) -> (h: usize)
    ensures
        h == hash3(a, b, c),
        h < LZ77_HASH_SIZE,
{
    proof {
        lemma_hash3_bound(a, b, c);
    }
    ((((a as u32) << 10) ^ ((b as u32) << 5) ^ (c as u32)) & 0xffff) as usize
}

/// How many bytes from `cp` and from `pos` on agree, `max_len` at most.
fn agreeing_bytes(data: &[u8], cp: usize, pos: usize, max_len: usize) -> (len: usize)
    requires
        cp < pos,
        pos + max_len <= data.len(),
    ensures
        len as nat == agreement(data@, cp as int, pos as int, 0, max_len as nat),
{
    let mut len: usize = 0;
    while len < max_len && data[cp + len] == data[pos + len]
        invariant
            cp < pos,
            pos + max_len <= data.len(),
            len <= max_len,
            agreement(data@, cp as int, pos as int, 0, max_len as nat) == agreement(
                data@,
                cp as int,
                pos as int,
                len as nat,
                max_len as nat,
            ),
        decreases max_len - len,
    {
        len += 1;
    }
    len
}

proof fn lemma_longest_stays(data: Seq<u8>, pos: nat, a: Seq<nat>, b: Seq<nat>)
    requires
        longest(data, pos, a).0 >= 258,
        pos < data.len(),
    ensures
        longest(data, pos, a + b) == longest(data, pos, a),
    decreases b.len(),
{
    if b.len() == 0 {
        assert(a + b =~= a);
    } else {
        assert((a + b).drop_last() =~= a + b.drop_last());
        lemma_longest_stays(data, pos, a, b.drop_last());
        let left = (data.len() - pos) as nat;
        crate::lz77_model::lemma_agreement(
            data,
            b.last() as int,
            pos as int,
            0,
            if left < 258 {
                left
            } else {
                258
            },
        );
    }
}

/// The longest match for the bytes at `pos`, as length and distance; `(0, 0)` if there is none.
pub fn lz77_find_match(data: &[u8], pos: usize, head: &[u32], prev: &[u32]) -> (r: (usize, usize))
    requires
        pos <= data.len(),
        chains(head@, prev@).wf(),
    ensures
        (r.0 as nat, r.1 as nat) == find_match(data@, chains(head@, prev@), pos as nat),
{
    let size = data.len();
    proof {
        reveal(find_match);
    }
    if size - pos <= 2 {
        return (0, 0);
    }
    let h = lz77_hash(data[pos], data[pos + 1], data[pos + 2]);
    let ghost t = chains(head@, prev@);
    let mut chain_pos: u32 = head[h];
    let mut chain_count: usize = 0;
    let mut best_len: usize = 0;
    let mut best_dist: usize = 0;
    let max_len: usize = if size - pos < LZ77_MAX_MATCH {
        size - pos
    } else {
        LZ77_MAX_MATCH
    };
    let ghost all = chain(t, pos as nat, chain_pos, 128);
    let ghost mut seen = Seq::<nat>::empty();
    assert(seen + all =~= all);
    while chain_pos != u32::MAX && chain_count < LZ77_MAX_CHAIN
        invariant_except_break
            seen + chain(t, pos as nat, chain_pos, (128 - chain_count) as nat) == all,
            (best_len as nat, best_dist as nat) == longest(data@, pos as nat, seen),
        invariant
            chain_count <= 128,
            t == chains(head@, prev@),
            t.wf(),
            size == data.len(),
            pos + 2 < size,
            max_len == if size - pos < 258 {
                size - pos
            } else {
                258
            },
        ensures
            (best_len as nat, best_dist as nat) == longest(data@, pos as nat, all),
        decreases 128 - chain_count,
    {
        let cp = chain_pos as usize;
        if cp >= pos || pos - cp > LZ77_MAX_DISTANCE {
            assert(seen + seq![] =~= seen);
            break;
        }
        let ghost next_seen = seen.push(cp as nat);
        let ghost rest = if prev@[cp as int % 65536] != u32::MAX && prev@[cp as int % 65536] >= cp {
            Seq::<nat>::empty()
        } else {
            chain(t, pos as nat, prev@[cp as int % 65536], (128 - chain_count - 1) as nat)
        };
        let len = agreeing_bytes(data, cp, pos, max_len);
        proof {
            assert(all =~= next_seen + rest);
            assert(next_seen.drop_last() =~= seen);
            assert(len as nat == match_len(data@, cp as int, pos as int));
        }
        if len > best_len && len >= LZ77_MIN_MATCH {
            best_len = len;
            best_dist = pos - cp;
            if best_len >= LZ77_MAX_MATCH {
                proof {
                    lemma_longest_stays(data@, pos as nat, next_seen, rest);
                }
                break;
            }
        }
        proof {
            seen = next_seen;
        }
        let next = prev[cp % LZ77_WINDOW_SIZE];
        if next != u32::MAX && next as usize >= cp {
            assert(seen + seq![] =~= seen);
            break;
        }
        chain_pos = next;
        chain_count += 1;
        assert(chain_pos == u32::MAX || chain_count == 128 ==> seen + chain(
            t,
            pos as nat,
            chain_pos,
            (128 - chain_count) as nat,
        ) =~= seen);
    }
    (best_len, best_dist)
}

/// Enters the `n` positions from `pos` on into the chains.
fn enter_positions(data: &[u8], pos: usize, n: usize, head: &mut Vec<u32>, prev: &mut Vec<u32>)
    requires
        pos + n <= data.len(),
        chains(old(head)@, old(prev)@).wf(),
    ensures
        chains(final(head)@, final(prev)@).wf(),
        chains(final(head)@, final(prev)@) == insert_run(
            data@,
            chains(old(head)@, old(prev)@),
            pos as nat,
            n as nat,
        ),
{
    let ghost t0 = chains(head@, prev@);
    let mut i: usize = 0;
    while i < n
        invariant
            i <= n,
            pos + n <= data.len(),
            chains(head@, prev@).wf(),
            chains(head@, prev@) == insert_run(data@, t0, pos as nat, i as nat),
        decreases n - i,
    {
        let p = pos + i;
        if data.len() - p > 2 {
            let h = lz77_hash(data[p], data[p + 1], data[p + 2]);
            let last = head[h];
            prev.set(p % LZ77_WINDOW_SIZE, last);
            head.set(h, (p as u64 % 0x1_0000_0000) as u32);
        }
        i += 1;
    }
}

fn emit_literal(writer: &mut BitWriter, byte: u8)
    requires
        old(writer).wf(),
    ensures
        final(writer).wf(),
        final(writer).bits() == old(writer).bits() + token_bits(Token::Literal { byte }),
{
    let ghost before = writer.bits();
    proof {
        vstd::arithmetic::power2::lemma2_to64();
    }
    writer.write_bit(0);
    writer.write_bits(byte as u32, 8);
    assert(writer.bits() =~= before + token_bits(Token::Literal { byte }));
}

fn emit_match(writer: &mut BitWriter, dist: usize, len: usize)
    requires
        old(writer).wf(),
        1 <= dist <= 65535,
        3 <= len <= 258,
    ensures
        final(writer).wf(),
        final(writer).bits() == old(writer).bits() + token_bits(
            Token::Match { dist: dist as nat, len: len as nat },
        ),
{
    let ghost before = writer.bits();
    proof {
        vstd::arithmetic::power2::lemma2_to64();
    }
    writer.write_bit(1);
    if dist <= 256 {
        writer.write_bit(0);
        writer.write_bits((dist - 1) as u32, 8);
    } else {
        writer.write_bit(1);
        writer.write_bits((dist - 1) as u32, 16);
    }
    if len == LZ77_MIN_MATCH {
        writer.write_bit(0);
    } else {
        writer.write_bit(1);
        writer.write_bits((len - LZ77_MIN_MATCH - 1) as u32, 8);
    }
    assert(writer.bits() =~= before + token_bits(
        Token::Match { dist: dist as nat, len: len as nat },
    ));
}

fn push_magic(out: &mut Vec<u8>)
    ensures
        final(out)@ == old(out)@ + magic(),
{
    let ghost before = out@;
    out.push(0x4c);
    out.push(0x5a);
    out.push(0x37);
    out.push(0x37);
    assert(out@ =~= before + magic());
}

/// `data` as one compressed block.
pub fn lz77_compress(data: &[u8]) -> (out: Vec<u8>)
    ensures
        out@ == compressed_block(data@),
{
    let size = data.len();
    let mut head: Vec<u32> = vec![u32::MAX; LZ77_HASH_SIZE];
    let mut prev: Vec<u32> = vec![u32::MAX; LZ77_WINDOW_SIZE];
    let mut writer = BitWriter::with_capacity(size);
    let mut pos: usize = 0;
    proof {
        assert(head@ =~= Chains::empty().head);
        assert(prev@ =~= Chains::empty().prev);
        assert(writer.bits() + payload_bits(data@) =~= payload_bits(data@));
    }
    while pos < size
        invariant
            size == data.len(),
            pos <= size,
            chains(head@, prev@).wf(),
            writer.wf(),
            writer.bits() + tokens_bits(tokens_from(data@, chains(head@, prev@), pos as nat))
                == payload_bits(data@),
        decreases size - pos,
    {
        let ghost t = chains(head@, prev@);
        let ghost before = writer.bits();
        let (best_len, best_dist) = lz77_find_match(data, pos, &head, &prev);
        let (lazy_len, lazy_dist) = if LZ77_MIN_MATCH <= best_len && best_len < LZ77_MAX_MATCH {
            lz77_find_match(data, pos + 1, &head, &prev)
        } else {
            (0, 0)
        };
        proof {
            lemma_find_match_ok(data@, t, pos as nat);
            lemma_find_match_ok(data@, t, (pos + 1) as nat);
        }
        let ghost literal = Token::Literal { byte: data@[pos as int] };
        if best_len < LZ77_MIN_MATCH {
            emit_literal(&mut writer, data[pos]);
            enter_positions(data, pos, 1, &mut head, &mut prev);
            proof {
                reveal_with_fuel(insert_run, 2);
                let rest = tokens_from(data@, chains(head@, prev@), (pos + 1) as nat);
                lemma_tokens_bits_cons(literal, rest);
                assert(writer.bits() + tokens_bits(rest) =~= before + (token_bits(literal)
                    + tokens_bits(rest)));
            }
            pos = pos + 1;
        } else if lazy_len > best_len + 1 {
            emit_literal(&mut writer, data[pos]);
            emit_match(&mut writer, lazy_dist, lazy_len);
            enter_positions(data, pos, 1 + lazy_len, &mut head, &mut prev);
            proof {
                let second = Token::Match { dist: lazy_dist as nat, len: lazy_len as nat };
                let rest = tokens_from(data@, chains(head@, prev@), (pos + 1 + lazy_len) as nat);
                assert(seq![literal, second] + rest =~= seq![literal] + (seq![second] + rest));
                lemma_tokens_bits_cons(literal, seq![second] + rest);
                lemma_tokens_bits_cons(second, rest);
                assert(writer.bits() + tokens_bits(rest) =~= before + (token_bits(literal) + (
                token_bits(second) + tokens_bits(rest))));
            }
            pos = pos + 1 + lazy_len;
        } else {
            emit_match(&mut writer, best_dist, best_len);
            enter_positions(data, pos, best_len, &mut head, &mut prev);
            proof {
                let first = Token::Match { dist: best_dist as nat, len: best_len as nat };
                let rest = tokens_from(data@, chains(head@, prev@), (pos + best_len) as nat);
                lemma_tokens_bits_cons(first, rest);
                assert(writer.bits() + tokens_bits(rest) =~= before + (token_bits(first)
                    + tokens_bits(rest)));
            }
            pos = pos + best_len;
        }
    }
    assert(writer.bits() =~= payload_bits(data@));
    let (payload, padding) = writer.finish();
    let mut out: Vec<u8> = Vec::with_capacity(payload.len());
    push_magic(&mut out);
    push_le(&mut out, size as u64, 4);
    out.push(0x90);
    out.push(padding);
    out.extend_from_slice(&payload);
    assert(out@ =~= compressed_block(data@));
    out
}

/// `data` as a block that holds its bytes as they are.
pub fn lz77_write_raw_block(data: &[u8]) -> (out: Vec<u8>)
    ensures
        out@ == raw_block(data@),
{
    let mut out: Vec<u8> = Vec::with_capacity(data.len());
    push_magic(&mut out);
    push_le(&mut out, data.len() as u64, 4);
    out.push(0);
    out.push(0);
    out.extend_from_slice(data);
    assert(out@ =~= raw_block(data@));
    out
}

/// The compressed block, if it is shorter than the bytes it holds; else the raw block.
pub open spec fn shorter_block(data: Seq<u8>) -> Seq<u8> {
    if compressed_block(data).len() >= data.len() {
        raw_block(data)
    } else {
        compressed_block(data)
    }
}

/// `data` as one block, compressed where that saves bytes.
pub fn lz77_compress_maybe(data: &[u8]) -> (out: Vec<u8>)
    ensures
        out@ == shorter_block(data@),
{
    let compressed = lz77_compress(data);
    if compressed.len() >= data.len() {
        return lz77_write_raw_block(data);
    }
    compressed
}

/// How many occurrences the first `k` windows of a list have beyond the first of each.
pub open spec fn repeats(list: Seq<Counted>, k: nat) -> nat
    decreases k,
{
    if k == 0 {
        0
    } else {
        repeats(list, (k - 1) as nat) + (list[k - 1].count - 1) as nat
    }
}

/// How many four-byte groups of the first bytes of `data` repeat an earlier one.
pub open spec fn repetition_score(data: Seq<u8>) -> nat {
    let sample = data.take(
        if data.len() < LZ77_REPETITION_SAMPLE {
            data.len() as int
        } else {
            LZ77_REPETITION_SAMPLE as int
        },
    );
    if sample.len() < 8 {
        0
    } else {
        repeats(frequent_windows(sample, 4, 2), frequent_windows(sample, 4, 2).len())
    }
}

/// How many four-byte groups of the first bytes of `data` repeat an earlier one.
pub fn lz77_chunk_repetition_score(data: &[u8]) -> (score: u64)
    ensures
        score as nat == repetition_score(data@),
{
    let n = if data.len() < LZ77_REPETITION_SAMPLE {
        data.len()
    } else {
        LZ77_REPETITION_SAMPLE
    };
    if n < 8 {
        return 0;
    }
    let sample = &data[0..n];
    assert(sample@ =~= data@.take(n as int));
    let list = list_frequent_windows(sample, 4, 2);
    let ghost all = frequent_windows(sample@, 4, 2);
    proof {
        lemma_frequent_windows(sample@, 4, 2);
        lemma_frequent_len(sample@, 4, 2, window_total(sample@, 4));
        assert(counted_views(list@).len() == list@.len());
    }
    let mut score: u64 = 0;
    let mut i: usize = 0;
    while i < list.len()
        invariant
            i <= list@.len(),
            list@.len() <= LZ77_REPETITION_SAMPLE,
            counted_views(list@) == all,
            all.len() == list@.len(),
            forall|k: int|
                0 <= k < all.len() ==> 0 < (#[trigger] all[k]).count <= LZ77_REPETITION_SAMPLE + 1,
            score <= i * 262144,
            score as nat == repeats(all, i as nat),
        decreases list@.len() - i,
    {
        assert(all[i as int] == list@[i as int]@);
        score = score + (list[i].count - 1) as u64;
        i += 1;
    }
    score
}

proof fn lemma_frequent_len(data: Seq<u8>, size: nat, threshold: nat, n: nat)
    ensures
        frequent(data, size, threshold, n).len() <= n,
    decreases n,
{
    if n > 0 {
        lemma_frequent_len(data, size, threshold, (n - 1) as nat);
    }
}

/// Every byte value occurs.
pub open spec fn uses_all_bytes(data: Seq<u8>) -> bool {
    forall|b: u8| data.contains(b)
}

/// Whether a block is left as it is: `near_random` says that its order-0 entropy is above 7.95
/// bits per byte.
pub open spec fn skips_chunk(data: Seq<u8>, near_random: bool) -> bool {
    ||| near_random && uses_all_bytes(data)
    ||| repetition_score(data) < LZ77_REPETITION_THRESHOLD
}

/// Whether `data` is not worth compressing: near random over all byte values, or with hardly a
/// repetition. `near_random` says that its order-0 entropy is above 7.95 bits per byte.
pub fn lz77_should_skip_chunk(data: &[u8], near_random: bool) -> (skip: bool)
    ensures
        skip == skips_chunk(data@, near_random),
{
    if near_random && distinct_bytes(data) == 256 {
        return true;
    }
    lz77_chunk_repetition_score(data) < LZ77_REPETITION_THRESHOLD as u64
}

/// How many of the byte values below `n` occur in `data`.
pub open spec fn distinct_below(data: Seq<u8>, n: nat) -> nat
    decreases n,
{
    if n == 0 {
        0
    } else {
        distinct_below(data, (n - 1) as nat) + if data.contains((n - 1) as u8) {
            1nat
        } else {
            0
        }
    }
}

pub proof fn lemma_distinct_below(data: Seq<u8>, n: nat)
    requires
        n <= 256,
    ensures
        distinct_below(data, n) <= n,
        distinct_below(data, n) == n <==> forall|b: u8| b < n ==> data.contains(b),
    decreases n,
{
    if n > 0 {
        lemma_distinct_below(data, (n - 1) as nat);
        if distinct_below(data, n) == n {
            assert forall|b: u8| b < n implies data.contains(b) by {
                if b == n - 1 {
                    assert(b == (n - 1) as u8);
                }
            }
        } else if forall|b: u8| b < n ==> data.contains(b) {
            assert(((n - 1) as u8) < n);
        }
    }
}

/// How many different byte values occur in `data`.
pub fn distinct_bytes(data: &[u8]) -> (count: usize)
    ensures
        count as nat == distinct_below(data@, 256),
        count == 256 <==> uses_all_bytes(data@),
{
    let counts = byte_counts(data);
    let mut count: usize = 0;
    let mut b: usize = 0;
    while b < 256
        invariant
            b <= 256,
            count <= b,
            count as nat == distinct_below(data@, b as nat),
            forall|c: u8| (#[trigger] counts@[c as int]) as nat == count_of(data@, c),
        decreases 256 - b,
    {
        proof {
            lemma_count_of_bound(data@, b as u8);
            assert(counts@[(b as u8) as int] as nat == count_of(data@, b as u8));
        }
        if counts[b] > 0 {
            count += 1;
        }
        b += 1;
    }
    proof {
        lemma_distinct_below(data@, 256);
    }
    count
}

/// How one chunk of a large input is stored.
pub open spec fn chunk_block(data: Seq<u8>, near_random: bool) -> Seq<u8> {
    if skips_chunk(data, near_random) {
        raw_block(data)
    } else {
        shorter_block(data)
    }
}

/// `data` as one block: raw where compression is not worth trying or does not help.
pub fn lz77_compress_chunk(data: &[u8], near_random: bool) -> (out: Vec<u8>)
    ensures
        out@ == chunk_block(data@, near_random),
{
    if lz77_should_skip_chunk(data, near_random) {
        lz77_write_raw_block(data)
    } else {
        lz77_compress_maybe(data)
    }
}

/// The blocks for `data` from chunk `i` on, cut at multiples of the chunk size.
pub open spec fn chunk_blocks(data: Seq<u8>, near_random: Seq<bool>, i: nat) -> Seq<u8>
    decreases data.len() - i * LZ77_GLOBAL_CHUNK_SIZE,
{
    let start = i * LZ77_GLOBAL_CHUNK_SIZE;
    if start >= data.len() {
        seq![]
    } else if data.len() - start <= LZ77_GLOBAL_CHUNK_SIZE {
        chunk_block(data.skip(start), near_random[i as int])
    } else {
        chunk_block(
            data.subrange(start, start + LZ77_GLOBAL_CHUNK_SIZE),
            near_random[i as int],
        ) + chunk_blocks(data, near_random, i + 1)
    }
}

/// What a whole input becomes: one block, or one for each chunk of a large one.
pub open spec fn compressed_stream(data: Seq<u8>, near_random: Seq<bool>) -> Seq<u8> {
    if data.len() <= LZ77_GLOBAL_CHUNK_SIZE {
        shorter_block(data)
    } else {
        chunk_blocks(data, near_random, 0)
    }
}

/// How many blocks the stream for so many bytes has.
pub open spec fn block_count(len: nat) -> nat {
    if len == 0 {
        1
    } else {
        (len + LZ77_GLOBAL_CHUNK_SIZE - 1) as nat / LZ77_GLOBAL_CHUNK_SIZE as nat
    }
}

proof fn lemma_block_len(data: Seq<u8>, near_random: bool)
    ensures
        chunk_block(data, near_random).len() <= data.len() + 10,
        shorter_block(data).len() <= data.len() + 10,
{
    lemma_le_bytes_len(data.len(), 4);
}

proof fn lemma_chunk_blocks_len(data: Seq<u8>, near_random: Seq<bool>, i: nat)
    requires
        i < block_count(data.len()),
        data.len() > 0,
    ensures
        chunk_blocks(data, near_random, i).len() <= data.len() - i * LZ77_GLOBAL_CHUNK_SIZE + 10 * (
        block_count(data.len()) - i),
    decreases data.len() - i * LZ77_GLOBAL_CHUNK_SIZE,
{
    let start = i * LZ77_GLOBAL_CHUNK_SIZE;
    let n = block_count(data.len());
    if data.len() - start <= LZ77_GLOBAL_CHUNK_SIZE {
        lemma_block_len(data.skip(start), near_random[i as int]);
    } else {
        let here = data.subrange(start, start + LZ77_GLOBAL_CHUNK_SIZE);
        lemma_block_len(here, near_random[i as int]);
        lemma_chunk_blocks_len(data, near_random, i + 1);
    }
}

/// A stream is longer than the data by ten bytes for each of its blocks at most.
pub proof fn lemma_stream_len(data: Seq<u8>, near_random: Seq<bool>)
    ensures
        compressed_stream(data, near_random).len() <= data.len() + 10 * block_count(data.len()),
{
    if data.len() <= LZ77_GLOBAL_CHUNK_SIZE {
        lemma_block_len(data, false);
    } else {
        lemma_chunk_blocks_len(data, near_random, 0);
    }
}

/// `data` as a stream of blocks. For each chunk of an input of more than one, `near_random` says
/// whether the chunk's order-0 entropy is above 7.95 bits per byte.
pub fn lz77_compress_chunked(data: &[u8], near_random: &[bool]) -> (out: Vec<u8>)
    requires
        data.len() <= LZ77_GLOBAL_CHUNK_SIZE || near_random.len() * LZ77_GLOBAL_CHUNK_SIZE
            >= data.len(),
    ensures
        out@ == compressed_stream(data@, near_random@),
        out@.len() <= data@.len() + 10 * block_count(data@.len()),
{
    let size = data.len();
    proof {
        lemma_stream_len(data@, near_random@);
    }
    if size <= LZ77_GLOBAL_CHUNK_SIZE {
        return lz77_compress_maybe(data);
    }
    let mut out: Vec<u8> = Vec::new();
    let mut start: usize = 0;
    let mut i: usize = 0;
    assert(out@ + chunk_blocks(data@, near_random@, 0) =~= chunk_blocks(data@, near_random@, 0));
    while start < size
        invariant
            size == data.len(),
            near_random.len() * LZ77_GLOBAL_CHUNK_SIZE >= size,
            start <= size,
            start < size ==> start == i * LZ77_GLOBAL_CHUNK_SIZE,
            i * LZ77_GLOBAL_CHUNK_SIZE >= start,
            i <= near_random.len(),
            out@ + (if start < size {
                chunk_blocks(data@, near_random@, i as nat)
            } else {
                seq![]
            }) == chunk_blocks(data@, near_random@, 0),
        decreases size - start,
    {
        let len = if size - start <= LZ77_GLOBAL_CHUNK_SIZE {
            size - start
        } else {
            LZ77_GLOBAL_CHUNK_SIZE
        };
        let ghost before = out@;
        let chunk = &data[start..start + len];
        let block = lz77_compress_chunk(chunk, near_random[i]);
        out.extend_from_slice(&block);
        proof {
            assert(data@.skip(start as int) =~= data@.subrange(start as int, size as int));
            let rest = if start + len < size {
                chunk_blocks(data@, near_random@, (i + 1) as nat)
            } else {
                seq![]
            };
            assert(out@ + rest =~= before + (block@ + rest));
        }
        start = start + len;
        i += 1;
    }
    assert(out@ =~= chunk_blocks(data@, near_random@, 0));
    out
}

/// The block at the start of `data`, and how many bytes it takes.
pub fn lz77_decompress_block(data: &[u8]) -> (r: Result<(Vec<u8>, usize), LzError>)
    ensures
        match r {
            Ok((out, n)) => decode_block(data@) == Ok::<(Seq<u8>, nat), LzError>(
                (out@, n as nat),
            ) && 10 <= n <= data.len(),
            Err(e) => decode_block(data@) == Err::<(Seq<u8>, nat), LzError>(e),
        },
{
    if data.len() < 10 {
        return Err(LzError::TooShort);
    }
    if data[0] != 0x4c || data[1] != 0x5a || data[2] != 0x37 || data[3] != 0x37 {
        assert(data@.take(4)[0] == data@[0] && data@.take(4)[1] == data@[1] && data@.take(4)[2]
            == data@[2] && data@.take(4)[3] == data@[3]);
        return Err(LzError::BadMagic);
    }
    assert(data@.take(4) =~= magic());
    proof {
        lemma_le_value_bound(data@.subrange(4, 8));
        lemma_pow256_values();
    }
    let size = read_le(data, 4, 4) as usize;
    let format = data[8];
    if size == 0 {
        return Ok((Vec::new(), 10));
    }
    if format == 0 {
        if data.len() - 10 < size {
            return Err(LzError::RawTruncated);
        }
        let out = copy_of(&data[10..10 + size]);
        return Ok((out, 10 + size));
    }
    let payload = &data[10..data.len()];
    let ghost bits = bytes_bits(payload@);
    assert(payload@ =~= data@.skip(10));
    let mut reader = BitReader::new(payload);
    let mut out: Vec<u8> = Vec::with_capacity(size);
    while out.len() < size
        invariant
            reader.wf(),
            reader.stream() == bits,
            decode_tokens(bits, 0, format, seq![], size as nat) == decode_tokens(
                bits,
                reader.pos(),
                format,
                out@,
                size as nat,
            ),
            data.len() >= 10,
            data@.take(4) == magic(),
            size as nat == le_value(data@.subrange(4, 8)),
            size > 0,
            format == data@[8],
            format != 0,
            bits == bytes_bits(data@.skip(10)),
        decreases bits.len() - reader.pos(),
    {
        let ghost at = reader.pos();
        let ghost before = out@;
        match next_token(&mut reader, format) {
            None => {
                return Err(LzError::Truncated);
            },
            Some(LzToken::Literal(byte)) => {
                out.push(byte);
            },
            Some(LzToken::Match(distance, length)) => {
                if distance == 0 || distance > out.len() {
                    return Err(LzError::BadReference { distance, position: out.len() });
                }
                let mut i: usize = 0;
                while i < length
                    invariant
                        i <= length,
                        1 <= distance <= out.len(),
                        out@ == copy_match(before, distance as nat, i as nat),
                    decreases length - i,
                {
                    let b = out[out.len() - distance];
                    out.push(b);
                    i += 1;
                }
            },
        }
        proof {
            reader.lemma_pos_in_stream();
        }
    }
    if out.len() != size {
        return Err(LzError::SizeMismatch { found: out.len(), expected: size });
    }
    proof {
        lemma_bytes_bits_len(payload@);
        reader.lemma_pos_in_stream();
    }
    let consumed = reader.bytes_consumed();
    Ok((out, 10 + consumed))
}

/// A token as the decoder takes it: a byte, or distance and length.
pub enum LzToken {
    Literal(u8),
    Match(usize, usize),
}

impl LzToken {
    pub open spec fn token(self) -> Token {
        match self {
            LzToken::Literal(byte) => Token::Literal { byte },
            LzToken::Match(d, l) => Token::Match { dist: d as nat, len: l as nat },
        }
    }
}

proof fn lemma_field_bound(bits: Seq<bool>, at: nat, n: nat)
    requires
        at + n <= bits.len(),
    ensures
        field(bits, at, n) < vstd::arithmetic::power2::pow2(n),
{
    crate::bits::lemma_nat_bits_of_bits_value(bits.subrange(at as int, (at + n) as int));
}

/// The next token, or nothing if the bits end before.
fn next_token(reader: &mut BitReader, format: u8) -> (r: Option<LzToken>)
    requires
        old(reader).wf(),
    ensures
        final(reader).wf(),
        final(reader).stream() == old(reader).stream(),
        match r {
            None => read_token(old(reader).stream(), old(reader).pos(), format) is None,
            Some(t) => read_token(old(reader).stream(), old(reader).pos(), format) == Some(
                (t.token(), final(reader).pos()),
            ),
        },
{
    let ghost bits = reader.stream();
    let ghost at = reader.pos();
    proof {
        vstd::arithmetic::power2::lemma2_to64();
    }
    let kind = match reader.read_bit() {
        Ok(b) => b,
        Err(_) => {
            return None;
        },
    };
    if kind == 0 {
        match reader.read_bits(8) {
            Ok(v) => {
                proof {
                    lemma_field_bound(bits, at + 1, 8);
                }
                return Some(LzToken::Literal(v as u8));
            },
            Err(_) => {
                return None;
            },
        }
    }
    if format >= 128 {
        let wide = match reader.read_bit() {
            Ok(b) => b,
            Err(_) => {
                return None;
            },
        };
        let width: u8 = if wide == 0 {
            8
        } else {
            16
        };
        let distance = match reader.read_bits(width) {
            Ok(v) => {
                proof {
                    lemma_field_bound(bits, at + 2, width as nat);
                }
                v as usize + 1
            },
            Err(_) => {
                return None;
            },
        };
        let long = match reader.read_bit() {
            Ok(b) => b,
            Err(_) => {
                return None;
            },
        };
        if long == 0 {
            return Some(LzToken::Match(distance, LZ77_MIN_MATCH));
        }
        match reader.read_bits(8) {
            Ok(v) => {
                proof {
                    lemma_field_bound(bits, at + 3 + width as nat, 8);
                }
                Some(LzToken::Match(distance, v as usize + LZ77_MIN_MATCH + 1))
            },
            Err(_) => None,
        }
    } else {
        let distance = match reader.read_bits(format) {
            Ok(v) => v as usize,
            Err(_) => {
                return None;
            },
        };
        match reader.read_bits(8) {
            Ok(v) => {
                proof {
                    lemma_field_bound(bits, at + 1 + format as nat, 8);
                }
                Some(LzToken::Match(distance, v as usize + LZ77_MIN_MATCH))
            },
            Err(_) => None,
        }
    }
}

/// The one block that `data` consists of.
pub fn lz77_decompress(data: &[u8]) -> (r: Result<Vec<u8>, LzError>)
    ensures
        match r {
            Ok(out) => decode_single(data@) == Ok::<Seq<u8>, LzError>(out@),
            Err(e) => decode_single(data@) == Err::<Seq<u8>, LzError>(e),
        },
{
    match lz77_decompress_block(data) {
        Ok((out, consumed)) => {
            if consumed != data.len() {
                return Err(LzError::TrailingData);
            }
            Ok(out)
        },
        Err(e) => Err(e),
    }
}

/// The contents of all the blocks of `data`, in order.
pub fn lz77_decompress_stream(data: &[u8]) -> (r: Result<Vec<u8>, LzError>)
    ensures
        match r {
            Ok(out) => decode_stream(data@) == Ok::<Seq<u8>, LzError>(out@),
            Err(e) => decode_stream(data@) == Err::<Seq<u8>, LzError>(e),
        },
{
    let mut out: Vec<u8> = Vec::new();
    let mut offset: usize = 0;
    proof {
        assert(data@.skip(0) =~= data@);
        match decode_stream(data@) {
            Ok(rest) => {
                assert(out@ + rest =~= rest);
            },
            Err(e) => {},
        }
    }
    while offset < data.len()
        invariant
            offset <= data.len(),
            decode_stream(data@) == match decode_stream(data@.skip(offset as int)) {
                Ok(rest) => Ok(out@ + rest),
                Err(e) => Err::<Seq<u8>, LzError>(e),
            },
        decreases data.len() - offset,
    {
        let tail = &data[offset..data.len()];
        assert(tail@ =~= data@.skip(offset as int));
        let ghost before = out@;
        match lz77_decompress_block(tail) {
            Ok((chunk, consumed)) => {
                out.extend_from_slice(&chunk);
                proof {
                    assert(tail@.skip(consumed as int) =~= data@.skip(offset + consumed));
                    match decode_stream(data@.skip(offset + consumed)) {
                        Ok(rest) => {
                            assert(before + (chunk@ + rest) =~= out@ + rest);
                        },
                        Err(e) => {},
                    }
                }
                offset = offset + consumed;
            },
            Err(e) => {
                return Err(e);
            },
        }
    }
    proof {
        assert(data@.skip(offset as int) =~= seq![]);
        assert(out@ + seq![] =~= out@);
    }
    Ok(out)
}

/// A block, compressed or raw, is read back as the bytes it was made of.
pub proof fn lemma_block_roundtrip(data: Seq<u8>)
    requires
        data.len() <= u32::MAX,
    ensures
        decode_single(compressed_block(data)) == Ok::<Seq<u8>, LzError>(data),
        decode_single(raw_block(data)) == Ok::<Seq<u8>, LzError>(data),
        decode_single(shorter_block(data)) == Ok::<Seq<u8>, LzError>(data),
{
    lemma_decode_compressed_block(data, seq![]);
    lemma_decode_raw_block(data, seq![]);
    assert(compressed_block(data) + seq![] =~= compressed_block(data));
    assert(raw_block(data) + seq![] =~= raw_block(data));
}

proof fn lemma_stream_cons(data: Seq<u8>, near_random: bool, rest: Seq<u8>)
    requires
        data.len() <= u32::MAX,
    ensures
        decode_stream(chunk_block(data, near_random) + rest) == match decode_stream(rest) {
            Ok(r) => Ok::<Seq<u8>, LzError>(data + r),
            Err(e) => Err(e),
        },
        decode_stream(shorter_block(data)) == Ok::<Seq<u8>, LzError>(data),
{
    lemma_le_bytes_len(data.len(), 4);
    lemma_decode_compressed_block(data, rest);
    lemma_decode_raw_block(data, rest);
    let block = chunk_block(data, near_random);
    assert((block + rest).skip(block.len() as int) =~= rest);
    lemma_decode_compressed_block(data, seq![]);
    lemma_decode_raw_block(data, seq![]);
    let one = shorter_block(data);
    assert(compressed_block(data) + seq![] =~= compressed_block(data));
    assert(raw_block(data) + seq![] =~= raw_block(data));
    assert(decode_stream(seq![]) == Ok::<Seq<u8>, LzError>(seq![]));
    assert(one.skip(one.len() as int) =~= seq![]);
    assert(data + seq![] =~= data);
}

/// The last block of a stream.
proof fn lemma_stream_last(data: Seq<u8>, near_random: bool)
    requires
        data.len() <= u32::MAX,
    ensures
        decode_stream(chunk_block(data, near_random)) == Ok::<Seq<u8>, LzError>(data),
{
    let none = Seq::<u8>::empty();
    lemma_stream_cons(data, near_random, none);
    let block = chunk_block(data, near_random);
    assert(block + none =~= block);
    assert(data + none =~= data);
    assert(decode_stream(none) == Ok::<Seq<u8>, LzError>(none));
}

#[verifier::spinoff_prover]
proof fn lemma_chunk_blocks_roundtrip(data: Seq<u8>, near_random: Seq<bool>, i: nat)
    requires
        i * LZ77_GLOBAL_CHUNK_SIZE <= data.len(),
    ensures
        decode_stream(chunk_blocks(data, near_random, i)) == Ok::<Seq<u8>, LzError>(
            data.skip(i * LZ77_GLOBAL_CHUNK_SIZE),
        ),
    decreases data.len() - i * LZ77_GLOBAL_CHUNK_SIZE,
{
    let start = i * LZ77_GLOBAL_CHUNK_SIZE;
    if start >= data.len() {
        assert(data.skip(start) =~= seq![]);
    } else if data.len() - start <= LZ77_GLOBAL_CHUNK_SIZE {
        lemma_stream_last(data.skip(start), near_random[i as int]);
    } else {
        let here = data.subrange(start, start + LZ77_GLOBAL_CHUNK_SIZE);
        let rest = chunk_blocks(data, near_random, i + 1);
        lemma_chunk_blocks_roundtrip(data, near_random, i + 1);
        lemma_stream_cons(here, near_random[i as int], rest);
        assert(chunk_blocks(data, near_random, i) == chunk_block(here, near_random[i as int])
            + rest);
        assert(here + data.skip(start + LZ77_GLOBAL_CHUNK_SIZE) =~= data.skip(start));
    }
}

/// What `lz77_compress_chunked` writes, `lz77_decompress_stream` reads back, whatever the
/// entropies of the chunks.
pub proof fn lemma_stream_roundtrip(data: Seq<u8>, near_random: Seq<bool>)
    ensures
        decode_stream(compressed_stream(data, near_random)) == Ok::<Seq<u8>, LzError>(data),
{
    if data.len() <= LZ77_GLOBAL_CHUNK_SIZE {
        lemma_stream_cons(data, false, seq![]);
    } else {
        lemma_chunk_blocks_roundtrip(data, near_random, 0);
        assert(data.skip(0) =~= data);
    }
}

/// A chunk is stored compressed exactly where that is shorter than the chunk, and it has 512 repeated
/// groups or more and is not near random over all byte values.
pub proof fn lemma_chunk_stored(data: Seq<u8>, near_random: bool)
    ensures
        ({
            let tried = repetition_score(data) >= 512 && !(near_random && forall|b: u8|
                data.contains(b));
            &&& tried && compressed_block(data).len() < data.len() ==> chunk_block(
                data,
                near_random,
            ) == compressed_block(data)
            &&& !(tried && compressed_block(data).len() < data.len()) ==> chunk_block(
                data,
                near_random,
            ) == raw_block(data)
        }),
        chunk_block(data, near_random).len() <= raw_block(data).len(),
{
}

/// An input of up to 4194304 bytes is one block, the shorter one; a longer one has a block for each
/// piece of that many bytes.
pub proof fn lemma_stream_cut(data: Seq<u8>, near_random: Seq<bool>, i: nat)
    ensures
        data.len() <= 4194304 && compressed_block(data).len() < data.len() ==> compressed_stream(
            data,
            near_random,
        ) == compressed_block(data),
        data.len() <= 4194304 && compressed_block(data).len() >= data.len() ==> compressed_stream(
            data,
            near_random,
        ) == raw_block(data),
        data.len() > 4194304 * (i + 1) ==> chunk_blocks(data, near_random, i) == chunk_block(
            data.subrange(4194304 * i as int, 4194304 * (i as int + 1)),
            near_random[i as int],
        ) + chunk_blocks(data, near_random, i + 1),
{
}

/// The repetitions add up over a list of groups, and each group counts its occurrences but for one.
pub proof fn lemma_repeats_step(list: Seq<Counted>, k: nat)
    requires
        k < list.len(),
        list[k as int].count >= 1,
    ensures
        repeats(list, 0) == 0,
        repeats(list, k + 1) + 1 == repeats(list, k) + list[k as int].count,
{
}

/// Only the first 262144 bytes count for the repetitions.
pub proof fn lemma_score_of_front(a: Seq<u8>, b: Seq<u8>)
    requires
        a.len() >= 262144,
        b.len() >= 262144,
        a.take(262144) == b.take(262144),
    ensures
        repetition_score(a) == repetition_score(b),
        repetition_score(a) == repetition_score(a.take(262144)),
{
    assert(a.take(262144).take(262144) =~= a.take(262144));
}

proof fn lemma_repeats_are_surplus(list: Seq<Counted>, k: nat)
    requires
        k <= list.len(),
        forall|i: int| 0 <= i < list.len() ==> (#[trigger] list[i]).count >= 1,
    ensures
        repeats(list, k) == surplus(list, k),
    decreases k,
{
    if k > 0 {
        lemma_repeats_are_surplus(list, (k - 1) as nat);
        assert(list[k - 1].count >= 1);
    }
}

/// The score of a chunk of 8 to 262144 bytes is the number of its four-byte groups less that of the
/// different ones among them.
pub proof fn lemma_score_is_repeats(data: Seq<u8>)
    requires
        8 <= data.len() <= 262144,
    ensures
        repetition_score(data) + different_windows(data, 4, (data.len() - 3) as nat) == data.len()
            - 3,
{
    assert(data.take(data.len() as int) =~= data);
    lemma_repeats_counted(data, 4);
    lemma_frequent_windows(data, 4, 2);
    let list = frequent_windows(data, 4, 2);
    lemma_repeats_are_surplus(list, list.len());
}

} // verus!
