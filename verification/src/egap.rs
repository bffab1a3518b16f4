//! Entropy coding with a prefix-free table that travels in front of the bits.

use std::collections::HashMap;
use vstd::arithmetic::power::pow;
use vstd::arithmetic::power2::{
    lemma2_to64, lemma_pow2_adds, lemma_pow2_pos, lemma_pow2_strictly_increases, lemma_pow2_unfold,
    pow2,
};
use vstd::prelude::*;

use crate::bits::{
    bytes_bits, lemma_bytes_bits_len, lemma_bytes_bits_of_pack, lemma_nat_bits_concat,
    lemma_nat_bits_len, nat_bits, pack_bits, pad_len, BitReader, BitWriter,
};
use crate::bytes::{
    copy_of, le_bytes, le_value, lemma_le_bytes_len, lemma_le_digits, lemma_le_roundtrip,
    lemma_le_value_bound, lemma_pow256_values, pow256, push_le, read_le,
};
use crate::egap_codes::{
    build_egap_codes, clash, egap_codes, is_prefix, lemma_egap_codes_full, lemma_egap_codes_ok,
    lemma_ranked, ranked, symbols_of, words_of, words_ok, EgapCode,
};

verus! {

broadcast use vstd::std_specs::hash::group_hash_axioms;

/// The four bytes that every coded block begins with.
pub open spec fn egap_magic() -> Seq<u8> {
    seq![0x45u8, 0x47u8, 0x41u8, 0x50u8]
}

/// An entry of the table: symbol, length, and the word in four bytes.
pub open spec fn code_bytes(code: EgapCode) -> Seq<u8> {
    seq![code.symbol, code.code_len] + le_bytes(code.code_bits as nat, 4)
}

pub open spec fn table_bytes(codes: Seq<EgapCode>) -> Seq<u8>
    decreases codes.len(),
{
    if codes.len() == 0 {
        seq![]
    } else {
        table_bytes(codes.drop_last()) + code_bytes(codes.last())
    }
}

/// What stands in front of the bits: magic, size of the data in four bytes, number of entries,
/// number of filling bits, entries.
pub open spec fn header_bytes(codes: Seq<EgapCode>, size: nat, padding: u8) -> Seq<u8> {
    egap_magic() + le_bytes(size, 4) + seq![(codes.len() % 256) as u8, padding] + table_bytes(codes)
}

/// Why a coded block cannot be read.
#[derive(Clone, Copy, Debug, PartialEq, Eq, Structural)]
pub enum EgapError {
    MissingMagic,
    TruncatedHeader,
    CodeTooDeep,
    WalkedOffTree,
    SizeMismatch { found: usize, expected: usize },
    SegmentTruncated { index: usize, need: usize, offset: usize, have: usize },
}

/// The table entry at `at`.
pub open spec fn code_at(data: Seq<u8>, at: int) -> EgapCode {
    EgapCode {
        symbol: data[at],
        code_len: data[at + 1],
        code_bits: le_value(data.subrange(at + 2, at + 6)) as u32,
    }
}

pub open spec fn table_at(data: Seq<u8>, n: nat) -> Seq<EgapCode> {
    Seq::new(n, |i: int| code_at(data, 10 + 6 * i))
}

/// A header's table, size of the data, number of filling bits, and length of the header.
pub open spec fn parse_header(data: Seq<u8>) -> Result<(Seq<EgapCode>, nat, u8, nat), EgapError> {
    if data.len() < 10 || data.take(4) != egap_magic() {
        Err(EgapError::MissingMagic)
    } else {
        let n = data[8] as nat;
        if data.len() < 10 + 6 * n {
            Err(EgapError::TruncatedHeader)
        } else {
            Ok((table_at(data, n), le_value(data.subrange(4, 8)), data[9], 10 + 6 * n))
        }
    }
}

proof fn lemma_table_bytes(codes: Seq<EgapCode>)
    ensures
        table_bytes(codes).len() == 6 * codes.len(),
        forall|i: int|
            0 <= i < codes.len() ==> #[trigger] code_at(table_bytes(codes), 6 * i) == codes[i],
    decreases codes.len(),
{
    if codes.len() > 0 {
        let shorter = codes.drop_last();
        lemma_table_bytes(shorter);
        let last = codes.last();
        lemma_le_bytes_len(last.code_bits as nat, 4);
        lemma_pow256_values();
        lemma_le_roundtrip(last.code_bits as nat, 4);
        let t = table_bytes(codes);
        assert forall|i: int| 0 <= i < codes.len() implies #[trigger] code_at(t, 6 * i)
            == codes[i] by {
            if i < shorter.len() {
                let s = table_bytes(shorter);
                assert(code_at(s, 6 * i) == shorter[i]);
                assert(t.subrange(6 * i + 2, 6 * i + 6) =~= s.subrange(6 * i + 2, 6 * i + 6));
            } else {
                assert(t.subrange(6 * i + 2, 6 * i + 6) =~= le_bytes(last.code_bits as nat, 4));
            }
        }
    }
}

/// A header is read back as what it was made of, whatever stands behind it.
pub proof fn lemma_parse_header(codes: Seq<EgapCode>, size: nat, padding: u8, rest: Seq<u8>)
    requires
        codes.len() <= 255,
        size <= u32::MAX,
    ensures
        parse_header(header_bytes(codes, size, padding) + rest) == Ok::<
            (Seq<EgapCode>, nat, u8, nat),
            EgapError,
        >((codes, size, padding, 10 + 6 * codes.len())),
        header_bytes(codes, size, padding).len() == 10 + 6 * codes.len(),
{
    let h = header_bytes(codes, size, padding);
    let all = h + rest;
    lemma_le_bytes_len(size, 4);
    lemma_pow256_values();
    lemma_le_roundtrip(size, 4);
    lemma_table_bytes(codes);
    assert(all.take(4) =~= egap_magic());
    assert(all.subrange(4, 8) =~= le_bytes(size, 4));
    let t = table_bytes(codes);
    assert forall|i: int| 0 <= i < codes.len() implies #[trigger] table_at(all, codes.len())[i]
        == codes[i] by {
        assert(code_at(t, 6 * i) == codes[i]);
        assert(all.subrange(10 + 6 * i + 2, 10 + 6 * i + 6) =~= t.subrange(6 * i + 2, 6 * i + 6));
    }
    assert(table_at(all, codes.len()) =~= codes);
}

/// The header for a table, the size of the data and the number of filling bits.
pub fn serialize_egap_header(codes: &[EgapCode], original_size: u32, padding_bits: u8) -> (hdr: Vec<
    u8,
>)
    ensures
        hdr@ == header_bytes(codes@, original_size as nat, padding_bits),
{
    let mut hdr: Vec<u8> = Vec::new();
    hdr.push(0x45);
    hdr.push(0x47);
    hdr.push(0x41);
    hdr.push(0x50);
    push_le(&mut hdr, original_size as u64, 4);
    hdr.push((codes.len() % 256) as u8);
    hdr.push(padding_bits);
    let ghost front = hdr@;
    let mut i: usize = 0;
    assert(front + table_bytes(codes@.take(0)) =~= front);
    while i < codes.len()
        invariant
            i <= codes@.len(),
            hdr@ == front + table_bytes(codes@.take(i as int)),
        decreases codes@.len() - i,
    {
        let c = codes[i];
        let ghost before = hdr@;
        hdr.push(c.symbol);
        hdr.push(c.code_len);
        push_le(&mut hdr, c.code_bits as u64, 4);
        proof {
            assert(codes@.take(i + 1).drop_last() =~= codes@.take(i as int));
            assert(hdr@ =~= before + code_bytes(c));
            assert(hdr@ =~= front + table_bytes(codes@.take(i + 1)));
        }
        i += 1;
    }
    proof {
        assert(codes@.take(i as int) =~= codes@);
        assert(hdr@ =~= header_bytes(codes@, original_size as nat, padding_bits));
    }
    hdr
}

/// A header's table, size of the data, number of filling bits, and length of the header.
pub fn deserialize_egap_header(data: &[u8]) -> (r: Result<
    (Vec<EgapCode>, u32, u8, usize),
    EgapError,
>)
    ensures
        match r {
            Ok((codes, size, padding, n)) => parse_header(data@) == Ok::<
                (Seq<EgapCode>, nat, u8, nat),
                EgapError,
            >((codes@, size as nat, padding, n as nat)) && n <= data.len(),
            Err(e) => parse_header(data@) == Err::<(Seq<EgapCode>, nat, u8, nat), EgapError>(e),
        },
{
    if data.len() < 10 {
        return Err(EgapError::MissingMagic);
    }
    if data[0] != 0x45 || data[1] != 0x47 || data[2] != 0x41 || data[3] != 0x50 {
        assert(data@.take(4)[0] == data@[0] && data@.take(4)[1] == data@[1] && data@.take(4)[2]
            == data@[2] && data@.take(4)[3] == data@[3]);
        return Err(EgapError::MissingMagic);
    }
    assert(data@.take(4) =~= egap_magic());
    proof {
        lemma_le_value_bound(data@.subrange(4, 8));
        lemma_pow256_values();
    }
    let original_size = read_le(data, 4, 4) as u32;
    let num_symbols = data[8] as usize;
    let padding_bits = data[9];
    let total = 10 + num_symbols * 6;
    if data.len() < total {
        return Err(EgapError::TruncatedHeader);
    }
    let mut codes: Vec<EgapCode> = Vec::with_capacity(num_symbols);
    let mut i: usize = 0;
    while i < num_symbols
        invariant
            i <= num_symbols <= 255,
            10 + num_symbols * 6 <= data.len(),
            codes@ =~= table_at(data@, i as nat),
        decreases num_symbols - i,
    {
        let off = 10 + 6 * i;
        proof {
            lemma_le_value_bound(data@.subrange(off + 2, off + 6));
            lemma_pow256_values();
        }
        let code_bits = read_le(data, off + 2, 4) as u32;
        codes.push(EgapCode { symbol: data[off], code_len: data[off + 1], code_bits });
        i += 1;
    }
    Ok((codes, original_size, padding_bits, total))
}

/// The word of `b`; no bits where the table has none.
pub open spec fn word_for(codes: Seq<EgapCode>, b: u8) -> Seq<bool>
    decreases codes.len(),
{
    if codes.len() == 0 {
        seq![]
    } else if codes.last().symbol == b {
        codes.last().word()
    } else {
        word_for(codes.drop_last(), b)
    }
}

/// The words of the bytes of `data`, one behind the other.
pub open spec fn data_bits(codes: Seq<EgapCode>, data: Seq<u8>) -> Seq<bool>
    decreases data.len(),
{
    if data.len() == 0 {
        seq![]
    } else {
        word_for(codes, data[0]) + data_bits(codes, data.skip(1))
    }
}

/// `data` as it is, behind a header with an empty table.
pub open spec fn stored_block(data: Seq<u8>) -> Seq<u8> {
    header_bytes(seq![], data.len(), 0) + data
}

/// `data` as words, behind a header with their table.
pub open spec fn coded_block(data: Seq<u8>) -> Seq<u8> {
    let bits = data_bits(egap_codes(data), data);
    header_bytes(egap_codes(data), data.len(), pad_len(bits.len()) as u8) + pack_bits(bits)
}

/// The coded block, if it is shorter than the data; else the stored one.
pub open spec fn egap_block(data: Seq<u8>) -> Seq<u8> {
    if coded_block(data).len() >= data.len() {
        stored_block(data)
    } else {
        coded_block(data)
    }
}

/// What stands above the digits that are written makes no difference.
proof fn lemma_le_bytes_above(r: nat, q: nat, n: nat)
    ensures
        le_bytes(r + q * pow256(n), n) == le_bytes(r, n),
    decreases n,
{
    if n > 0 {
        let m = (n - 1) as nat;
        let x = q * pow256(m);
        assert(q * pow256(n) == 256 * x) by (nonlinear_arith)
            requires
                pow256(n) == 256 * pow256(m),
                x == q * pow256(m),
        ;
        let v = r + 256 * x;
        assert(v % 256 == r % 256);
        assert(v / 256 == r / 256 + x);
        lemma_le_bytes_above(r / 256, q, m);
    }
}

proof fn lemma_le_bytes_mod(v: nat)
    ensures
        le_bytes(v, 4) == le_bytes(v % 0x1_0000_0000, 4),
{
    reveal_with_fuel(pow256, 5);
    assert(pow256(4) == 0x1_0000_0000);
    lemma_le_bytes_above(v % 0x1_0000_0000, v / 0x1_0000_0000, 4);
}

/// The arrays give the word of `b`.
spec fn entry_ok(lens: Seq<u8>, words: Seq<u32>, codes: Seq<EgapCode>, b: u8) -> bool {
    &&& lens[b as int] <= 8
    &&& words[b as int] < pow2(lens[b as int] as nat)
    &&& nat_bits(words[b as int] as nat, lens[b as int] as nat) == word_for(codes, b)
}

/// Codes `data` with a table of its own, or stores it where that would not be shorter.
pub fn entropy_encode(data: &[u8]) -> (out: Vec<u8>)
    ensures
        out@ == egap_block(data@),
{
    let codes = build_egap_codes(data);
    let ghost table = codes@;
    let mut lens: [u8; 256] = [0u8; 256];
    let mut words: [u32; 256] = [0u32; 256];
    let mut k: usize = 0;
    proof {
        lemma2_to64();
    }
    while k < codes.len()
        invariant
            k <= codes@.len(),
            codes@ == table,
            words_ok(words_of(table)),
            forall|b: u8| #[trigger] entry_ok(lens@, words@, table.take(k as int), b),
        decreases codes@.len() - k,
    {
        let c = codes[k];
        let ghost before = table.take(k as int);
        proof {
            assert(words_of(table)[k as int] == (c.code_bits, c.code_len));
            assert(table.take(k + 1).drop_last() =~= before);
        }
        let ghost lens0 = lens@;
        let ghost words0 = words@;
        lens[c.symbol as usize] = c.code_len;
        words[c.symbol as usize] = c.code_bits;
        proof {
            assert forall|b: u8| #[trigger] entry_ok(lens@, words@, table.take(k + 1), b) by {
                assert(entry_ok(lens0, words0, before, b));
            }
        }
        k += 1;
    }
    assert(table.take(k as int) =~= table);
    let mut writer = BitWriter::with_capacity(data.len());
    let mut i: usize = 0;
    proof {
        assert(data@.skip(0) =~= data@);
        assert(writer.bits() + data_bits(table, data@) =~= data_bits(table, data@));
    }
    while i < data.len()
        invariant
            i <= data@.len(),
            writer.wf(),
            forall|b: u8| #[trigger] entry_ok(lens@, words@, table, b),
            writer.bits() + data_bits(table, data@.skip(i as int)) == data_bits(table, data@),
        decreases data@.len() - i,
    {
        let b = data[i];
        let ghost before = writer.bits();
        proof {
            assert(entry_ok(lens@, words@, table, b));
            assert(data@.skip(i as int).skip(1) =~= data@.skip(i + 1));
        }
        writer.write_bits(words[b as usize], lens[b as usize]);
        assert(writer.bits() + data_bits(table, data@.skip(i + 1)) =~= before + (word_for(table, b)
            + data_bits(table, data@.skip(i + 1))));
        i += 1;
    }
    assert(data@.skip(i as int) =~= seq![]);
    assert(writer.bits() =~= data_bits(table, data@));
    let (payload, padding) = writer.finish();
    let size = (data.len() as u64 % 0x1_0000_0000) as u32;
    proof {
        lemma_le_bytes_mod(data@.len());
    }
    let mut out = serialize_egap_header(&codes, size, padding);
    out.extend_from_slice(&payload);
    assert(out@ =~= coded_block(data@));
    if out.len() >= data.len() {
        let empty: Vec<EgapCode> = Vec::new();
        let mut stored = serialize_egap_header(&empty, size, 0);
        stored.extend_from_slice(data);
        assert(empty@ =~= seq![]);
        assert(stored@ =~= stored_block(data@));
        return stored;
    }
    out
}

/// The symbol whose word is `path`, the last such entry's.
pub open spec fn symbol_at(codes: Seq<EgapCode>, path: Seq<bool>) -> Option<u8>
    decreases codes.len(),
{
    if codes.len() == 0 {
        None
    } else if codes.last().word() == path {
        Some(codes.last().symbol)
    } else {
        symbol_at(codes.drop_last(), path)
    }
}

/// The length of the longest word.
pub open spec fn max_len(codes: Seq<EgapCode>) -> nat
    decreases codes.len(),
{
    if codes.len() == 0 {
        0
    } else {
        let m = max_len(codes.drop_last());
        if codes.last().code_len > m {
            codes.last().code_len as nat
        } else {
            m
        }
    }
}

/// How deep the decoder may go: as deep as the longest word, one step at least.
pub open spec fn depth_limit(codes: Seq<EgapCode>) -> nat {
    if max_len(codes) < 1 {
        1
    } else {
        max_len(codes)
    }
}

/// What the bits from `at` on say behind `out`, with `path` read since the last symbol, until
/// `size` bytes are there or the bits end.
pub open spec fn walk(
    codes: Seq<EgapCode>,
    bits: Seq<bool>,
    at: nat,
    path: Seq<bool>,
    out: Seq<u8>,
    size: nat,
) -> Result<Seq<u8>, EgapError>
    decreases bits.len() - at,
{
    if out.len() >= size || at >= bits.len() {
        if out.len() == size {
            Ok(out)
        } else {
            Err(EgapError::SizeMismatch { found: out.len() as usize, expected: size as usize })
        }
    } else {
        let longer = path.push(bits[at as int]);
        if longer.len() > depth_limit(codes) {
            Err(EgapError::WalkedOffTree)
        } else {
            match symbol_at(codes, longer) {
                Some(symbol) => walk(codes, bits, at + 1, seq![], out.push(symbol), size),
                None => walk(codes, bits, at + 1, longer, out, size),
            }
        }
    }
}

/// The bits of `payload` without `padding` at its end.
pub open spec fn coded_bits(payload: Seq<u8>, padding: u8) -> Seq<bool> {
    let all = bytes_bits(payload);
    all.take(
        if all.len() < padding {
            0
        } else {
            all.len() - padding
        },
    )
}

/// What a coded block holds. A table with a word of more than 32 bits is too deep.
pub open spec fn egap_decode(data: Seq<u8>) -> Result<Seq<u8>, EgapError> {
    match parse_header(data) {
        Err(e) => Err(e),
        Ok((codes, size, padding, n)) => if codes.len() == 0 {
            Ok(data.skip(n as int))
        } else if max_len(codes) > 32 {
            Err(EgapError::CodeTooDeep)
        } else {
            walk(codes, coded_bits(data.skip(n as int), padding), 0, seq![], seq![], size)
        },
    }
}

/// The number of a node of the decoder's tree: the root is one, and below `n` come `2 n` and
/// `2 n + 1`.
spec fn node(path: Seq<bool>) -> nat
    decreases path.len(),
{
    if path.len() == 0 {
        1
    } else {
        2 * node(path.drop_last()) + if path.last() {
            1nat
        } else {
            0
        }
    }
}

proof fn lemma_node_bounds(path: Seq<bool>)
    ensures
        pow2(path.len()) <= node(path) < 2 * pow2(path.len()),
    decreases path.len(),
{
    lemma2_to64();
    if path.len() > 0 {
        lemma_node_bounds(path.drop_last());
        lemma_pow2_unfold(path.len());
    }
}

proof fn lemma_node_injective(a: Seq<bool>, b: Seq<bool>)
    requires
        node(a) == node(b),
    ensures
        a == b,
    decreases a.len(),
{
    lemma_node_bounds(a);
    lemma_node_bounds(b);
    if a.len() == 0 {
        lemma2_to64();
        if b.len() > 0 {
            lemma_pow2_strictly_increases(0, b.len());
        }
        assert(a =~= b);
    } else if b.len() == 0 {
        lemma2_to64();
        lemma_pow2_strictly_increases(0, a.len());
    } else {
        lemma_node_injective(a.drop_last(), b.drop_last());
        assert(a =~= a.drop_last().push(a.last()));
        assert(b =~= b.drop_last().push(b.last()));
    }
}

proof fn lemma_node_of_nat_bits(v: nat, n: nat)
    ensures
        node(nat_bits(v, n)) == pow2(n) + v % pow2(n),
    decreases n,
{
    lemma2_to64();
    lemma_nat_bits_len(v, n);
    if n > 0 {
        lemma_node_of_nat_bits(v / 2, (n - 1) as nat);
        assert(nat_bits(v, n).drop_last() =~= nat_bits(v / 2, (n - 1) as nat));
        lemma_pow2_unfold(n);
        let p = pow2((n - 1) as nat);
        lemma_pow2_pos((n - 1) as nat);
        vstd::arithmetic::div_mod::lemma_mod_breakdown(v as int, 2, p as int);
        assert(v % (2 * p) == 2 * ((v / 2) % p) + v % 2);
    }
}

proof fn lemma_max_len(codes: Seq<EgapCode>)
    ensures
        forall|i: int| 0 <= i < codes.len() ==> (#[trigger] codes[i]).code_len <= max_len(codes),
        max_len(codes) <= 255,
    decreases codes.len(),
{
    if codes.len() > 0 {
        lemma_max_len(codes.drop_last());
        assert forall|i: int| 0 <= i < codes.len() implies (#[trigger] codes[i]).code_len
            <= max_len(codes) by {
            if i < codes.len() - 1 {
                assert(codes.drop_last()[i] == codes[i]);
            }
        }
    }
}

/// The symbols by the nodes that their words lead to.
fn build_tree(codes: &Vec<EgapCode>) -> (tree: HashMap<u64, u8>)
    requires
        max_len(codes@) <= 32,
    ensures
        forall|path: Seq<bool>|
            path.len() <= 32 ==> node(path) <= u64::MAX && #[trigger] symbol_at(codes@, path) == (
            if tree@.contains_key(node(path) as u64) {
                Some(tree@[node(path) as u64])
            } else {
                None
            }),
{
    let mut tree: HashMap<u64, u8> = HashMap::new();
    let mut i: usize = 0;
    proof {
        lemma2_to64();
        lemma_max_len(codes@);
        assert forall|path: Seq<bool>| path.len() <= 32 implies node(path) <= u64::MAX by {
            lemma_node_bounds(path);
            if path.len() < 32 {
                lemma_pow2_strictly_increases(path.len(), 32);
            }
        }
    }
    while i < codes.len()
        invariant
            i <= codes@.len(),
            forall|k: int| 0 <= k < codes@.len() ==> (#[trigger] codes@[k]).code_len <= 32,
            forall|path: Seq<bool>| path.len() <= 32 ==> (#[trigger] node(path)) <= u64::MAX,
            forall|path: Seq<bool>|
                path.len() <= 32 ==> #[trigger] symbol_at(codes@.take(i as int), path) == (
                if tree@.contains_key(node(path) as u64) {
                    Some(tree@[node(path) as u64])
                } else {
                    None
                }),
        decreases codes@.len() - i,
    {
        let c = codes[i];
        let len = c.code_len as u64;
        let ghost before = tree@;
        proof {
            lemma2_to64();
            lemma_pow2_pos(len as nat);
            if len < 32 {
                lemma_pow2_strictly_increases(len as nat, 32);
            }
            assert(1u64 * pow2(len as nat) == pow2(len as nat));
            vstd::bits::lemma_u64_shl_is_mul(1, len);
            lemma_node_of_nat_bits(c.code_bits as nat, len as nat);
            lemma_nat_bits_len(c.code_bits as nat, len as nat);
        }
        let top: u64 = 1u64 << len;
        let key = top + c.code_bits as u64 % top;
        tree.insert(key, c.symbol);
        proof {
            assert(codes@.take(i + 1).drop_last() =~= codes@.take(i as int));
            assert forall|path: Seq<bool>| path.len() <= 32 implies #[trigger] symbol_at(
                codes@.take(i + 1),
                path,
            ) == (if tree@.contains_key(node(path) as u64) {
                Some(tree@[node(path) as u64])
            } else {
                None
            }) by {
                assert(symbol_at(codes@.take(i as int), path) == symbol_at(
                    codes@.take(i as int),
                    path,
                ));
                assert(node(path) <= u64::MAX);
                if node(path) == key {
                    lemma_node_injective(path, c.word());
                }
            }
        }
        i += 1;
    }
    assert(codes@.take(i as int) =~= codes@);
    tree
}

fn longest_word(codes: &Vec<EgapCode>) -> (m: u8)
    ensures
        m as nat == max_len(codes@),
{
    let mut m: u8 = 0;
    let mut i: usize = 0;
    while i < codes.len()
        invariant
            i <= codes@.len(),
            m as nat == max_len(codes@.take(i as int)),
        decreases codes@.len() - i,
    {
        assert(codes@.take(i + 1).drop_last() =~= codes@.take(i as int));
        if codes[i].code_len > m {
            m = codes[i].code_len;
        }
        i += 1;
    }
    assert(codes@.take(i as int) =~= codes@);
    m
}

/// What a coded block holds.
pub fn entropy_decode(data: &[u8]) -> (r: Result<Vec<u8>, EgapError>)
    ensures
        match r {
            Ok(out) => egap_decode(data@) == Ok::<Seq<u8>, EgapError>(out@),
            Err(e) => egap_decode(data@) == Err::<Seq<u8>, EgapError>(e),
        },
{
    let (codes, size, padding, hdr_len) = match deserialize_egap_header(data) {
        Ok(h) => h,
        Err(e) => {
            return Err(e);
        },
    };
    let payload = &data[hdr_len..data.len()];
    assert(payload@ =~= data@.skip(hdr_len as int));
    if codes.len() == 0 {
        return Ok(copy_of(payload));
    }
    let deepest = longest_word(&codes);
    if deepest > 32 {
        return Err(EgapError::CodeTooDeep);
    }
    let limit: u8 = if deepest < 1 {
        1
    } else {
        deepest
    };
    let tree = build_tree(&codes);
    let size = size as usize;
    let ghost bits = coded_bits(payload@, padding);
    let ghost table = codes@;
    proof {
        lemma_bytes_bits_len(payload@);
        lemma2_to64();
    }
    let all_bits: u128 = payload.len() as u128 * 8;
    let mut left: u128 = if all_bits < padding as u128 {
        0
    } else {
        all_bits - padding as u128
    };
    let mut reader = BitReader::new(payload);
    let mut out: Vec<u8> = Vec::with_capacity(size);
    let mut key: u64 = 1;
    let mut depth: u8 = 0;
    let ghost mut path = Seq::<bool>::empty();
    while out.len() < size && left > 0
        invariant
            reader.wf(),
            reader.stream() == bytes_bits(payload@),
            bits == coded_bits(payload@, padding),
            left == bits.len() - reader.pos(),
            depth <= limit,
            1 <= limit <= 32,
            limit as nat == depth_limit(table),
            path.len() == depth,
            key as nat == node(path),
            forall|path: Seq<bool>|
                path.len() <= 32 ==> node(path) <= u64::MAX && #[trigger] symbol_at(table, path)
                    == (if tree@.contains_key(node(path) as u64) {
                    Some(tree@[node(path) as u64])
                } else {
                    None
                }),
            egap_decode(data@) == walk(table, bits, reader.pos(), path, out@, size as nat),
        decreases left,
    {
        match reader.read_bit() {
            Ok(bit) => {
                left = left - 1;
                let ghost longer = path.push(bits[reader.pos() - 1]);
                assert(longer.drop_last() =~= path);
                if depth == limit {
                    return Err(EgapError::WalkedOffTree);
                }
                proof {
                    lemma_node_bounds(path);
                    lemma2_to64();
                    if depth < 32 {
                        lemma_pow2_strictly_increases(depth as nat, 32);
                    }
                    assert(symbol_at(table, longer) == symbol_at(table, longer));
                }
                key = 2 * key + bit as u64;
                depth = depth + 1;
                match tree.get(&key) {
                    Some(symbol) => {
                        out.push(*symbol);
                        key = 1;
                        depth = 0;
                        proof {
                            path = seq![];
                        }
                    },
                    None => {
                        proof {
                            path = longer;
                        }
                    },
                }
            },
            Err(_) => {
                assert(false);
            },
        }
    }
    if out.len() != size {
        return Err(EgapError::SizeMismatch { found: out.len(), expected: size });
    }
    Ok(out)
}

proof fn lemma_symbol_at_none(codes: Seq<EgapCode>, path: Seq<bool>)
    requires
        forall|i: int| 0 <= i < codes.len() ==> (#[trigger] codes[i]).word() != path,
    ensures
        symbol_at(codes, path) is None,
    decreases codes.len(),
{
    if codes.len() > 0 {
        assert(codes[codes.len() - 1].word() != path);
        assert forall|i: int| 0 <= i < codes.len() - 1 implies (
        #[trigger] codes.drop_last()[i]).word() != path by {
            assert(codes[i].word() != path);
        }
        lemma_symbol_at_none(codes.drop_last(), path);
    }
}

proof fn lemma_symbol_at_some(codes: Seq<EgapCode>, i: int)
    requires
        0 <= i < codes.len(),
        forall|j: int| i < j < codes.len() ==> (#[trigger] codes[j]).word() != codes[i].word(),
    ensures
        symbol_at(codes, codes[i].word()) == Some(codes[i].symbol),
    decreases codes.len(),
{
    if i < codes.len() - 1 {
        assert(codes[codes.len() - 1].word() != codes[i].word());
        assert forall|j: int| i < j < codes.len() - 1 implies (
        #[trigger] codes.drop_last()[j]).word() != codes.drop_last()[i].word() by {
            assert(codes[j].word() != codes[i].word());
        }
        lemma_symbol_at_some(codes.drop_last(), i);
    }
}

proof fn lemma_word_for(codes: Seq<EgapCode>, i: int)
    requires
        0 <= i < codes.len(),
        symbols_of(codes).no_duplicates(),
    ensures
        word_for(codes, codes[i].symbol) == codes[i].word(),
    decreases codes.len(),
{
    let s = symbols_of(codes);
    if i < codes.len() - 1 {
        assert(s[i] != s[codes.len() - 1]);
        assert(symbols_of(codes.drop_last()) =~= s.drop_last());
        lemma_word_for(codes.drop_last(), i);
    }
}

/// The first bits of a word are the word of another entry only if that entry is a prefix.
proof fn lemma_word_prefix(a: EgapCode, b: EgapCode)
    requires
        1 <= a.code_len <= b.code_len,
        a.code_bits < pow2(a.code_len as nat),
        b.code_bits < pow2(b.code_len as nat),
        a.word() == b.word().take(a.code_len as int),
    ensures
        is_prefix(a.code_bits, a.code_len, b.code_bits, b.code_len),
{
    let j = a.code_len as nat;
    let k = (b.code_len - a.code_len) as nat;
    let v = b.code_bits as nat;
    lemma_pow2_pos(k);
    lemma_pow2_adds(j, k);
    vstd::arithmetic::div_mod::lemma_fundamental_div_mod(v as int, pow2(k) as int);
    let q = v / pow2(k);
    assert(q * pow2(k) == pow2(k) * q) by (nonlinear_arith);
    assert(q < pow2(j)) by (nonlinear_arith)
        requires
            pow2(k) * q <= v < pow2(j) * pow2(k),
            pow2(k) > 0,
    ;
    lemma_nat_bits_concat(q, j, v % pow2(k), k);
    lemma_nat_bits_len(q, j);
    assert(b.word().take(j as int) =~= nat_bits(q, j));
    crate::bits::lemma_bits_value_of_nat_bits(q, j);
    crate::bits::lemma_bits_value_of_nat_bits(a.code_bits as nat, j);
}

/// A table that can be decoded: prefix-free, with different symbols.
spec fn decodable(codes: Seq<EgapCode>) -> bool {
    words_ok(words_of(codes)) && symbols_of(codes).no_duplicates()
}

proof fn lemma_no_symbol_inside(codes: Seq<EgapCode>, i: int, j: int)
    requires
        decodable(codes),
        0 <= i < codes.len(),
        0 < j < codes[i].code_len,
    ensures
        symbol_at(codes, codes[i].word().take(j)) is None,
{
    let w = codes[i].word();
    lemma_nat_bits_len(codes[i].code_bits as nat, codes[i].code_len as nat);
    assert forall|k: int| 0 <= k < codes.len() implies (#[trigger] codes[k]).word() != w.take(
        j,
    ) by {
        lemma_nat_bits_len(codes[k].code_bits as nat, codes[k].code_len as nat);
        let words = words_of(codes);
        assert(words[k] == (codes[k].code_bits, codes[k].code_len));
        assert(words[i] == (codes[i].code_bits, codes[i].code_len));
        if codes[k].word() == w.take(j) {
            lemma_word_prefix(codes[k], codes[i]);
            assert(clash(words[k].0, words[k].1, words[i].0, words[i].1));
        }
    }
    lemma_symbol_at_none(codes, w.take(j));
}

proof fn lemma_symbol_of_word(codes: Seq<EgapCode>, i: int)
    requires
        decodable(codes),
        0 <= i < codes.len(),
    ensures
        symbol_at(codes, codes[i].word()) == Some(codes[i].symbol),
{
    let w = codes[i].word();
    lemma_nat_bits_len(codes[i].code_bits as nat, codes[i].code_len as nat);
    assert forall|k: int| i < k < codes.len() implies (#[trigger] codes[k]).word() != w by {
        lemma_nat_bits_len(codes[k].code_bits as nat, codes[k].code_len as nat);
        let words = words_of(codes);
        assert(words[k] == (codes[k].code_bits, codes[k].code_len));
        assert(words[i] == (codes[i].code_bits, codes[i].code_len));
        if codes[k].word() == w {
            assert(w.take(codes[i].code_len as int) =~= w);
            lemma_word_prefix(codes[k], codes[i]);
            assert(clash(words[k].0, words[k].1, words[i].0, words[i].1));
        }
    }
    lemma_symbol_at_some(codes, i);
}

/// Reading a word to its end gives its symbol.
proof fn lemma_walk_word(
    codes: Seq<EgapCode>,
    i: int,
    bits: Seq<bool>,
    start: nat,
    j: nat,
    out: Seq<u8>,
    size: nat,
)
    requires
        decodable(codes),
        0 <= i < codes.len(),
        out.len() < size,
        j < codes[i].code_len,
        start + codes[i].code_len <= bits.len(),
        bits.subrange(start as int, start + codes[i].code_len) == codes[i].word(),
    ensures
        walk(codes, bits, start + j, codes[i].word().take(j as int), out, size) == walk(
            codes,
            bits,
            start + codes[i].code_len as nat,
            seq![],
            out.push(codes[i].symbol),
            size,
        ),
    decreases codes[i].code_len - j,
{
    let w = codes[i].word();
    lemma_nat_bits_len(codes[i].code_bits as nat, codes[i].code_len as nat);
    lemma_max_len(codes);
    assert(bits[(start + j) as int] == bits.subrange(
        start as int,
        start + codes[i].code_len,
    )[j as int]);
    assert(w.take(j as int).push(w[j as int]) =~= w.take((j + 1) as int));
    if j + 1 < codes[i].code_len {
        lemma_no_symbol_inside(codes, i, (j + 1) as int);
        lemma_walk_word(codes, i, bits, start, j + 1, out, size);
    } else {
        assert(w.take((j + 1) as int) =~= w);
        lemma_symbol_of_word(codes, i);
    }
}

proof fn lemma_walk_data(codes: Seq<EgapCode>, before: Seq<bool>, out: Seq<u8>, data: Seq<u8>)
    requires
        decodable(codes),
        forall|b: u8| data.contains(b) ==> symbols_of(codes).contains(b),
    ensures
        walk(
            codes,
            before + data_bits(codes, data),
            before.len(),
            seq![],
            out,
            out.len() + data.len(),
        ) == Ok::<Seq<u8>, EgapError>(out + data),
    decreases data.len(),
{
    let bits = before + data_bits(codes, data);
    if data.len() == 0 {
        assert(out + data =~= out);
    } else {
        let b = data[0];
        let rest = data.skip(1);
        assert(data.contains(b));
        let i = choose|i: int| 0 <= i < symbols_of(codes).len() && symbols_of(codes)[i] == b;
        lemma_word_for(codes, i);
        let w = codes[i].word();
        lemma_nat_bits_len(codes[i].code_bits as nat, codes[i].code_len as nat);
        assert(words_of(codes)[i] == (codes[i].code_bits, codes[i].code_len));
        assert(bits.subrange(before.len() as int, before.len() + codes[i].code_len) =~= w);
        assert(w.take(0) =~= seq![]);
        lemma_walk_word(codes, i, bits, before.len(), 0, out, out.len() + data.len());
        assert(bits =~= (before + w) + data_bits(codes, rest));
        assert forall|c: u8| rest.contains(c) implies symbols_of(codes).contains(c) by {
            let k = choose|k: int| 0 <= k < rest.len() && rest[k] == c;
            assert(data[k + 1] == c);
            assert(data.contains(c));
        }
        lemma_walk_data(codes, before + w, out.push(b), rest);
        assert(out.push(b) + rest =~= out + data);
    }
}

proof fn lemma_eight_bit_words(codes: Seq<EgapCode>, data: Seq<u8>)
    requires
        symbols_of(codes).no_duplicates(),
        forall|i: int| 0 <= i < codes.len() ==> (#[trigger] codes[i]).code_len == 8,
        forall|b: u8| data.contains(b) ==> symbols_of(codes).contains(b),
    ensures
        data_bits(codes, data).len() == 8 * data.len(),
    decreases data.len(),
{
    if data.len() > 0 {
        let b = data[0];
        assert(data.contains(b));
        let i = choose|i: int| 0 <= i < symbols_of(codes).len() && symbols_of(codes)[i] == b;
        lemma_word_for(codes, i);
        lemma_nat_bits_len(codes[i].code_bits as nat, 8);
        let rest = data.skip(1);
        assert forall|c: u8| rest.contains(c) implies symbols_of(codes).contains(c) by {
            let k = choose|k: int| 0 <= k < rest.len() && rest[k] == c;
            assert(data[k + 1] == c);
            assert(data.contains(c));
        }
        lemma_eight_bit_words(codes, rest);
    }
}

/// What `entropy_encode` writes, `entropy_decode` reads back.
pub proof fn lemma_egap_roundtrip(data: Seq<u8>)
    requires
        data.len() <= u32::MAX,
    ensures
        egap_decode(egap_block(data)) == Ok::<Seq<u8>, EgapError>(data),
{
    let codes = egap_codes(data);
    let bits = data_bits(codes, data);
    let packed = pack_bits(bits);
    lemma_egap_codes_ok(data);
    lemma_ranked(data);
    lemma_bytes_bits_of_pack(bits);
    let all = egap_block(data);
    if coded_block(data).len() >= data.len() {
        let none = Seq::<EgapCode>::empty();
        lemma_parse_header(none, data.len(), 0, data);
        assert(all.skip(10) =~= data);
    } else {
        if codes.len() == 256 {
            assert(symbols_of(codes).len() == 256);
            lemma_egap_codes_full(data);
            lemma_eight_bit_words(codes, data);
            assert(false);
        }
        let pad = pad_len(bits.len()) as u8;
        lemma_parse_header(codes, data.len(), pad, packed);
        let hdr = header_bytes(codes, data.len(), pad);
        assert(all.skip(hdr.len() as int) =~= packed);
        assert(coded_bits(packed, pad) =~= bits);
        assert(data.contains(data[0]));
        let b = data[0];
        assert(ranked(data).contains(b));
        assert(codes.len() == symbols_of(codes).len());
        lemma_words_max_len(codes);
        let none = Seq::<bool>::empty();
        let out = Seq::<u8>::empty();
        lemma_walk_data(codes, none, out, data);
        assert(none + bits =~= bits);
        assert(out + data =~= data);
    }
}

proof fn lemma_words_max_len(codes: Seq<EgapCode>)
    requires
        words_ok(words_of(codes)),
    ensures
        max_len(codes) <= 8,
    decreases codes.len(),
{
    if codes.len() > 0 {
        let w = words_of(codes);
        let s = words_of(codes.drop_last());
        assert(s =~= w.drop_last());
        assert(w[codes.len() - 1] == (codes.last().code_bits, codes.last().code_len));
        lemma_words_max_len(codes.drop_last());
    }
}

/// A block is at most ten bytes longer than its data.
pub proof fn lemma_egap_block_len(data: Seq<u8>)
    ensures
        egap_block(data).len() <= data.len() + 10,
        egap_block(data).len() >= 10,
{
    lemma_le_bytes_len(data.len(), 4);
}

/// A block is coded exactly where that is shorter than the data, and otherwise holds the data as they
/// are behind ten bytes: it is never longer than either.
pub proof fn lemma_block_is_shorter(data: Seq<u8>)
    ensures
        coded_block(data).len() < data.len() ==> egap_block(data) == coded_block(data),
        coded_block(data).len() >= data.len() ==> egap_block(data) == stored_block(data)
            && egap_block(data).len() == data.len() + 10 && egap_block(data).skip(10) == data,
        egap_block(data).len() <= stored_block(data).len(),
{
    lemma_le_bytes_len(data.len(), 4);
    assert(table_bytes(seq![]) =~= seq![]);
    assert(stored_block(data).len() == data.len() + 10);
    assert(stored_block(data).skip(10) =~= data);
}

/// The bits of the data add up: of two pieces one behind the other they are one behind the other, and of
/// one byte they are its word.
pub proof fn lemma_bits_add_up(codes: Seq<EgapCode>, a: Seq<u8>, b: Seq<u8>)
    ensures
        data_bits(codes, a + b) == data_bits(codes, a) + data_bits(codes, b),
        a.len() == 1 ==> data_bits(codes, a) == word_for(codes, a[0]),
    decreases a.len(),
{
    if a.len() == 0 {
        assert(a + b =~= b);
        assert(data_bits(codes, a) + data_bits(codes, b) =~= data_bits(codes, b));
    } else {
        assert((a + b).skip(1) =~= a.skip(1) + b);
        lemma_bits_add_up(codes, a.skip(1), b);
        assert(data_bits(codes, a + b) =~= data_bits(codes, a) + data_bits(codes, b));
    }
    if a.len() == 1 {
        reveal_with_fuel(data_bits, 2);
        assert(data_bits(codes, a) =~= word_for(codes, a[0]));
    }
}

/// A coded block begins with `EGAP`, the length of the data in four bytes, the number of words and the
/// number of bits that fill the last byte; each word takes six bytes.
pub proof fn lemma_block_layout(data: Seq<u8>, i: nat)
    ensures
        ({
            let c = coded_block(data);
            let n = egap_codes(data).len();
            &&& c.len() >= 10 + 6 * n
            &&& c[0] == 0x45 && c[1] == 0x47 && c[2] == 0x41 && c[3] == 0x50
            &&& i < 4 ==> c[4 + i as int] == (data.len() / pow(256, i) as nat) % 256
            &&& c[8] == n % 256
            &&& 8 * (c.len() - 10 - 6 * n) - c[9] == data_bits(egap_codes(data), data).len()
        }),
{
    let c = coded_block(data);
    lemma_le_bytes_len(data.len(), 4);
    lemma_table_bytes(egap_codes(data));
    if i < 4 {
        lemma_le_digits(data.len(), 4, i);
        assert(c[4 + i as int] == le_bytes(data.len(), 4)[i as int]);
    }
}

} // verus!
