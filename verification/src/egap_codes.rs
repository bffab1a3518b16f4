//! Prefix-free code tables: the first words of a complete tree, handed out by frequency, then
//! shortened into the gaps of the tree and swapped until no swap saves bits.

use vstd::arithmetic::power2::{
    lemma2_to64, lemma_pow2_adds, lemma_pow2_pos, lemma_pow2_strictly_increases, lemma_pow2_unfold,
    pow2,
};
use vstd::prelude::*;

use crate::bits::nat_bits;
use crate::bytes::{byte_counts, count_of, lemma_count_of_bound};
use crate::kraft::{lemma_egap_codes_complete, weight};
use crate::sort::{lemma_holds_all, lemma_larger_first, lemma_order_desc, order_desc, sort_desc};

verus! {

/// An entry of a code table. The lowest `code_len` bits of `code_bits` are the word of `symbol`.
#[derive(Clone, Copy, Debug, PartialEq, Eq, Structural)]
pub struct EgapCode {
    pub symbol: u8,
    pub code_len: u8,
    pub code_bits: u32,
}

impl EgapCode {
    pub open spec fn word(self) -> Seq<bool> {
        nat_bits(self.code_bits as nat, self.code_len as nat)
    }
}

/// Whether the word `a` is a prefix of the word `b`.
pub open spec fn is_prefix(a_bits: u32, a_len: u8, b_bits: u32, b_len: u8) -> bool {
    ||| a_len == 0
    ||| a_len <= b_len && b_bits as nat / pow2((b_len - a_len) as nat) == a_bits as nat
}

/// Whether one of two words is a prefix of the other.
pub open spec fn clash(a_bits: u32, a_len: u8, b_bits: u32, b_len: u8) -> bool {
    is_prefix(a_bits, a_len, b_bits, b_len) || is_prefix(b_bits, b_len, a_bits, a_len)
}

/// Whether the word `a_bits`, `a_len` is a prefix of the word `b_bits`, `b_len`.
pub fn egap_is_prefix(a_bits: u32, a_len: u8, b_bits: u32, b_len: u8) -> (r: bool)
    requires
        b_len <= 32,
    ensures
        r == is_prefix(a_bits, a_len, b_bits, b_len),
{
    if a_len == 0 {
        return true;
    }
    if a_len > b_len {
        return false;
    }
    let shift: u32 = (b_len - a_len) as u32;
    proof {
        vstd::bits::lemma_u32_shr_is_div(b_bits, shift);
    }
    (b_bits >> shift) == a_bits
}

/// The least number of bits that tells `n` words apart.
pub open spec fn depth_for(n: nat) -> nat {
    choose|d: nat| is_depth_for(n, d)
}

pub open spec fn is_depth_for(n: nat, d: nat) -> bool {
    pow2(d) >= n && (d > 0 ==> pow2((d - 1) as nat) < n)
}

proof fn lemma_depth_for(n: nat, d: nat)
    requires
        is_depth_for(n, d),
    ensures
        depth_for(n) == d,
{
    let e = depth_for(n);
    if e < d {
        if e < d - 1 {
            lemma_pow2_strictly_increases(e, (d - 1) as nat);
        }
    } else if d < e {
        if d < e - 1 {
            lemma_pow2_strictly_increases(d, (e - 1) as nat);
        }
    }
}

/// A word without the zeros at its end, one bit at least.
pub open spec fn cut(bits: nat, len: nat) -> (nat, nat)
    decreases len,
{
    if bits % 2 == 0 && len > 1 {
        cut(bits / 2, (len - 1) as nat)
    } else {
        (bits, len)
    }
}

/// `n` prefix-free words, shortest first: the numbers below `n` in the least sufficient number of
/// bits, the last one cut as far as its siblings are free.
pub open spec fn prefix_codes(n: nat) -> Seq<(u32, u8)> {
    if n == 0 {
        seq![]
    } else if n == 1 {
        seq![(0u32, 1u8)]
    } else {
        let d = depth_for(n);
        let last = cut((n - 1) as nat, d);
        let whole = Seq::new((n - 1) as nat, |i: int| (i as u32, d as u8));
        if last.1 < d {
            seq![(last.0 as u32, last.1 as u8)] + whole
        } else {
            whole.push((last.0 as u32, last.1 as u8))
        }
    }
}

proof fn lemma_cut(bits: nat, len: nat)
    requires
        0 < bits < pow2(len),
        len >= 1,
    ensures
        1 <= cut(bits, len).1 <= len,
        0 < cut(bits, len).0 < pow2(cut(bits, len).1),
        bits == cut(bits, len).0 * pow2((len - cut(bits, len).1) as nat),
    decreases len,
{
    lemma2_to64();
    if bits % 2 == 0 && len > 1 {
        lemma_pow2_unfold(len);
        lemma_cut(bits / 2, (len - 1) as nat);
        let (b, l) = cut(bits, len);
        lemma_pow2_unfold((len - l) as nat);
        let p = pow2((len - 1 - l) as nat);
        assert(2 * (b * p) == b * (2 * p)) by (nonlinear_arith);
    } else {
        assert(bits == bits * pow2(0)) by (nonlinear_arith)
            requires
                pow2(0) == 1,
        ;
    }
}

proof fn lemma_depth_bound(n: nat, d: nat)
    requires
        2 <= n <= 256,
        is_depth_for(n, d),
    ensures
        1 <= d <= 8,
{
    lemma2_to64();
    if d > 8 {
        if d - 1 > 8 {
            lemma_pow2_strictly_increases(8, (d - 1) as nat);
        }
    }
}

/// The words are short, fit their lengths, and none is a prefix of another.
pub open spec fn words_ok(words: Seq<(u32, u8)>) -> bool {
    &&& forall|i: int|
        0 <= i < words.len() ==> 1 <= (#[trigger] words[i]).1 <= 8 && words[i].0 < pow2(
            words[i].1 as nat,
        )
    &&& forall|i: int, j: int|
        0 <= i < words.len() && 0 <= j < words.len() && i != j ==> !clash(
            (#[trigger] words[i]).0,
            words[i].1,
            (#[trigger] words[j]).0,
            words[j].1,
        )
}

pub proof fn lemma_prefix_codes(n: nat)
    requires
        n <= 256,
        n >= 2 ==> is_depth_for(n, depth_for(n)),
    ensures
        prefix_codes(n).len() == n,
        words_ok(prefix_codes(n)),
        n == 256 ==> forall|i: int|
            0 <= i < 256 ==> #[trigger] prefix_codes(n)[i] == (i as u32, 8u8),
{
    lemma2_to64();
    if n >= 2 {
        let d = depth_for(n);
        lemma_depth_bound(n, d);
        lemma_cut((n - 1) as nat, d);
        let last = cut((n - 1) as nat, d);
        let words = prefix_codes(n);
        let p = pow2((d - last.1) as nat);
        lemma_pow2_pos((d - last.1) as nat);
        if n == 256 {
            lemma_depth_for(256, 8);
        }
        let at: int = if last.1 < d {
            0
        } else {
            n - 1
        };
        assert forall|i: int| 0 <= i < n && i != at implies (#[trigger] words[i]).1 == d
            && words[i].0 == (if at == 0 {
            i - 1
        } else {
            i
        }) by {}
        assert(words[at] == (last.0 as u32, last.1 as u8));
        lemma_pow2_le_256(last.1);
        if last.1 == d {
            assert(last.0 == n - 1) by (nonlinear_arith)
                requires
                    n - 1 == last.0 * p,
                    p == 1,
            ;
        }
        assert forall|i: int, j: int|
            0 <= i < words.len() && 0 <= j < words.len() && i != j implies !is_prefix(
            (#[trigger] words[i]).0,
            words[i].1,
            (#[trigger] words[j]).0,
            words[j].1,
        ) by {
            if words[i].1 == words[j].1 {
                assert(words[j].0 as nat / pow2(0) == words[j].0 as nat) by (nonlinear_arith)
                    requires
                        pow2(0) == 1,
                ;
            } else if i == at {
                let b = words[j].0 as nat;
                let q = last.0;
                assert(b / p < q) by (nonlinear_arith)
                    requires
                        b < q * p,
                        p > 0,
                ;
            }
        }
    } else if n == 1 {
        assert(prefix_codes(1)[0] == (0u32, 1u8));
    }
}

proof fn lemma_pow2_le_256(l: nat)
    requires
        l <= 8,
    ensures
        1 <= pow2(l) <= 256,
{
    lemma2_to64();
    lemma_pow2_pos(l);
    if l < 8 {
        lemma_pow2_strictly_increases(l, 8);
    }
}

/// `n` prefix-free words as bits and length, shortest first.
pub fn generate_prefix_codes(n: usize) -> (codes: Vec<(u32, u8)>)
    requires
        n <= 256,
    ensures
        codes@ == prefix_codes(n as nat),
        words_ok(codes@),
        codes@.len() == n,
{
    let mut codes: Vec<(u32, u8)> = Vec::with_capacity(n);
    if n == 0 {
        assert(codes@ =~= prefix_codes(0));
        return codes;
    }
    proof {
        lemma2_to64();
    }
    if n == 1 {
        codes.push((0, 1));
        assert(codes@ =~= prefix_codes(1));
        proof {
            lemma_prefix_codes(1);
        }
        return codes;
    }
    let mut depth: u8 = 0;
    let mut room: usize = 1;
    while room < n
        invariant
            2 <= n <= 256,
            room as nat == pow2(depth as nat),
            depth > 0 ==> pow2((depth - 1) as nat) < n,
            depth <= 8,
        decreases 256 - room,
    {
        proof {
            lemma2_to64();
            lemma_pow2_unfold((depth + 1) as nat);
            lemma_pow2_pos(depth as nat);
        }
        room = room * 2;
        depth = depth + 1;
    }
    proof {
        lemma_depth_for(n as nat, depth as nat);
        lemma_depth_bound(n as nat, depth as nat);
    }
    let mut bits: u32 = (n - 1) as u32;
    let mut len: u8 = depth;
    while bits % 2 == 0 && len > 1
        invariant
            1 <= len <= depth,
            cut((n - 1) as nat, depth as nat) == cut(bits as nat, len as nat),
        decreases len,
    {
        bits = bits / 2;
        len = len - 1;
    }
    if len < depth {
        codes.push((bits, len));
    }
    let ghost head = codes@;
    let ghost whole = Seq::new((n - 1) as nat, |i: int| (i as u32, depth));
    let mut i: usize = 0;
    while i < n - 1
        invariant
            2 <= n <= 256,
            i <= n - 1,
            whole == Seq::new((n - 1) as nat, |i: int| (i as u32, depth)),
            codes@ =~= head + whole.take(i as int),
        decreases n - i,
    {
        codes.push((i as u32, depth));
        i += 1;
    }
    assert(whole.take(n - 1) =~= whole);
    if len == depth {
        codes.push((bits, len));
    }
    proof {
        assert(codes@ =~= prefix_codes(n as nat));
        lemma_prefix_codes(n as nat);
    }
    codes
}

/// The keys by which byte values are ranked: how often each occurs.
pub open spec fn count_keys(data: Seq<u8>) -> Seq<u128> {
    Seq::new(256, |i: int| count_of(data, i as u8) as u128)
}

/// Those of the first `k` values of `order` that occur in `data`.
pub open spec fn occurring(data: Seq<u8>, order: Seq<usize>, k: nat) -> Seq<u8>
    decreases k,
{
    if k == 0 {
        seq![]
    } else {
        let rest = occurring(data, order, (k - 1) as nat);
        let b = order[k - 1] as u8;
        if count_of(data, b) > 0 {
            rest.push(b)
        } else {
            rest
        }
    }
}

/// The byte values of `data`, the most frequent first and the lower first among equals.
pub open spec fn ranked(data: Seq<u8>) -> Seq<u8> {
    occurring(data, order_desc(count_keys(data)), 256)
}

proof fn lemma_occurring(data: Seq<u8>, order: Seq<usize>, k: nat)
    requires
        order.len() == 256,
        k <= 256,
        forall|i: int| 0 <= i < 256 ==> (#[trigger] order[i]) < 256,
        forall|i: int, j: int| 0 <= i < j < 256 ==> (#[trigger] order[i]) != (#[trigger] order[j]),
    ensures
        occurring(data, order, k).len() <= k,
        occurring(data, order, k).no_duplicates(),
        forall|b: u8|
            (#[trigger] occurring(data, order, k).contains(b)) <==> (data.contains(b) && exists|
                i: int,
            |
                0 <= i < k && #[trigger] order[i] == b),
    decreases k,
{
    if k > 0 {
        lemma_occurring(data, order, (k - 1) as nat);
        let rest = occurring(data, order, (k - 1) as nat);
        let all = occurring(data, order, k);
        let c = order[k - 1] as u8;
        lemma_count_of_bound(data, c);
        assert(!rest.contains(c));
        assert forall|b: u8| (#[trigger] all.contains(b)) <==> (data.contains(b) && exists|i: int|
            0 <= i < k && #[trigger] order[i] == b) by {
            lemma_count_of_bound(data, b);
            if all.contains(b) {
                let i = choose|i: int| 0 <= i < all.len() && all[i] == b;
                if b == c {
                    assert(order[k - 1] == b);
                } else {
                    assert(rest[i] == b);
                    assert(rest.contains(b));
                }
            }
            if data.contains(b) && exists|i: int| 0 <= i < k && #[trigger] order[i] == b {
                let i = choose|i: int| 0 <= i < k && #[trigger] order[i] == b;
                if i == k - 1 {
                    assert(all.last() == b);
                    assert(all[all.len() - 1] == b);
                } else {
                    assert(rest.contains(b));
                    let j = choose|j: int| 0 <= j < rest.len() && rest[j] == b;
                    assert(all[j] == b);
                }
            }
        }
    }
}

/// `ranked` lists each byte value of `data` once.
pub proof fn lemma_ranked(data: Seq<u8>)
    ensures
        ranked(data).len() <= 256,
        ranked(data).no_duplicates(),
        forall|b: u8| (#[trigger] ranked(data).contains(b)) <==> data.contains(b),
{
    let order = order_desc(count_keys(data));
    lemma_order_desc(count_keys(data));
    lemma_occurring(data, order, 256);
    assert forall|b: u8| (#[trigger] ranked(data).contains(b)) <==> data.contains(b) by {
        lemma_holds_all(order, 256, b as int);
    }
}

/// The table before any improvement: the most frequent value has the shortest word.
pub open spec fn assigned_codes(data: Seq<u8>) -> Seq<EgapCode> {
    let symbols = ranked(data);
    let words = prefix_codes(symbols.len());
    Seq::new(
        symbols.len(),
        |i: int|
            EgapCode { symbol: symbols[i], code_len: words[i].1, code_bits: words[i].0 },
    )
}

/// The words of a table.
pub open spec fn words_of(codes: Seq<EgapCode>) -> Seq<(u32, u8)> {
    Seq::new(codes.len(), |i: int| (codes[i].code_bits, codes[i].code_len))
}

/// The symbols of a table.
pub open spec fn symbols_of(codes: Seq<EgapCode>) -> Seq<u8> {
    Seq::new(codes.len(), |i: int| codes[i].symbol)
}

/// Whether a word may stand at entry `i`: it clashes with no other entry.
pub open spec fn word_free(codes: Seq<EgapCode>, i: int, bits: u32, len: u8) -> bool {
    forall|j: int|
        0 <= j < codes.len() && j != i ==> !clash(
            bits,
            len,
            (#[trigger] codes[j]).code_bits,
            codes[j].code_len,
        )
}

/// A shorter word for entry `i`, as length and bits.
pub open spec fn gap_candidate(codes: Seq<EgapCode>, i: int, word: (u8, u32)) -> bool {
    &&& 1 <= word.0 < codes[i].code_len
    &&& word.1 < pow2(word.0 as nat)
    &&& word_free(codes, i, word.1, word.0)
}

/// Shorter words come first, then smaller ones.
pub open spec fn no_later(a: (u8, u32), b: (u8, u32)) -> bool {
    a.0 < b.0 || (a.0 == b.0 && a.1 <= b.1)
}

pub open spec fn is_gap_word(codes: Seq<EgapCode>, i: int, word: (u8, u32)) -> bool {
    &&& gap_candidate(codes, i, word)
    &&& forall|other: (u8, u32)| #[trigger]
        gap_candidate(codes, i, other) ==> no_later(word, other)
}

/// The shortest and then smallest word that entry `i` could have instead of a longer one.
pub open spec fn gap_word(codes: Seq<EgapCode>, i: int) -> Option<(u8, u32)> {
    if exists|word: (u8, u32)| #[trigger] gap_candidate(codes, i, word) {
        Some(choose|word: (u8, u32)| #[trigger] is_gap_word(codes, i, word))
    } else {
        None
    }
}

pub open spec fn gap_step(codes: Seq<EgapCode>, i: int) -> Seq<EgapCode> {
    match gap_word(codes, i) {
        Some((len, bits)) => codes.update(
            i,
            EgapCode { symbol: codes[i].symbol, code_len: len, code_bits: bits },
        ),
        None => codes,
    }
}

pub open spec fn gap_steps(codes: Seq<EgapCode>, order: Seq<usize>, k: nat) -> Seq<EgapCode>
    decreases k,
{
    if k == 0 {
        codes
    } else {
        gap_step(gap_steps(codes, order, (k - 1) as nat), order[k - 1] as int)
    }
}

pub open spec fn length_keys(codes: Seq<EgapCode>) -> Seq<u128> {
    Seq::new(codes.len(), |i: int| codes[i].code_len as u128)
}

/// One pass over the table, longest words first.
pub open spec fn gap_pass(codes: Seq<EgapCode>) -> Seq<EgapCode> {
    gap_steps(codes, order_desc(length_keys(codes)), codes.len())
}

pub open spec fn total_len(codes: Seq<EgapCode>) -> nat
    decreases codes.len(),
{
    if codes.len() == 0 {
        0
    } else {
        total_len(codes.drop_last()) + codes.last().code_len as nat
    }
}

/// The table after as many passes as still shorten a word.
pub open spec fn gap_settled(codes: Seq<EgapCode>) -> Seq<EgapCode>
    decreases total_len(codes),
{
    let next = gap_pass(codes);
    if total_len(next) < total_len(codes) {
        gap_settled(next)
    } else {
        codes
    }
}

/// Exchanging the words of entries `i` and `j` saves bits over `data`.
pub open spec fn swap_saves(codes: Seq<EgapCode>, data: Seq<u8>, i: int, j: int) -> bool {
    let fi = count_of(data, codes[i].symbol);
    let fj = count_of(data, codes[j].symbol);
    let li = codes[i].code_len as nat;
    let lj = codes[j].code_len as nat;
    fi * li + fj * lj > fi * lj + fj * li
}

pub open spec fn with_word(code: EgapCode, from: EgapCode) -> EgapCode {
    EgapCode { symbol: code.symbol, code_len: from.code_len, code_bits: from.code_bits }
}

pub open spec fn swap_step(codes: Seq<EgapCode>, data: Seq<u8>, i: int, j: int) -> Seq<EgapCode> {
    if swap_saves(codes, data, i, j) {
        codes.update(i, with_word(codes[i], codes[j])).update(j, with_word(codes[j], codes[i]))
    } else {
        codes
    }
}

/// Entry `i` against the entries behind it, up to `k`.
pub open spec fn swap_row(codes: Seq<EgapCode>, data: Seq<u8>, i: nat, k: nat) -> Seq<EgapCode>
    decreases k,
{
    if k <= i + 1 {
        codes
    } else {
        swap_step(swap_row(codes, data, i, (k - 1) as nat), data, i as int, k - 1)
    }
}

/// The rows of the first `k` entries, one behind the other.
pub open spec fn swap_rows(codes: Seq<EgapCode>, data: Seq<u8>, k: nat) -> Seq<EgapCode>
    decreases k,
{
    if k == 0 {
        codes
    } else {
        swap_row(
            swap_rows(codes, data, (k - 1) as nat),
            data,
            (k - 1) as nat,
            codes.len(),
        )
    }
}

/// How many bits the table needs for `data`.
pub open spec fn bit_cost(codes: Seq<EgapCode>, data: Seq<u8>) -> nat
    decreases codes.len(),
{
    if codes.len() == 0 {
        0
    } else {
        bit_cost(codes.drop_last(), data) + count_of(data, codes.last().symbol)
            * codes.last().code_len as nat
    }
}

/// The table after as many passes of swaps as still save bits.
pub open spec fn swap_settled(codes: Seq<EgapCode>, data: Seq<u8>) -> Seq<EgapCode>
    decreases bit_cost(codes, data),
{
    let next = swap_rows(codes, data, codes.len());
    if bit_cost(next, data) < bit_cost(codes, data) {
        swap_settled(next, data)
    } else {
        codes
    }
}

/// The code table for `data`.
pub open spec fn egap_codes(data: Seq<u8>) -> Seq<EgapCode> {
    swap_settled(gap_settled(assigned_codes(data)), data)
}

pub(crate) proof fn lemma_total_len_update(codes: Seq<EgapCode>, i: int, code: EgapCode)
    requires
        0 <= i < codes.len(),
    ensures
        total_len(codes.update(i, code)) == total_len(codes) - codes[i].code_len + code.code_len,
    decreases codes.len(),
{
    let new = codes.update(i, code);
    if i == codes.len() - 1 {
        assert(new.drop_last() =~= codes.drop_last());
    } else {
        lemma_total_len_update(codes.drop_last(), i, code);
        assert(new.drop_last() =~= codes.drop_last().update(i, code));
    }
}

proof fn lemma_bit_cost_update(codes: Seq<EgapCode>, data: Seq<u8>, i: int, code: EgapCode)
    requires
        0 <= i < codes.len(),
    ensures
        bit_cost(codes.update(i, code), data) == bit_cost(codes, data) - count_of(
            data,
            codes[i].symbol,
        ) * codes[i].code_len as nat + count_of(data, code.symbol) * code.code_len as nat,
    decreases codes.len(),
{
    let new = codes.update(i, code);
    if i == codes.len() - 1 {
        assert(new.drop_last() =~= codes.drop_last());
    } else {
        lemma_bit_cost_update(codes.drop_last(), data, i, code);
        assert(new.drop_last() =~= codes.drop_last().update(i, code));
    }
}

proof fn lemma_gap_word_unique(codes: Seq<EgapCode>, i: int, word: (u8, u32))
    requires
        is_gap_word(codes, i, word),
    ensures
        gap_word(codes, i) == Some(word),
{
    let chosen = choose|w: (u8, u32)| #[trigger] is_gap_word(codes, i, w);
    assert(gap_candidate(codes, i, word));
    assert(gap_candidate(codes, i, chosen));
    assert(no_later(word, chosen) && no_later(chosen, word));
}

/// The table's words keep what `words_ok` says, and its symbols stay in place, when entry `i`
/// gets a word that is free.
proof fn lemma_replace_ok(codes: Seq<EgapCode>, i: int, word: (u8, u32))
    requires
        0 <= i < codes.len(),
        words_ok(words_of(codes)),
        gap_candidate(codes, i, word),
    ensures
        words_ok(
            words_of(
                codes.update(
                    i,
                    EgapCode { symbol: codes[i].symbol, code_len: word.0, code_bits: word.1 },
                ),
            ),
        ),
        symbols_of(
            codes.update(
                i,
                EgapCode { symbol: codes[i].symbol, code_len: word.0, code_bits: word.1 },
            ),
        ) == symbols_of(codes),
{
    let new = codes.update(
        i,
        EgapCode { symbol: codes[i].symbol, code_len: word.0, code_bits: word.1 },
    );
    let a = words_of(codes);
    let b = words_of(new);
    assert(symbols_of(new) =~= symbols_of(codes));
    assert forall|k: int| 0 <= k < b.len() implies 1 <= (#[trigger] b[k]).1 <= 8 && b[k].0 < pow2(
        b[k].1 as nat,
    ) by {
        assert(1 <= a[k].1 <= 8 && a[k].0 < pow2(a[k].1 as nat));
        assert(1 <= a[i].1 <= 8);
    }
    assert forall|k: int, j: int|
        0 <= k < b.len() && 0 <= j < b.len() && k != j implies !clash(
        (#[trigger] b[k]).0,
        b[k].1,
        (#[trigger] b[j]).0,
        b[j].1,
    ) by {
        assert(!clash(a[k].0, a[k].1, a[j].0, a[j].1));
        if k == i {
            assert(codes[j].code_bits == b[j].0);
        } else if j == i {
            assert(codes[k].code_bits == b[k].0);
        }
    }
}

proof fn lemma_swap_ok(codes: Seq<EgapCode>, data: Seq<u8>, i: int, j: int)
    requires
        0 <= i < j < codes.len(),
        words_ok(words_of(codes)),
    ensures
        swap_step(codes, data, i, j).len() == codes.len(),
        words_ok(words_of(swap_step(codes, data, i, j))),
        symbols_of(swap_step(codes, data, i, j)) == symbols_of(codes),
        swap_saves(codes, data, i, j) ==> bit_cost(swap_step(codes, data, i, j), data) < bit_cost(
            codes,
            data,
        ),
{
    let new = swap_step(codes, data, i, j);
    if swap_saves(codes, data, i, j) {
        let mid = codes.update(i, with_word(codes[i], codes[j]));
        lemma_bit_cost_update(codes, data, i, with_word(codes[i], codes[j]));
        lemma_bit_cost_update(mid, data, j, with_word(codes[j], codes[i]));
        let a = words_of(codes);
        let b = words_of(new);
        let perm = |k: int|
            if k == i {
                j
            } else if k == j {
                i
            } else {
                k
            };
        assert forall|k: int| 0 <= k < b.len() implies #[trigger] b[k] == a[perm(k)] by {}
        assert(symbols_of(new) =~= symbols_of(codes));
        assert forall|k: int, l: int|
            0 <= k < b.len() && 0 <= l < b.len() && k != l implies !clash(
            (#[trigger] b[k]).0,
            b[k].1,
            (#[trigger] b[l]).0,
            b[l].1,
        ) by {
            assert(b[k] == a[perm(k)] && b[l] == a[perm(l)]);
            assert(perm(k) != perm(l));
        }
    }
}

/// The first shorter word for entry `i` that clashes with no other entry.
fn find_gap(codes: &Vec<EgapCode>, i: usize) -> (r: Option<(u8, u32)>)
    requires
        i < codes@.len(),
        words_ok(words_of(codes@)),
    ensures
        r == gap_word(codes@, i as int),
        match r {
            Some(word) => gap_candidate(codes@, i as int, word),
            None => true,
        },
{
    assert(words_of(codes@)[i as int] == (codes@[i as int].code_bits, codes@[i as int].code_len));
    let cur_len = codes[i].code_len;
    let mut try_len: u8 = 1;
    while try_len < cur_len
        invariant
            i < codes@.len(),
            words_ok(words_of(codes@)),
            cur_len == codes@[i as int].code_len,
            1 <= cur_len <= 8,
            1 <= try_len <= cur_len,
            forall|w: (u8, u32)| #[trigger]
                gap_candidate(codes@, i as int, w) ==> w.0 >= try_len,
        decreases cur_len - try_len,
    {
        proof {
            lemma_pow2_le_256(try_len as nat);
            lemma2_to64();
            assert(1u32 * pow2(try_len as nat) == pow2(try_len as nat));
            vstd::bits::lemma_u32_shl_is_mul(1, try_len as u32);
        }
        let num_at_len: u32 = 1u32 << (try_len as u32);
        let mut try_bits: u32 = 0;
        while try_bits < num_at_len
            invariant
                i < codes@.len(),
                words_ok(words_of(codes@)),
                cur_len == codes@[i as int].code_len,
                1 <= cur_len <= 8,
                1 <= try_len < cur_len,
                num_at_len as nat == pow2(try_len as nat),
                num_at_len <= 256,
                try_bits <= num_at_len,
                forall|w: (u8, u32)| #[trigger]
                    gap_candidate(codes@, i as int, w) ==> w.0 > try_len || (w.0 == try_len && w.1
                        >= try_bits),
            decreases num_at_len - try_bits,
        {
            if is_word_free(codes, i, try_bits, try_len) {
                proof {
                    assert(is_gap_word(codes@, i as int, (try_len, try_bits)));
                    lemma_gap_word_unique(codes@, i as int, (try_len, try_bits));
                }
                return Some((try_len, try_bits));
            }
            try_bits += 1;
        }
        try_len += 1;
    }
    None
}

fn is_word_free(codes: &Vec<EgapCode>, i: usize, bits: u32, len: u8) -> (r: bool)
    requires
        words_ok(words_of(codes@)),
        len <= 8,
    ensures
        r == word_free(codes@, i as int, bits, len),
{
    let mut j: usize = 0;
    while j < codes.len()
        invariant
            j <= codes@.len(),
            words_ok(words_of(codes@)),
            len <= 8,
            forall|k: int|
                0 <= k < j && k != i ==> !clash(
                    bits,
                    len,
                    (#[trigger] codes@[k]).code_bits,
                    codes@[k].code_len,
                ),
        decreases codes@.len() - j,
    {
        assert(words_of(codes@)[j as int] == (
            codes@[j as int].code_bits,
            codes@[j as int].code_len,
        ));
        if j != i {
            let c = codes[j];
            if egap_is_prefix(bits, len, c.code_bits, c.code_len) || egap_is_prefix(
                c.code_bits,
                c.code_len,
                bits,
                len,
            ) {
                return false;
            }
        }
        j += 1;
    }
    true
}

/// Shortens words into the gaps of the tree as long as that is possible.
fn settle_gaps(codes: &mut Vec<EgapCode>)
    requires
        words_ok(words_of(old(codes)@)),
    ensures
        words_ok(words_of(final(codes)@)),
        final(codes)@ == gap_settled(old(codes)@),
        symbols_of(final(codes)@) == symbols_of(old(codes)@),
{
    let ghost first = codes@;
    let mut improved = true;
    while improved
        invariant
            words_ok(words_of(codes@)),
            symbols_of(codes@) == symbols_of(first),
            improved ==> gap_settled(first) == gap_settled(codes@),
            !improved ==> gap_settled(first) == codes@,
        decreases total_len(codes@), (if improved { 1int } else { 0int }),
    {
        improved = false;
        let ghost start = codes@;
        let mut keys: Vec<u128> = Vec::with_capacity(codes.len());
        let mut k: usize = 0;
        while k < codes.len()
            invariant
                codes@ == start,
                k <= codes@.len(),
                keys@ =~= length_keys(start).take(k as int),
            decreases codes@.len() - k,
        {
            keys.push(codes[k].code_len as u128);
            k += 1;
        }
        assert(keys@ =~= length_keys(start));
        let order = sort_desc(&keys);
        proof {
            lemma_order_desc(keys@);
        }
        let mut k: usize = 0;
        while k < order.len()
            invariant
                k <= order@.len(),
                order@ == order_desc(length_keys(start)),
                order@.len() == start.len(),
                codes@.len() == start.len(),
                forall|m: int| 0 <= m < order@.len() ==> (#[trigger] order@[m]) < start.len(),
                words_ok(words_of(codes@)),
                symbols_of(codes@) == symbols_of(start),
                codes@ == gap_steps(start, order@, k as nat),
                total_len(codes@) <= total_len(start),
                improved <==> total_len(codes@) < total_len(start),
                !improved ==> codes@ == start,
            decreases order@.len() - k,
        {
            let i = order[k];
            let ghost now = codes@;
            if let Some((len, bits)) = find_gap(codes, i) {
                proof {
                    lemma_replace_ok(now, i as int, (len, bits));
                    lemma_total_len_update(
                        now,
                        i as int,
                        EgapCode { symbol: now[i as int].symbol, code_len: len, code_bits: bits },
                    );
                }
                let symbol = codes[i].symbol;
                codes.set(i, EgapCode { symbol, code_len: len, code_bits: bits });
                improved = true;
            }
            k += 1;
        }
    }
}

/// Exchanges words between entries as long as that saves bits over `data`.
fn settle_swaps(codes: &mut Vec<EgapCode>, counts: &[u64; 256], Ghost(data): Ghost<Seq<u8>>)
    requires
        words_ok(words_of(old(codes)@)),
        forall|b: u8| (#[trigger] counts@[b as int]) as nat == count_of(data, b),
    ensures
        words_ok(words_of(final(codes)@)),
        final(codes)@ == swap_settled(old(codes)@, data),
        symbols_of(final(codes)@) == symbols_of(old(codes)@),
{
    let ghost first = codes@;
    let n = codes.len();
    let mut swapped = true;
    while swapped
        invariant
            n == codes@.len(),
            words_ok(words_of(codes@)),
            symbols_of(codes@) == symbols_of(first),
            forall|b: u8| (#[trigger] counts@[b as int]) as nat == count_of(data, b),
            swapped ==> swap_settled(first, data) == swap_settled(codes@, data),
            !swapped ==> swap_settled(first, data) == codes@,
        decreases bit_cost(codes@, data), (if swapped { 1int } else { 0int }),
    {
        swapped = false;
        let ghost start = codes@;
        let mut i: usize = 0;
        while i < n
            invariant
                i <= n,
                n == codes@.len(),
                n == start.len(),
                words_ok(words_of(codes@)),
                symbols_of(codes@) == symbols_of(start),
                forall|b: u8| (#[trigger] counts@[b as int]) as nat == count_of(data, b),
                codes@ == swap_rows(start, data, i as nat),
                swapped <==> bit_cost(codes@, data) < bit_cost(start, data),
                !swapped ==> codes@ == start,
            decreases n - i,
        {
            let ghost row = codes@;
            let mut j: usize = i + 1;
            while j < n
                invariant
                    i < j <= n,
                    n == codes@.len(),
                    words_ok(words_of(codes@)),
                    symbols_of(codes@) == symbols_of(start),
                    forall|b: u8| (#[trigger] counts@[b as int]) as nat == count_of(data, b),
                    codes@ == swap_row(row, data, i as nat, j as nat),
                    swapped <==> bit_cost(codes@, data) < bit_cost(start, data),
                    !swapped ==> codes@ == start,
                decreases n - j,
            {
                let a = codes[i];
                let b = codes[j];
                let ghost now = codes@;
                let fi = counts[a.symbol as usize];
                let fj = counts[b.symbol as usize];
                proof {
                    assert(counts@[a.symbol as int] as nat == count_of(data, a.symbol));
                    assert(counts@[b.symbol as int] as nat == count_of(data, b.symbol));
                    lemma_swap_ok(now, data, i as int, j as int);
                    lemma_swap_condition(
                        fi as nat,
                        fj as nat,
                        a.code_len as nat,
                        b.code_len as nat,
                    );
                }
                if (fi > fj && a.code_len > b.code_len) || (fi < fj && a.code_len < b.code_len) {
                    codes.set(
                        i,
                        EgapCode {
                            symbol: a.symbol,
                            code_len: b.code_len,
                            code_bits: b.code_bits,
                        },
                    );
                    codes.set(
                        j,
                        EgapCode {
                            symbol: b.symbol,
                            code_len: a.code_len,
                            code_bits: a.code_bits,
                        },
                    );
                    swapped = true;
                }
                j += 1;
            }
            i += 1;
        }
    }
}

proof fn lemma_swap_condition(fi: nat, fj: nat, li: nat, lj: nat)
    ensures
        fi * li + fj * lj > fi * lj + fj * li <==> (fi > fj && li > lj) || (fi < fj && li < lj),
{
    assert(fi * li + fj * lj - (fi * lj + fj * li) == (fi - fj) * (li - lj)) by (nonlinear_arith);
    assert((fi - fj) * (li - lj) > 0 <==> (fi > fj && li > lj) || (fi < fj && li < lj))
        by (nonlinear_arith);
}

/// The symbols of `codes` are the byte values of `data`, and its words are prefix-free.
pub open spec fn table_ok(codes: Seq<EgapCode>, data: Seq<u8>) -> bool {
    &&& words_ok(words_of(codes))
    &&& codes.len() <= 256
    &&& symbols_of(codes) == ranked(data)
}

/// The byte values of `data`, the most frequent first and the lower first among equals.
pub fn rank_symbols(data: &[u8]) -> (symbols: Vec<u8>)
    ensures
        symbols@ == ranked(data@),
{
    let counts = byte_counts(data);
    let mut keys: Vec<u128> = Vec::with_capacity(256);
    let mut b: usize = 0;
    while b < 256
        invariant
            b <= 256,
            forall|c: u8| (#[trigger] counts@[c as int]) as nat == count_of(data@, c),
            keys@ =~= count_keys(data@).take(b as int),
        decreases 256 - b,
    {
        assert(counts@[(b as u8) as int] as nat == count_of(data@, b as u8));
        keys.push(counts[b] as u128);
        b += 1;
    }
    assert(keys@ =~= count_keys(data@));
    let order = sort_desc(&keys);
    proof {
        lemma_order_desc(keys@);
        lemma_ranked(data@);
    }
    let mut symbols: Vec<u8> = Vec::with_capacity(256);
    let mut k: usize = 0;
    while k < 256
        invariant
            k <= 256,
            order@.len() == 256,
            order@ == order_desc(count_keys(data@)),
            forall|i: int| 0 <= i < 256 ==> (#[trigger] order@[i]) < 256,
            forall|c: u8| (#[trigger] counts@[c as int]) as nat == count_of(data@, c),
            symbols@ == occurring(data@, order@, k as nat),
        decreases 256 - k,
    {
        let s = order[k];
        assert(counts@[(s as u8) as int] as nat == count_of(data@, s as u8));
        if counts[s] > 0 {
            symbols.push(s as u8);
        }
        k += 1;
    }
    symbols
}

/// The code table for `data`.
pub fn build_egap_codes(data: &[u8]) -> (codes: Vec<EgapCode>)
    ensures
        codes@ == egap_codes(data@),
        table_ok(codes@, data@),
        codes@.len() >= 2 ==> weight(codes@) == 256,
{
    let counts = byte_counts(data);
    let symbols = rank_symbols(data);
    proof {
        lemma_ranked(data@);
    }
    let n = symbols.len();
    let words = generate_prefix_codes(n);
    let mut codes: Vec<EgapCode> = Vec::with_capacity(n);
    let mut i: usize = 0;
    while i < n
        invariant
            i <= n,
            n == symbols@.len(),
            n == words@.len(),
            symbols@ == ranked(data@),
            words@ == prefix_codes(n as nat),
            codes@ =~= assigned_codes(data@).take(i as int),
        decreases n - i,
    {
        codes.push(
            EgapCode { symbol: symbols[i], code_len: words[i].1, code_bits: words[i].0 },
        );
        i += 1;
    }
    proof {
        assert(codes@ =~= assigned_codes(data@));
        assert(words_of(codes@) =~= words@);
        assert(symbols_of(codes@) =~= ranked(data@));
    }
    settle_gaps(&mut codes);
    settle_swaps(&mut codes, &counts, Ghost(data@));
    assert(symbols_of(codes@).len() == codes@.len());
    proof {
        if codes@.len() >= 2 {
            lemma_egap_codes_complete(data@);
        }
    }
    codes
}

/// Where a shorter word is possible there is a first one.
pub(crate) proof fn lemma_gap_word_exists(codes: Seq<EgapCode>, i: int, word: (u8, u32))
    requires
        gap_candidate(codes, i, word),
    ensures
        exists|w: (u8, u32)| #[trigger] is_gap_word(codes, i, w),
    decreases word.0, word.1,
{
    if !is_gap_word(codes, i, word) {
        let other = choose|o: (u8, u32)| #[trigger]
            gap_candidate(codes, i, o) && !no_later(word, o);
        lemma_gap_word_exists(codes, i, other);
    }
}

proof fn lemma_gap_step_ok(codes: Seq<EgapCode>, i: int)
    requires
        0 <= i < codes.len(),
        words_ok(words_of(codes)),
    ensures
        words_ok(words_of(gap_step(codes, i))),
        symbols_of(gap_step(codes, i)) == symbols_of(codes),
        gap_step(codes, i).len() == codes.len(),
{
    if exists|word: (u8, u32)| #[trigger] gap_candidate(codes, i, word) {
        let any = choose|word: (u8, u32)| #[trigger] gap_candidate(codes, i, word);
        lemma_gap_word_exists(codes, i, any);
        let word = choose|word: (u8, u32)| #[trigger] is_gap_word(codes, i, word);
        lemma_replace_ok(codes, i, word);
    }
}

pub(crate) proof fn lemma_gap_steps_ok(codes: Seq<EgapCode>, order: Seq<usize>, k: nat)
    requires
        k <= order.len(),
        words_ok(words_of(codes)),
        forall|m: int| 0 <= m < order.len() ==> (#[trigger] order[m]) < codes.len(),
    ensures
        words_ok(words_of(gap_steps(codes, order, k))),
        symbols_of(gap_steps(codes, order, k)) == symbols_of(codes),
        gap_steps(codes, order, k).len() == codes.len(),
    decreases k,
{
    if k > 0 {
        lemma_gap_steps_ok(codes, order, (k - 1) as nat);
        lemma_gap_step_ok(gap_steps(codes, order, (k - 1) as nat), order[k - 1] as int);
    }
}

pub(crate) proof fn lemma_gap_settled_ok(codes: Seq<EgapCode>)
    requires
        words_ok(words_of(codes)),
        codes.len() <= 256,
    ensures
        words_ok(words_of(gap_settled(codes))),
        symbols_of(gap_settled(codes)) == symbols_of(codes),
        gap_settled(codes).len() == codes.len(),
    decreases total_len(codes),
{
    lemma_order_desc(length_keys(codes));
    lemma_gap_steps_ok(codes, order_desc(length_keys(codes)), codes.len());
    let next = gap_pass(codes);
    if total_len(next) < total_len(codes) {
        lemma_gap_settled_ok(next);
    }
}

pub(crate) proof fn lemma_swap_row_ok(codes: Seq<EgapCode>, data: Seq<u8>, i: nat, k: nat)
    requires
        i < codes.len(),
        k <= codes.len(),
        words_ok(words_of(codes)),
    ensures
        words_ok(words_of(swap_row(codes, data, i, k))),
        symbols_of(swap_row(codes, data, i, k)) == symbols_of(codes),
        swap_row(codes, data, i, k).len() == codes.len(),
    decreases k,
{
    if k > i + 1 {
        lemma_swap_row_ok(codes, data, i, (k - 1) as nat);
        lemma_swap_ok(swap_row(codes, data, i, (k - 1) as nat), data, i as int, k - 1);
    }
}

pub(crate) proof fn lemma_swap_rows_ok(codes: Seq<EgapCode>, data: Seq<u8>, k: nat)
    requires
        k <= codes.len(),
        words_ok(words_of(codes)),
    ensures
        words_ok(words_of(swap_rows(codes, data, k))),
        symbols_of(swap_rows(codes, data, k)) == symbols_of(codes),
        swap_rows(codes, data, k).len() == codes.len(),
    decreases k,
{
    if k > 0 {
        lemma_swap_rows_ok(codes, data, (k - 1) as nat);
        lemma_swap_row_ok(
            swap_rows(codes, data, (k - 1) as nat),
            data,
            (k - 1) as nat,
            codes.len(),
        );
    }
}

proof fn lemma_swap_settled_ok(codes: Seq<EgapCode>, data: Seq<u8>)
    requires
        words_ok(words_of(codes)),
    ensures
        words_ok(words_of(swap_settled(codes, data))),
        symbols_of(swap_settled(codes, data)) == symbols_of(codes),
    decreases bit_cost(codes, data),
{
    lemma_swap_rows_ok(codes, data, codes.len());
    let next = swap_rows(codes, data, codes.len());
    if bit_cost(next, data) < bit_cost(codes, data) {
        lemma_swap_settled_ok(next, data);
    }
}

proof fn lemma_depth_exists(n: nat, d: nat)
    requires
        pow2(d) >= n,
    ensures
        is_depth_for(n, depth_for(n)),
    decreases d,
{
    if d > 0 && pow2((d - 1) as nat) >= n {
        lemma_depth_exists(n, (d - 1) as nat);
    } else {
        assert(is_depth_for(n, d));
    }
}

/// The table before any improvement is prefix-free, too.
pub(crate) proof fn lemma_assigned_ok(data: Seq<u8>)
    ensures
        words_ok(words_of(assigned_codes(data))),
        symbols_of(assigned_codes(data)) == ranked(data),
        assigned_codes(data).len() == ranked(data).len(),
        ranked(data).len() <= 256,
{
    lemma_ranked(data);
    let n = ranked(data).len();
    lemma2_to64();
    lemma_depth_exists(n, 8);
    lemma_prefix_codes(n);
    let first = assigned_codes(data);
    assert(words_of(first) =~= prefix_codes(n));
    assert(symbols_of(first) =~= ranked(data));
}

/// The code table of any data is prefix-free, with words of one to eight bits, and lists each
/// byte value of the data once; with two values or more it is complete.
pub proof fn lemma_egap_codes_ok(data: Seq<u8>)
    ensures
        table_ok(egap_codes(data), data),
        symbols_of(egap_codes(data)).no_duplicates(),
        forall|b: u8| (#[trigger] symbols_of(egap_codes(data)).contains(b)) <==> data.contains(b),
        egap_codes(data).len() >= 2 ==> weight(egap_codes(data)) == 256,
{
    lemma_ranked(data);
    let first = assigned_codes(data);
    lemma_assigned_ok(data);
    lemma_gap_settled_ok(first);
    lemma_swap_settled_ok(gap_settled(first), data);
    assert(symbols_of(egap_codes(data)).len() == egap_codes(data).len());
    if egap_codes(data).len() >= 2 {
        lemma_egap_codes_complete(data);
    }
}

/// In a complete tree of depth eight no word is free.
proof fn lemma_full_has_no_gap(codes: Seq<EgapCode>, i: int)
    requires
        codes.len() == 256,
        0 <= i < 256,
        forall|k: int|
            0 <= k < 256 ==> (#[trigger] codes[k]).code_bits == k && codes[k].code_len == 8,
    ensures
        gap_step(codes, i) == codes,
{
    assert forall|word: (u8, u32)| !(#[trigger] gap_candidate(codes, i, word)) by {
        if gap_candidate(codes, i, word) {
            let l = word.0 as nat;
            let b = word.1 as nat;
            let m = (8 - l) as nat;
            lemma2_to64();
            lemma_pow2_adds(l, m);
            lemma_pow2_unfold(m);
            lemma_pow2_pos((m - 1) as nat);
            let p = pow2(m);
            assert(0 <= b * p && b * p + 1 < 256) by (nonlinear_arith)
                requires
                    b + 1 <= pow2(l),
                    pow2(l) * p == 256,
                    p >= 2,
            ;
            assert((b * p) / p == b && (b * p + 1) / p == b) by (nonlinear_arith)
                requires
                    p >= 2,
            ;
            let k = if i == b * p {
                (b * p + 1) as int
            } else {
                (b * p) as int
            };
            assert(codes[k].code_bits == k);
            assert(is_prefix(word.1, word.0, codes[k].code_bits, codes[k].code_len));
            assert(false);
        }
    }
}

proof fn lemma_full_gap_steps(codes: Seq<EgapCode>, order: Seq<usize>, k: nat)
    requires
        codes.len() == 256,
        k <= order.len(),
        forall|m: int| 0 <= m < order.len() ==> (#[trigger] order[m]) < 256,
        forall|k: int|
            0 <= k < 256 ==> (#[trigger] codes[k]).code_bits == k && codes[k].code_len == 8,
    ensures
        gap_steps(codes, order, k) == codes,
    decreases k,
{
    if k > 0 {
        lemma_full_gap_steps(codes, order, (k - 1) as nat);
        lemma_full_has_no_gap(codes, order[k - 1] as int);
    }
}

proof fn lemma_equal_lengths_swap_row(codes: Seq<EgapCode>, data: Seq<u8>, i: nat, k: nat)
    requires
        i < codes.len(),
        k <= codes.len(),
        forall|m: int| 0 <= m < codes.len() ==> (#[trigger] codes[m]).code_len == 8,
    ensures
        swap_row(codes, data, i, k) == codes,
    decreases k,
{
    if k > i + 1 {
        lemma_equal_lengths_swap_row(codes, data, i, (k - 1) as nat);
    }
}

proof fn lemma_equal_lengths_swap_rows(codes: Seq<EgapCode>, data: Seq<u8>, k: nat)
    requires
        k <= codes.len(),
        forall|m: int| 0 <= m < codes.len() ==> (#[trigger] codes[m]).code_len == 8,
    ensures
        swap_rows(codes, data, k) == codes,
    decreases k,
{
    if k > 0 {
        lemma_equal_lengths_swap_rows(codes, data, (k - 1) as nat);
        lemma_equal_lengths_swap_row(codes, data, (k - 1) as nat, codes.len());
    }
}

/// Where all byte values occur, every word has eight bits.
pub proof fn lemma_egap_codes_full(data: Seq<u8>)
    requires
        ranked(data).len() == 256,
    ensures
        egap_codes(data).len() == 256,
        forall|i: int| 0 <= i < 256 ==> (#[trigger] egap_codes(data)[i]).code_len == 8,
{
    lemma2_to64();
    lemma_depth_exists(256, 8);
    lemma_prefix_codes(256);
    let first = assigned_codes(data);
    assert forall|k: int| 0 <= k < 256 implies (#[trigger] first[k]).code_bits == k
        && first[k].code_len == 8 by {
        assert(prefix_codes(256)[k] == (k as u32, 8u8));
    }
    lemma_order_desc(length_keys(first));
    lemma_full_gap_steps(first, order_desc(length_keys(first)), 256);
    assert(gap_settled(first) == first);
    lemma_equal_lengths_swap_rows(first, data, 256);
    assert(swap_settled(first, data) == first);
}

proof fn lemma_swap_row_cost(codes: Seq<EgapCode>, data: Seq<u8>, i: nat, k: nat)
    requires
        i < codes.len(),
        k <= codes.len(),
        words_ok(words_of(codes)),
    ensures
        bit_cost(swap_row(codes, data, i, k), data) <= bit_cost(codes, data),
        bit_cost(swap_row(codes, data, i, k), data) == bit_cost(codes, data) ==> swap_row(
            codes,
            data,
            i,
            k,
        ) == codes && forall|j: int| i < j < k ==> !#[trigger] swap_saves(codes, data, i as int, j),
    decreases k,
{
    if k > i + 1 {
        let b = (k - 1) as nat;
        lemma_swap_row_cost(codes, data, i, b);
        lemma_swap_row_ok(codes, data, i, b);
        lemma_swap_ok(swap_row(codes, data, i, b), data, i as int, k - 1);
    }
}

proof fn lemma_swap_rows_cost(codes: Seq<EgapCode>, data: Seq<u8>, k: nat)
    requires
        k <= codes.len(),
        words_ok(words_of(codes)),
    ensures
        bit_cost(swap_rows(codes, data, k), data) <= bit_cost(codes, data),
        bit_cost(swap_rows(codes, data, k), data) == bit_cost(codes, data) ==> swap_rows(
            codes,
            data,
            k,
        ) == codes && forall|i: int, j: int|
            0 <= i < k && i < j < codes.len() ==> !#[trigger] swap_saves(codes, data, i, j),
    decreases k,
{
    if k > 0 {
        let b = (k - 1) as nat;
        lemma_swap_rows_cost(codes, data, b);
        lemma_swap_rows_ok(codes, data, b);
        lemma_swap_row_cost(swap_rows(codes, data, b), data, b, codes.len());
    }
}

proof fn lemma_settled_saves_nothing(codes: Seq<EgapCode>, data: Seq<u8>)
    requires
        words_ok(words_of(codes)),
    ensures
        ({
            let r = swap_settled(codes, data);
            &&& bit_cost(r, data) <= bit_cost(codes, data)
            &&& forall|i: int, j: int|
                0 <= i < j < r.len() ==> !#[trigger] swap_saves(r, data, i, j)
        }),
    decreases bit_cost(codes, data),
{
    let next = swap_rows(codes, data, codes.len());
    lemma_swap_rows_cost(codes, data, codes.len());
    lemma_swap_rows_ok(codes, data, codes.len());
    if bit_cost(next, data) < bit_cost(codes, data) {
        lemma_settled_saves_nothing(next, data);
    }
}

/// In the table for `data` no byte value has a longer word than one that occurs less often.
pub proof fn lemma_frequent_are_short(data: Seq<u8>, i: int, j: int)
    requires
        0 <= i < egap_codes(data).len(),
        0 <= j < egap_codes(data).len(),
        count_of(data, egap_codes(data)[i].symbol) > count_of(data, egap_codes(data)[j].symbol),
    ensures
        egap_codes(data)[i].code_len <= egap_codes(data)[j].code_len,
{
    let first = assigned_codes(data);
    lemma_ranked(data);
    lemma_assigned_ok(data);
    lemma_gap_settled_ok(first);
    lemma_settled_saves_nothing(gap_settled(first), data);
    let r = egap_codes(data);
    let (a, b) = if i < j {
        (i, j)
    } else {
        (j, i)
    };
    assert(!swap_saves(r, data, a, b));
    lemma_swap_condition(
        count_of(data, r[a].symbol),
        count_of(data, r[b].symbol),
        r[a].code_len as nat,
        r[b].code_len as nat,
    );
}

proof fn lemma_occurring_order(data: Seq<u8>, k: nat, i: int, j: int)
    requires
        k <= 256,
        data.len() <= u128::MAX,
        0 <= i < j < occurring(data, order_desc(count_keys(data)), k).len(),
    ensures
        ({
            let all = occurring(data, order_desc(count_keys(data)), k);
            count_of(data, all[i]) > count_of(data, all[j]) || (count_of(data, all[i]) == count_of(
                data,
                all[j],
            ) && all[i] < all[j])
        }),
    decreases k,
{
    let order = order_desc(count_keys(data));
    lemma_order_desc(count_keys(data));
    let all = occurring(data, order, k);
    let before = occurring(data, order, (k - 1) as nat);
    if j < before.len() {
        lemma_occurring_order(data, (k - 1) as nat, i, j);
        assert(all[i] == before[i] && all[j] == before[j]);
    } else {
        lemma_occurring(data, order, (k - 1) as nat);
        assert(all[i] == before[i]);
        assert(before.contains(before[i]));
        let m = choose|m: int| 0 <= m < k - 1 && #[trigger] order[m] == before[i];
        assert(all[j] == order[k - 1] as u8);
        lemma_larger_first(count_keys(data), m, k - 1);
        lemma_count_of_bound(data, all[i]);
        lemma_count_of_bound(data, all[j]);
        assert(count_keys(data)[order[m] as int] == count_of(data, all[i]) as u128);
        assert(count_keys(data)[order[k - 1] as int] == count_of(data, all[j]) as u128);
    }
}

/// The byte values are ranked by how often they occur, and those that occur as often by their value.
pub proof fn lemma_ranked_by_frequency(data: Seq<u8>, i: int, j: int)
    requires
        data.len() <= u128::MAX,
        0 <= i < j < ranked(data).len(),
    ensures
        count_of(data, ranked(data)[i]) >= count_of(data, ranked(data)[j]),
        count_of(data, ranked(data)[i]) == count_of(data, ranked(data)[j]) ==> ranked(data)[i]
            < ranked(data)[j],
{
    lemma_occurring_order(data, 256, i, j);
}

} // verus!
