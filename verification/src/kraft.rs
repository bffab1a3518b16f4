//! Code tables without gaps: where no entry could have a shorter word, the words together use up
//! the whole tree.

use vstd::arithmetic::div_mod::{lemma_div_denominator, lemma_fundamental_div_mod};
use vstd::arithmetic::power2::{lemma2_to64, lemma_pow2_adds, lemma_pow2_pos, pow2};
use vstd::prelude::*;

use crate::egap_codes::{
    assigned_codes, bit_cost, clash, egap_codes, gap_candidate, gap_pass, gap_settled, gap_step,
    gap_steps, gap_word, is_gap_word, lemma_assigned_ok, lemma_gap_settled_ok, lemma_gap_steps_ok,
    lemma_gap_word_exists, lemma_swap_row_ok, lemma_swap_rows_ok, lemma_total_len_update,
    length_keys, ranked, swap_row, swap_rows, swap_saves, swap_settled, swap_step, total_len,
    with_word, word_free, words_of, words_ok, EgapCode,
};
use crate::sort::{lemma_holds_all, lemma_order_desc, order_desc};

verus! {

/// How many of the words of eight bits begin with a word of `len` bits.
pub open spec fn share(len: u8) -> nat {
    pow2((8 - len) as nat)
}

/// The shares of all words together. A prefix-free code is complete where they are all 256 words
/// of eight bits: the sum of `2^-len` is one.
pub open spec fn weight(codes: Seq<EgapCode>) -> nat
    decreases codes.len(),
{
    if codes.len() == 0 {
        0
    } else {
        weight(codes.drop_last()) + share(codes.last().code_len)
    }
}

/// The word of eight bits `x` begins with the entry's word.
pub open spec fn covers(code: EgapCode, x: nat) -> bool {
    x / share(code.code_len) == code.code_bits
}

/// How many of the words of eight bits below `x` begin with the entry's word.
spec fn part(code: EgapCode, x: nat) -> int {
    let p = share(code.code_len);
    let from = code.code_bits * p;
    if x <= from {
        0
    } else if x >= from + p {
        p as int
    } else {
        x - from
    }
}

spec fn parts(codes: Seq<EgapCode>, x: nat) -> int
    decreases codes.len(),
{
    if codes.len() == 0 {
        0
    } else {
        parts(codes.drop_last(), x) + part(codes.last(), x)
    }
}

proof fn lemma_share(len: u8)
    requires
        1 <= len <= 8,
    ensures
        share(len) >= 1,
        share(len) * pow2(len as nat) == 256,
{
    lemma2_to64();
    lemma_pow2_pos((8 - len) as nat);
    lemma_pow2_adds((8 - len) as nat, len as nat);
}

/// What a word says of those it begins, in terms of the numbers from its first to its last.
proof fn lemma_covers(code: EgapCode, x: nat)
    requires
        1 <= code.code_len <= 8,
    ensures
        covers(code, x) <==> code.code_bits * share(code.code_len) <= x < code.code_bits * share(
            code.code_len,
        ) + share(code.code_len),
{
    lemma_share(code.code_len);
    let p = share(code.code_len) as int;
    let b = code.code_bits as int;
    let n = x as int;
    lemma_fundamental_div_mod(n, p);
    assert(n / p == b <==> b * p <= n < b * p + p) by (nonlinear_arith)
        requires
            n == p * (n / p) + n % p,
            0 <= n % p < p,
            p >= 1,
    ;
}

proof fn lemma_part_step(code: EgapCode, x: nat)
    requires
        1 <= code.code_len <= 8,
    ensures
        part(code, x + 1) == part(code, x) + (if covers(code, x) {
            1int
        } else {
            0int
        }),
{
    lemma_share(code.code_len);
    lemma_covers(code, x);
}

proof fn lemma_parts_step(codes: Seq<EgapCode>, x: nat, k: int)
    requires
        forall|i: int| 0 <= i < codes.len() ==> 1 <= (#[trigger] codes[i]).code_len <= 8,
        forall|i: int| 0 <= i < codes.len() ==> (covers(#[trigger] codes[i], x) <==> i == k),
    ensures
        parts(codes, x + 1) == parts(codes, x) + (if 0 <= k < codes.len() {
            1int
        } else {
            0int
        }),
    decreases codes.len(),
{
    if codes.len() > 0 {
        let front = codes.drop_last();
        assert forall|i: int| 0 <= i < front.len() implies 1 <= (#[trigger] front[i]).code_len <= 8
            && (covers(front[i], x) <==> i == k) by {
            assert(front[i] == codes[i]);
        }
        lemma_parts_step(front, x, k);
        assert(1 <= codes[codes.len() - 1].code_len <= 8);
        assert(covers(codes[codes.len() - 1], x) <==> codes.len() - 1 == k);
        lemma_part_step(codes.last(), x);
    }
}

/// A word that begins `x` is a prefix of every longer word that does.
proof fn lemma_both_cover(a: EgapCode, b: EgapCode, x: nat)
    requires
        1 <= a.code_len <= b.code_len <= 8,
        covers(a, x),
        covers(b, x),
    ensures
        clash(a.code_bits, a.code_len, b.code_bits, b.code_len),
{
    lemma_shorter(x, a.code_len, b.code_len);
}

/// The first bits of the first bits.
proof fn lemma_shorter(x: nat, short: u8, long: u8)
    requires
        1 <= short <= long <= 8,
    ensures
        (x / share(long)) / pow2((long - short) as nat) == x / share(short),
{
    lemma_share(long);
    lemma_pow2_pos((long - short) as nat);
    lemma_pow2_adds((8 - long) as nat, (long - short) as nat);
    lemma_div_denominator(x as int, share(long) as int, pow2((long - short) as nat) as int);
}

/// The word of eight bits `x` begins with one of the words.
spec fn covered(codes: Seq<EgapCode>, x: nat) -> bool {
    exists|i: int| 0 <= i < codes.len() && covers(#[trigger] codes[i], x)
}

/// Each word of eight bits begins with one of the words.
spec fn all_covered(codes: Seq<EgapCode>) -> bool {
    forall|x: nat| x < 256 ==> #[trigger] covered(codes, x)
}

proof fn lemma_parts_count(codes: Seq<EgapCode>, x: nat)
    requires
        words_ok(words_of(codes)),
        all_covered(codes),
        x <= 256,
    ensures
        parts(codes, x) == x,
    decreases x,
{
    let words = words_of(codes);
    if x == 0 {
        lemma_parts_zero(codes);
    } else {
        let y = (x - 1) as nat;
        lemma_parts_count(codes, y);
        assert(covered(codes, y));
        let k = choose|i: int| 0 <= i < codes.len() && covers(#[trigger] codes[i], y);
        assert forall|i: int| 0 <= i < codes.len() implies 1 <= (#[trigger] codes[i]).code_len <= 8
            && (covers(codes[i], y) <==> i == k) by {
            assert(1 <= words[i].1 <= 8);
            assert(1 <= words[k].1 <= 8);
            if covers(codes[i], y) && i != k {
                assert(!clash(words[i].0, words[i].1, words[k].0, words[k].1));
                if codes[i].code_len <= codes[k].code_len {
                    lemma_both_cover(codes[i], codes[k], y);
                } else {
                    lemma_both_cover(codes[k], codes[i], y);
                }
            }
        }
        lemma_parts_step(codes, y, k);
    }
}

proof fn lemma_parts_zero(codes: Seq<EgapCode>)
    ensures
        parts(codes, 0) == 0,
    decreases codes.len(),
{
    if codes.len() > 0 {
        lemma_parts_zero(codes.drop_last());
        let c = codes.last();
        assert(c.code_bits * share(c.code_len) >= 0) by (nonlinear_arith)
            requires
                c.code_bits >= 0,
                share(c.code_len) >= 0,
        ;
    }
}

proof fn lemma_parts_all(codes: Seq<EgapCode>)
    requires
        forall|i: int|
            0 <= i < codes.len() ==> 1 <= (#[trigger] codes[i]).code_len <= 8 && codes[i].code_bits
                < pow2(codes[i].code_len as nat),
    ensures
        parts(codes, 256) == weight(codes),
    decreases codes.len(),
{
    if codes.len() > 0 {
        let front = codes.drop_last();
        assert forall|i: int| 0 <= i < front.len() implies 1 <= (#[trigger] front[i]).code_len <= 8
            && front[i].code_bits < pow2(front[i].code_len as nat) by {
            assert(front[i] == codes[i]);
        }
        lemma_parts_all(front);
        let c = codes[codes.len() - 1];
        lemma_share(c.code_len);
        let p = share(c.code_len);
        let b = c.code_bits as nat;
        let q = pow2(c.code_len as nat);
        assert(b * p + p <= 256) by (nonlinear_arith)
            requires
                b + 1 <= q,
                p * q == 256,
        ;
        assert(p >= 1);
    }
}

/// Prefix-free words that begin every word of eight bits have all of the weight.
proof fn lemma_covered_weight(codes: Seq<EgapCode>)
    requires
        words_ok(words_of(codes)),
        all_covered(codes),
    ensures
        weight(codes) == 256,
{
    lemma_parts_count(codes, 256);
    let words = words_of(codes);
    assert forall|i: int| 0 <= i < codes.len() implies 1 <= (#[trigger] codes[i]).code_len <= 8
        && codes[i].code_bits < pow2(codes[i].code_len as nat) by {
        assert(1 <= words[i].1 <= 8 && words[i].0 < pow2(words[i].1 as nat));
    }
    lemma_parts_all(codes);
}

/// No entry could have a shorter word.
pub open spec fn no_gaps(codes: Seq<EgapCode>) -> bool {
    forall|i: int, word: (u8, u32)|
        0 <= i < codes.len() ==> !(#[trigger] gap_candidate(codes, i, word))
}

spec fn is_longest(codes: Seq<EgapCode>, i: int) -> bool {
    0 <= i < codes.len() && forall|j: int|
        0 <= j < codes.len() ==> (#[trigger] codes[j]).code_len <= codes[i].code_len
}

proof fn lemma_longest(codes: Seq<EgapCode>) -> (i: int)
    requires
        codes.len() > 0,
    ensures
        is_longest(codes, i),
    decreases codes.len(),
{
    let last = codes.len() - 1;
    if last == 0 {
        0
    } else {
        let front = codes.drop_last();
        let k = lemma_longest(front);
        assert forall|j: int| 0 <= j < front.len() implies (#[trigger] codes[j]).code_len
            <= codes[k].code_len by {
            assert(front[j] == codes[j]);
            assert(front[k] == codes[k]);
        }
        if codes[last].code_len > codes[k].code_len {
            last
        } else {
            k
        }
    }
}

proof fn lemma_no_shift(b: nat)
    ensures
        b / pow2(0) == b,
{
    lemma2_to64();
    assert(b / pow2(0) == b) by (nonlinear_arith)
        requires
            pow2(0) == 1,
    ;
}

/// Two words of one bit begin everything.
proof fn lemma_two_short(codes: Seq<EgapCode>, x: nat)
    requires
        codes.len() >= 2,
        words_ok(words_of(codes)),
        codes[0].code_len == 1,
        codes[1].code_len == 1,
        x < 256,
    ensures
        covers(codes[0], x) || covers(codes[1], x),
{
    let words = words_of(codes);
    lemma2_to64();
    lemma_share(1);
    assert(words[0].0 < pow2(words[0].1 as nat));
    assert(words[1].0 < pow2(words[1].1 as nat));
    assert(!clash(words[0].0, words[0].1, words[1].0, words[1].1));
    lemma_no_shift(words[1].0 as nat);
    assert(share(1) == 128);
    assert(x / 128 == 0 || x / 128 == 1);
}

/// Where `x` begins with none of the words, one of the longest words could be shorter.
proof fn lemma_uncovered_gap(codes: Seq<EgapCode>, x: nat) -> (r: (int, (u8, u32)))
    requires
        codes.len() >= 2,
        words_ok(words_of(codes)),
        x < 256,
        forall|i: int| 0 <= i < codes.len() ==> !covers(#[trigger] codes[i], x),
    ensures
        0 <= r.0 < codes.len(),
        gap_candidate(codes, r.0, r.1),
{
    let words = words_of(codes);
    let longest = lemma_longest(codes);
    let top = codes[longest].code_len;
    assert(1 <= words[longest].1 <= 8);
    if top == 1 {
        assert(1 <= words[0].1 && 1 <= words[1].1);
        assert(codes[0].code_len <= top && codes[1].code_len <= top);
        lemma_two_short(codes, x);
        assert(covers(codes[0], x) || covers(codes[1], x));
    }
    let len = (top - 1) as u8;
    let parent = x / share(len);
    lemma_parent(x, top);
    lemma_share(len);
    let word = (len, parent as u32);
    assert(word.1 as nat == parent);
    let i = if exists|j: int| #[trigger] is_twin(codes, j, top, parent) {
        choose|j: int| #[trigger] is_twin(codes, j, top, parent)
    } else {
        longest
    };
    assert(0 <= i < codes.len() && codes[i].code_len == top);
    assert forall|j: int| 0 <= j < codes.len() && j != i implies !clash(
        word.1,
        word.0,
        (#[trigger] codes[j]).code_bits,
        codes[j].code_len,
    ) by {
        let c = codes[j];
        assert(1 <= words[j].1 <= 8);
        assert(!covers(c, x));
        assert(!covers(codes[i], x));
        if clash(word.1, word.0, c.code_bits, c.code_len) {
            lemma_parent_clash(c, x, top);
        }
        if c.code_len == top && c.code_bits as nat / 2 == parent {
            assert(is_twin(codes, j, top, parent));
            assert(is_twin(codes, i, top, parent));
            assert(!clash(words[i].0, words[i].1, words[j].0, words[j].1));
            lemma_no_shift(c.code_bits as nat);
            assert((x / share(top)) / 2 == parent);
        }
    }
    assert(word_free(codes, i, word.1, word.0));
    (i, word)
}

/// Entry `j` has a word of `top` bits that is one of the two below `parent`.
spec fn is_twin(codes: Seq<EgapCode>, j: int, top: u8, parent: nat) -> bool {
    &&& 0 <= j < codes.len()
    &&& codes[j].code_len == top
    &&& codes[j].code_bits as nat / 2 == parent
}

/// A word that does not begin `x` clashes with the first `top - 1` bits of `x` only from below.
proof fn lemma_parent_clash(c: EgapCode, x: nat, top: u8)
    requires
        1 <= c.code_len <= top,
        2 <= top <= 8,
        x < 256,
        !covers(c, x),
        clash((x / share((top - 1) as u8)) as u32, (top - 1) as u8, c.code_bits, c.code_len),
    ensures
        c.code_len == top,
        c.code_bits as nat / 2 == x / share((top - 1) as u8),
{
    let len = (top - 1) as u8;
    lemma_parent(x, top);
    lemma2_to64();
    let parent = x / share(len);
    assert((parent as u32) as nat == parent);
    if c.code_len <= len {
        lemma_shorter(x, c.code_len, len);
        if c.code_len == len {
            lemma_no_shift(c.code_bits as nat);
        }
    }
}

proof fn lemma_parent(x: nat, top: u8)
    requires
        2 <= top <= 8,
        x < 256,
    ensures
        (x / share(top)) / 2 == x / share((top - 1) as u8),
        x / share((top - 1) as u8) < pow2((top - 1) as nat),
        pow2((top - 1) as nat) <= 256,
{
    let len = (top - 1) as u8;
    lemma2_to64();
    lemma_shorter(x, len, top);
    lemma_share(len);
    let p = share(len) as int;
    let q = pow2(len as nat) as int;
    let n = x as int;
    lemma_fundamental_div_mod(n, p);
    assert(n / p < q) by (nonlinear_arith)
        requires
            n == p * (n / p) + n % p,
            n % p >= 0,
            n < p * q,
            p >= 1,
    ;
    assert(q <= 256) by (nonlinear_arith)
        requires
            p * q == 256,
            p >= 1,
            q >= 0,
    ;
}

/// Of two words or more none of which could be shorter, the weight is all there is.
pub proof fn lemma_no_gaps_complete(codes: Seq<EgapCode>)
    requires
        codes.len() >= 2,
        words_ok(words_of(codes)),
        no_gaps(codes),
    ensures
        weight(codes) == 256,
{
    assert forall|x: nat| x < 256 implies #[trigger] covered(codes, x) by {
        if !covered(codes, x) {
            let (i, word) = lemma_uncovered_gap(codes, x);
            assert(gap_candidate(codes, i, word));
        }
    }
    lemma_covered_weight(codes);
}

/// A step shortens a word, or there is no shorter one.
proof fn lemma_gap_step_shortens(codes: Seq<EgapCode>, i: int)
    requires
        0 <= i < codes.len(),
    ensures
        gap_word(codes, i) is None ==> gap_step(codes, i) == codes,
        gap_word(codes, i) is Some ==> total_len(gap_step(codes, i)) < total_len(codes),
{
    if exists|word: (u8, u32)| #[trigger] gap_candidate(codes, i, word) {
        let any = choose|word: (u8, u32)| #[trigger] gap_candidate(codes, i, word);
        lemma_gap_word_exists(codes, i, any);
        let word = choose|word: (u8, u32)| #[trigger] is_gap_word(codes, i, word);
        let code = EgapCode { symbol: codes[i].symbol, code_len: word.0, code_bits: word.1 };
        lemma_total_len_update(codes, i, code);
    }
}

proof fn lemma_gap_steps_settled(codes: Seq<EgapCode>, order: Seq<usize>, k: nat)
    requires
        k <= order.len(),
        words_ok(words_of(codes)),
        forall|m: int| 0 <= m < order.len() ==> (#[trigger] order[m]) < codes.len(),
    ensures
        total_len(gap_steps(codes, order, k)) <= total_len(codes),
        total_len(gap_steps(codes, order, k)) == total_len(codes) ==> gap_steps(codes, order, k)
            == codes && forall|m: int|
            0 <= m < k ==> gap_word(codes, #[trigger] order[m] as int) is None,
    decreases k,
{
    if k > 0 {
        lemma_gap_steps_settled(codes, order, (k - 1) as nat);
        lemma_gap_steps_ok(codes, order, (k - 1) as nat);
        let before = gap_steps(codes, order, (k - 1) as nat);
        lemma_gap_step_shortens(before, order[k - 1] as int);
    }
}

/// Behind the last pass no entry could have a shorter word.
pub proof fn lemma_settled_no_gaps(codes: Seq<EgapCode>)
    requires
        words_ok(words_of(codes)),
        codes.len() <= 256,
    ensures
        no_gaps(gap_settled(codes)),
    decreases total_len(codes),
{
    let keys = length_keys(codes);
    let order = order_desc(keys);
    lemma_order_desc(keys);
    let next = gap_pass(codes);
    lemma_gap_steps_ok(codes, order, codes.len());
    lemma_gap_steps_settled(codes, order, codes.len());
    if total_len(next) < total_len(codes) {
        lemma_settled_no_gaps(next);
    } else {
        assert forall|i: int, word: (u8, u32)| 0 <= i < codes.len() implies !(
        #[trigger] gap_candidate(codes, i, word)) by {
            lemma_holds_all(order, codes.len(), i);
            let m = choose|m: int| 0 <= m < codes.len() && #[trigger] order[m] == i;
            assert(gap_word(codes, order[m] as int) is None);
        }
    }
}

proof fn lemma_weight_update(codes: Seq<EgapCode>, i: int, code: EgapCode)
    requires
        0 <= i < codes.len(),
    ensures
        weight(codes.update(i, code)) == weight(codes) - share(codes[i].code_len) + share(
            code.code_len,
        ),
    decreases codes.len(),
{
    let new = codes.update(i, code);
    if i == codes.len() - 1 {
        assert(new.drop_last() =~= codes.drop_last());
    } else {
        lemma_weight_update(codes.drop_last(), i, code);
        assert(new.drop_last() =~= codes.drop_last().update(i, code));
    }
}

proof fn lemma_swap_keeps_weight(codes: Seq<EgapCode>, data: Seq<u8>, i: int, j: int)
    requires
        0 <= i < j < codes.len(),
    ensures
        weight(swap_step(codes, data, i, j)) == weight(codes),
{
    if swap_saves(codes, data, i, j) {
        let mid = codes.update(i, with_word(codes[i], codes[j]));
        lemma_weight_update(codes, i, with_word(codes[i], codes[j]));
        lemma_weight_update(mid, j, with_word(codes[j], codes[i]));
    }
}

proof fn lemma_row_keeps_weight(codes: Seq<EgapCode>, data: Seq<u8>, i: nat, k: nat)
    requires
        i < codes.len(),
        k <= codes.len(),
        words_ok(words_of(codes)),
    ensures
        weight(swap_row(codes, data, i, k)) == weight(codes),
    decreases k,
{
    if k > i + 1 {
        lemma_row_keeps_weight(codes, data, i, (k - 1) as nat);
        lemma_swap_row_ok(codes, data, i, (k - 1) as nat);
        lemma_swap_keeps_weight(swap_row(codes, data, i, (k - 1) as nat), data, i as int, k - 1);
    }
}

proof fn lemma_rows_keep_weight(codes: Seq<EgapCode>, data: Seq<u8>, k: nat)
    requires
        k <= codes.len(),
        words_ok(words_of(codes)),
    ensures
        weight(swap_rows(codes, data, k)) == weight(codes),
    decreases k,
{
    if k > 0 {
        lemma_rows_keep_weight(codes, data, (k - 1) as nat);
        lemma_swap_rows_ok(codes, data, (k - 1) as nat);
        lemma_row_keeps_weight(
            swap_rows(codes, data, (k - 1) as nat),
            data,
            (k - 1) as nat,
            codes.len(),
        );
    }
}

proof fn lemma_swaps_keep_weight(codes: Seq<EgapCode>, data: Seq<u8>)
    requires
        words_ok(words_of(codes)),
    ensures
        weight(swap_settled(codes, data)) == weight(codes),
    decreases bit_cost(codes, data),
{
    lemma_rows_keep_weight(codes, data, codes.len());
    lemma_swap_rows_ok(codes, data, codes.len());
    let next = swap_rows(codes, data, codes.len());
    if bit_cost(next, data) < bit_cost(codes, data) {
        lemma_swaps_keep_weight(next, data);
    }
}

/// The code table of data with two byte values or more is complete: the sum of `2^-len` over its
/// words is one.
pub proof fn lemma_egap_codes_complete(data: Seq<u8>)
    requires
        ranked(data).len() >= 2,
    ensures
        weight(egap_codes(data)) == 256,
{
    let first = assigned_codes(data);
    lemma_assigned_ok(data);
    lemma_gap_settled_ok(first);
    lemma_settled_no_gaps(first);
    lemma_no_gaps_complete(gap_settled(first));
    lemma_swaps_keep_weight(gap_settled(first), data);
}

} // verus!
