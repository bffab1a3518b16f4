//! Equations with symbols can be read back by their table.

use vstd::prelude::*;

use crate::coefficients::{
    assigned, by_length, coefficient_text, equation_text, frequent_ones, further_pairs, has_part,
    has_symbol, inner_parts, lemma_assigned_step, lemma_point, lemma_symbols_given,
    lemma_total_bound, letter_pairs, letters, list_parts, listed_pairs, longest_part, number_parts,
    numbers, pair_for, pair_rules, parts_from, point_at, power_text, sample_total, sampled,
    sampled_numbers, saving_ranks, scored, sign_text, signs, symbol_rules, terms_text, total_bound,
    unused, whole_pairs, EquationTermValue, PairValue, COEFF_SUBSTR_MIN_LEN,
};
use crate::display::ascii_text;
use crate::natural::{decimal, digit_char};
use crate::shorthand::{
    is_code, is_digit, is_lower, is_plain, is_symbol, lemma_meaning_concat, lemma_meaning_plain,
    lemma_meaning_symbol, lemma_shorthand_keeps, meaning, shorthand, Rule,
};
use crate::sort::{
    lemma_order_desc, lemma_ordered, lemma_rank_order_total, order_desc, order_ranked, rank_order,
};
use crate::tally::{firsts, lemma_firsts, lemma_times, tallied};
use crate::windows::Counted;

verus! {

/// A character of the notation of a number.
pub open spec fn is_numeral(c: char) -> bool {
    is_digit(c) || c == '.' || c == 'e' || c == '-'
}

/// The notation of a number.
pub open spec fn is_notation(text: Seq<u8>) -> bool {
    forall|i: int| 0 <= i < text.len() ==> is_numeral(#[trigger] ascii_text(text)[i])
}

/// The counts are of notations.
pub open spec fn are_notations(list: Seq<Counted>) -> bool {
    forall|i: int| 0 <= i < list.len() ==> is_notation((#[trigger] list[i]).chunk)
}

/// The rules for the powers of the variable.
pub open spec fn power_rules() -> Seq<Rule> {
    seq![
        Rule { part: seq!['u', '3'], symbol: seq!['@'] },
        Rule { part: seq!['u', '2'], symbol: seq!['`'] },
    ]
}

/// What the table lists: the letters, the further parts, the whole numbers and the powers.
pub open spec fn table_rules(parts: Seq<Counted>, wholes: Seq<Counted>) -> Seq<Rule> {
    pair_rules(letter_pairs(parts) + listed_pairs(parts, wholes) + whole_pairs(parts, wholes))
        + power_rules()
}

/// A power of the variable without symbols.
pub open spec fn plain_power(degree: nat) -> Seq<char> {
    if degree == 0 {
        Seq::empty()
    } else if degree == 1 {
        seq!['u']
    } else {
        seq!['u'] + decimal(degree)
    }
}

/// The first `n` terms of an equation without symbols.
pub open spec fn plain_terms(terms: Seq<EquationTermValue>, n: nat) -> Seq<char>
    decreases n,
{
    if n == 0 {
        Seq::empty()
    } else {
        let t = terms[n - 1];
        let value = if t.degree > 0 && t.unit {
            Seq::empty()
        } else {
            ascii_text(t.text)
        };
        plain_terms(terms, (n - 1) as nat) + sign_text(t.negative, n == 1) + value + plain_power(
            t.degree as nat,
        )
    }
}

/// The line for an equation without symbols: each coefficient in its own notation.
pub open spec fn plain_equation(terms: Seq<EquationTermValue>) -> Seq<char> {
    if terms.len() == 0 {
        seq!['0', '\n']
    } else {
        plain_terms(terms, terms.len()).push('\n')
    }
}

/// Where a letter comes among the letters.
spec fn letter_place(c: char) -> int {
    if c == 'd' {
        0
    } else if c == 'f' {
        1
    } else if c == 'h' {
        2
    } else if c == 'k' {
        3
    } else if c == 'm' {
        4
    } else if c == 'p' {
        5
    } else if c == 'q' {
        6
    } else if c == 'r' {
        7
    } else if c == 't' {
        8
    } else if c == 'v' {
        9
    } else if c == 'w' {
        10
    } else if c == 'y' {
        11
    } else if c == 'z' {
        12
    } else if c == 'b' {
        13
    } else if c == 'c' {
        14
    } else if c == 'g' {
        15
    } else if c == 'j' {
        16
    } else if c == 'l' {
        17
    } else if c == 'a' {
        18
    } else if c == 'o' {
        19
    } else {
        -1
    }
}

/// Where a sign comes among the signs.
spec fn sign_place(c: char) -> int {
    if c == '#' {
        0
    } else if c == '$' {
        1
    } else if c == '%' {
        2
    } else if c == '&' {
        3
    } else if c == '*' {
        4
    } else if c == '(' {
        5
    } else if c == ')' {
        6
    } else if c == '[' {
        7
    } else if c == ']' {
        8
    } else if c == '{' {
        9
    } else if c == '}' {
        10
    } else if c == ':' {
        11
    } else if c == ';' {
        12
    } else if c == '\'' {
        13
    } else if c == '"' {
        14
    } else if c == '<' {
        15
    } else if c == '>' {
        16
    } else if c == '?' {
        17
    } else if c == '/' {
        18
    } else if c == '!' {
        19
    } else if c == 'A' {
        20
    } else if c == 'B' {
        21
    } else if c == 'C' {
        22
    } else if c == 'D' {
        23
    } else if c == 'E' {
        24
    } else if c == 'F' {
        25
    } else if c == 'G' {
        26
    } else if c == 'H' {
        27
    } else if c == 'I' {
        28
    } else if c == 'J' {
        29
    } else if c == 'K' {
        30
    } else if c == 'L' {
        31
    } else if c == 'M' {
        32
    } else if c == 'N' {
        33
    } else if c == 'O' {
        34
    } else if c == 'P' {
        35
    } else if c == 'Q' {
        36
    } else if c == 'R' {
        37
    } else if c == 'S' {
        38
    } else if c == 'T' {
        39
    } else if c == 'U' {
        40
    } else if c == 'V' {
        41
    } else if c == 'W' {
        42
    } else if c == 'X' {
        43
    } else if c == 'Y' {
        44
    } else if c == 'Z' {
        45
    } else {
        -1
    }
}

/// A character that no table gives a meaning.
spec fn is_free(c: char) -> bool {
    is_numeral(c) || c == '+' || c == 'u' || c == '\n'
}

proof fn lemma_letters()
    ensures
        letters().len() == 20,
        forall|i: int|
            0 <= i < letters().len() ==> 0 <= (letters()[i] as int) < 128 && letter_place(
                #[trigger] letters()[i],
            ) == i && is_lower(
                letters()[i],
            ) && !is_free(letters()[i]),
{
    reveal_strlit("dfhkmpqrtvwyzbcgjlao");
}

proof fn lemma_signs()
    ensures
        signs().len() == 46,
        forall|i: int|
            0 <= i < signs().len() ==> 0 <= (signs()[i] as int) < 128 && sign_place(
                #[trigger] signs()[i],
            ) == i && !is_lower(
                signs()[i],
            ) && !is_free(signs()[i]) && signs()[i] != '@' && signs()[i] != '`',
{
    reveal_strlit("#$%&*()[]{}:;'\"<>?/!ABCDEFGHIJKLMNOPQRSTUVWXYZ");
}

/// No two pairs have the same symbol, and the parts are notations.
spec fn pairs_ok(list: Seq<PairValue>) -> bool {
    &&& forall|i: int| 0 <= i < list.len() ==> is_notation((#[trigger] list[i]).part)
    &&& forall|i: int, j: int|
        0 <= i < j < list.len() ==> (#[trigger] list[i]).symbol != (#[trigger] list[j]).symbol
}

/// Every symbol is one of these.
spec fn symbols_from(list: Seq<PairValue>, symbols: Seq<char>) -> bool {
    forall|i: int| 0 <= i < list.len() ==> symbols.contains((#[trigger] list[i]).symbol)
}

proof fn lemma_frequent_ones(list: Seq<Counted>, whole: bool, n: nat)
    requires
        n <= list.len(),
        are_notations(list),
    ensures
        are_notations(frequent_ones(list, whole, n)),
        frequent_ones(list, whole, n).len() <= n,
    decreases n,
{
    if n > 0 {
        lemma_frequent_ones(list, whole, (n - 1) as nat);
        assert(is_notation(list[n - 1].chunk));
    }
}

proof fn lemma_scored(list: Seq<Counted>, whole: bool)
    requires
        are_notations(list),
        list.len() <= usize::MAX,
    ensures
        forall|i: int|
            0 <= i < scored(list, whole).len() ==> is_notation(#[trigger] scored(list, whole)[i]),
{
    let kept = frequent_ones(list, whole, list.len());
    lemma_frequent_ones(list, whole, list.len());
    let order = order_ranked(saving_ranks(kept, whole));
    lemma_rank_order_total(saving_ranks(kept, whole));
    lemma_ordered(kept.len(), rank_order(saving_ranks(kept, whole)));
    assert forall|i: int| 0 <= i < scored(list, whole).len() implies is_notation(
        #[trigger] scored(list, whole)[i],
    ) by {
        assert(order[i] < kept.len());
        assert(is_notation(kept[order[i] as int].chunk));
    }
}

proof fn lemma_assigned(
    list: Seq<Seq<u8>>,
    symbols: Seq<char>,
    taken: Seq<PairValue>,
    also: Seq<PairValue>,
    n: nat,
)
    requires
        n <= list.len(),
        forall|k: int| 0 <= k < symbols.len() ==> 0 <= ((#[trigger] symbols[k]) as int) < 128,
        forall|i: int| 0 <= i < list.len() ==> is_notation(#[trigger] list[i]),
    ensures
        ({
            let a = assigned(list, symbols, taken, also, n);
            &&& a.len() <= symbols.len()
            &&& forall|j: int|
                0 <= j < a.len() ==> (#[trigger] a[j]).symbol == symbols[j] && is_notation(
                    a[j].part,
                )
        }),
    decreases n,
{
    if n > 0 {
        lemma_assigned(list, symbols, taken, also, (n - 1) as nat);
        assert(is_notation(list[n - 1]));
        let before = assigned(list, symbols, taken, also, (n - 1) as nat);
        let a = assigned(list, symbols, taken, also, n);
        lemma_assigned_step(list, symbols, taken, also, n);
        assert forall|j: int| 0 <= j < a.len() implies (#[trigger] a[j]).symbol == symbols[j]
            && is_notation(a[j].part) by {
            if j < before.len() {
                assert(a[j] == before[j]);
            }
        }
    }
}

proof fn lemma_by_length(list: Seq<PairValue>)
    requires
        list.len() <= usize::MAX,
    ensures
        by_length(list).len() == list.len(),
        forall|i: int| 0 <= i < list.len() ==> list.contains(#[trigger] by_length(list)[i]),
        pairs_ok(list) ==> pairs_ok(by_length(list)),
{
    let lens = Seq::new(list.len(), |i: int| list[i].part.len() as u128);
    let order = order_desc(lens);
    lemma_order_desc(lens);
    let b = by_length(list);
    assert forall|i: int| 0 <= i < list.len() implies list.contains(#[trigger] b[i]) by {
        assert(order[i] < list.len());
        assert(b[i] == list[order[i] as int]);
    }
    if pairs_ok(list) {
        assert forall|i: int| 0 <= i < b.len() implies is_notation((#[trigger] b[i]).part) by {
            assert(order[i] < list.len());
            assert(is_notation(list[order[i] as int].part));
        }
        assert forall|i: int, j: int| 0 <= i < j < b.len() implies (#[trigger] b[i]).symbol != (
        #[trigger] b[j]).symbol by {
            assert(order[i] != order[j]);
            let x = order[i] as int;
            let y = order[j] as int;
            assert(list[x].symbol != list[y].symbol);
        }
    }
}

proof fn lemma_assigned_pairs(
    list: Seq<Seq<u8>>,
    symbols: Seq<char>,
    taken: Seq<PairValue>,
    also: Seq<PairValue>,
)
    requires
        forall|i: int| 0 <= i < list.len() ==> is_notation(#[trigger] list[i]),
        forall|k: int| 0 <= k < symbols.len() ==> 0 <= ((#[trigger] symbols[k]) as int) < 128,
        symbols.len() <= usize::MAX,
        symbols.no_duplicates(),
    ensures
        pairs_ok(by_length(assigned(list, symbols, taken, also, list.len()))),
        symbols_from(by_length(assigned(list, symbols, taken, also, list.len())), symbols),
{
    let a = assigned(list, symbols, taken, also, list.len());
    lemma_assigned(list, symbols, taken, also, list.len());
    assert(pairs_ok(a)) by {
        assert forall|i: int, j: int| 0 <= i < j < a.len() implies (#[trigger] a[i]).symbol != (
        #[trigger] a[j]).symbol by {
            assert(symbols[i] != symbols[j]);
        }
    }
    lemma_by_length(a);
    let b = by_length(a);
    assert forall|i: int| 0 <= i < b.len() implies symbols.contains((#[trigger] b[i]).symbol) by {
        let j = choose|j: int| 0 <= j < a.len() && a[j] == b[i];
        assert(a[j].symbol == symbols[j]);
    }
}

proof fn lemma_unused(list: Seq<PairValue>, taken: Seq<PairValue>, n: nat)
    requires
        n <= list.len(),
        pairs_ok(list),
    ensures
        pairs_ok(unused(list, taken, n)),
        forall|i: int|
            0 <= i < unused(list, taken, n).len() ==> (exists|j: int|
                0 <= j < n && list[j] == #[trigger] unused(list, taken, n)[i]) && !has_symbol(
                taken,
                unused(list, taken, n)[i].symbol,
            ),
    decreases n,
{
    if n > 0 {
        lemma_unused(list, taken, (n - 1) as nat);
        let before = unused(list, taken, (n - 1) as nat);
        let now = unused(list, taken, n);
        if !has_symbol(taken, list[n - 1].symbol) {
            assert forall|i: int, j: int| 0 <= i < j < now.len() implies (#[trigger] now[i]).symbol
                != (#[trigger] now[j]).symbol by {
                assert(now[i] == before[i]);
                let k = choose|k: int| 0 <= k < n - 1 && list[k] == before[i];
                if j < before.len() {
                    assert(now[j] == before[j]);
                } else {
                    assert(list[k].symbol != list[n - 1].symbol);
                }
            }
            assert forall|i: int| 0 <= i < now.len() implies is_notation(
                (#[trigger] now[i]).part,
            ) by {
                if i < before.len() {
                    assert(now[i] == before[i]);
                }
            }
            assert forall|i: int| 0 <= i < now.len() implies (exists|j: int|
                0 <= j < n && list[j] == #[trigger] now[i]) && !has_symbol(taken, now[i].symbol) by {
                if i < before.len() {
                    assert(now[i] == before[i]);
                    let k = choose|k: int| 0 <= k < n - 1 && list[k] == before[i];
                    assert(list[k] == now[i]);
                } else {
                    assert(list[n - 1] == now[i]);
                }
            }
        }
    }
}

/// What holds of the pairs that the table lists.
proof fn lemma_listed(parts: Seq<Counted>, wholes: Seq<Counted>)
    requires
        are_notations(parts),
        are_notations(wholes),
        parts.len() <= usize::MAX,
        wholes.len() <= usize::MAX,
    ensures
        pairs_ok(letter_pairs(parts) + listed_pairs(parts, wholes) + whole_pairs(parts, wholes)),
        symbols_from(letter_pairs(parts), letters()),
        symbols_from(listed_pairs(parts, wholes), signs()),
        symbols_from(whole_pairs(parts, wholes), signs()),
        letter_pairs(parts).len() + listed_pairs(parts, wholes).len() <= usize::MAX,
{
    lemma_letters();
    lemma_signs();
    lemma_scored(parts, false);
    lemma_scored(wholes, true);
    assert(letters().no_duplicates()) by {
        assert forall|i: int, j: int| 0 <= i < letters().len() && 0 <= j < letters().len() && i
            != j implies letters()[i] != letters()[j] by {
            assert(letter_place(letters()[i]) == i);
        }
    }
    assert(signs().no_duplicates()) by {
        assert forall|i: int, j: int| 0 <= i < signs().len() && 0 <= j < signs().len() && i
            != j implies signs()[i] != signs()[j] by {
            assert(sign_place(signs()[i]) == i);
        }
    }
    let a = letter_pairs(parts);
    let w = whole_pairs(parts, wholes);
    let f = further_pairs(parts, wholes);
    let b = listed_pairs(parts, wholes);
    let none = Seq::<PairValue>::empty();
    lemma_assigned_pairs(scored(parts, false), letters(), none, none);
    lemma_assigned_pairs(scored(wholes, true), signs(), a, none);
    lemma_assigned_pairs(scored(parts, false), signs(), a, w);
    lemma_unused(f, w, f.len());
    lemma_lens(parts, wholes);
    assert forall|i: int| 0 <= i < b.len() implies signs().contains((#[trigger] b[i]).symbol) by {
        let j = choose|j: int| 0 <= j < f.len() && f[j] == b[i];
        assert(signs().contains(f[j].symbol));
    }
    let all = a + b + w;
    assert forall|i: int| 0 <= i < all.len() implies is_notation((#[trigger] all[i]).part) by {
        if i < a.len() {
            assert(all[i] == a[i]);
        } else if i < a.len() + b.len() {
            assert(all[i] == b[i - a.len()]);
        } else {
            assert(all[i] == w[i - a.len() - b.len()]);
        }
    }
    assert forall|i: int, j: int| 0 <= i < j < all.len() implies (#[trigger] all[i]).symbol != (
    #[trigger] all[j]).symbol by {
        lemma_apart(a, b, w, i, j);
    }
}

proof fn lemma_lens(parts: Seq<Counted>, wholes: Seq<Counted>)
    requires
        are_notations(parts),
        are_notations(wholes),
        parts.len() <= usize::MAX,
        wholes.len() <= usize::MAX,
    ensures
        letter_pairs(parts).len() <= 20,
        listed_pairs(parts, wholes).len() <= 46,
{
    lemma_letters();
    lemma_signs();
    lemma_scored(parts, false);
    let list = scored(parts, false);
    let none = Seq::<PairValue>::empty();
    lemma_assigned(list, letters(), none, none, list.len());
    lemma_by_length(assigned(list, letters(), none, none, list.len()));
    let a = letter_pairs(parts);
    let w = whole_pairs(parts, wholes);
    lemma_assigned(list, signs(), a, w, list.len());
    lemma_by_length(assigned(list, signs(), a, w, list.len()));
    let f = further_pairs(parts, wholes);
    lemma_unused_len(f, w, f.len());
}

proof fn lemma_unused_len(list: Seq<PairValue>, taken: Seq<PairValue>, n: nat)
    ensures
        unused(list, taken, n).len() <= n,
    decreases n,
{
    if n > 0 {
        lemma_unused_len(list, taken, (n - 1) as nat);
    }
}

proof fn lemma_apart(a: Seq<PairValue>, b: Seq<PairValue>, w: Seq<PairValue>, i: int, j: int)
    requires
        pairs_ok(a),
        pairs_ok(b),
        pairs_ok(w),
        symbols_from(a, letters()),
        symbols_from(b, signs()),
        symbols_from(w, signs()),
        forall|k: int| 0 <= k < b.len() ==> !has_symbol(w, (#[trigger] b[k]).symbol),
        0 <= i < j < (a + b + w).len(),
    ensures
        (a + b + w)[i].symbol != (a + b + w)[j].symbol,
{
    lemma_letters();
    lemma_signs();
    let all = a + b + w;
    let n = a.len();
    let m = n + b.len();
    if j < n {
        assert(all[i] == a[i] && all[j] == a[j]);
    } else if i < n {
        assert(all[i] == a[i]);
        assert(letters().contains(a[i].symbol));
        assert(is_lower(a[i].symbol));
        if j < m {
            assert(all[j] == b[j - n]);
            assert(signs().contains(b[j - n].symbol));
        } else {
            assert(all[j] == w[j - m]);
            assert(signs().contains(w[j - m].symbol));
        }
        assert(!is_lower(all[j].symbol));
    } else if j < m {
        assert(all[i] == b[i - n] && all[j] == b[j - n]);
    } else if i < m {
        assert(all[i] == b[i - n] && all[j] == w[j - m]);
        assert(!has_symbol(w, b[i - n].symbol));
    } else {
        assert(all[i] == w[i - m] && all[j] == w[j - m]);
    }
}

/// The table is a code: every symbol is a character of its own, and stands in no part.
pub proof fn lemma_table_is_code(parts: Seq<Counted>, wholes: Seq<Counted>)
    requires
        are_notations(parts),
        are_notations(wholes),
        parts.len() <= usize::MAX,
        wholes.len() <= usize::MAX,
    ensures
        is_code(table_rules(parts, wholes)),
{
    lemma_listed(parts, wholes);
    lemma_free(parts, wholes);
    let a = letter_pairs(parts);
    let b = listed_pairs(parts, wholes);
    let w = whole_pairs(parts, wholes);
    let all = a + b + w;
    let rules = table_rules(parts, wholes);
    let n = all.len();
    assert forall|i: int| 0 <= i < rules.len() implies is_plain(
        (#[trigger] rules[i]).part,
        rules,
    ) by {
        let part = rules[i].part;
        if i < n {
            assert(rules[i] == pair_rules(all)[i]);
            assert(is_notation(all[i].part));
            assert forall|k: int| 0 <= k < part.len() implies !is_symbol(
                #[trigger] part[k],
                rules,
            ) by {
                assert(is_numeral(ascii_text(all[i].part)[k]));
                assert(is_free(part[k]));
            }
        } else {
            assert(rules[i] == power_rules()[i - n]);
            assert forall|k: int| 0 <= k < part.len() implies !is_symbol(
                #[trigger] part[k],
                rules,
            ) by {
                assert(is_free(part[k]));
            }
        }
    }
    assert forall|i: int, j: int| 0 <= i < j < rules.len() implies (#[trigger] rules[i]).symbol != (
    #[trigger] rules[j]).symbol by {
        if j < n {
            assert(rules[i] == pair_rules(all)[i] && rules[j] == pair_rules(all)[j]);
            assert(all[i].symbol != all[j].symbol);
            assert(rules[i].symbol[0] == all[i].symbol && rules[j].symbol[0] == all[j].symbol);
        } else if i < n {
            assert(rules[i] == pair_rules(all)[i] && rules[j] == power_rules()[j - n]);
            lemma_not_power(parts, wholes, i);
            assert(rules[i].symbol[0] == all[i].symbol);
            assert(rules[j].symbol[0] == '@' || rules[j].symbol[0] == '`');
        } else {
            assert(rules[i] == power_rules()[i - n] && rules[j] == power_rules()[j - n]);
            assert(rules[i].symbol[0] == '@' && rules[j].symbol[0] == '`');
        }
    }
    assert forall|i: int| 0 <= i < rules.len() implies (#[trigger] rules[i]).symbol.len()
        == 1 by {
        if i < n {
            assert(rules[i] == pair_rules(all)[i]);
        } else {
            assert(rules[i] == power_rules()[i - n]);
        }
    }
}

proof fn lemma_not_power(parts: Seq<Counted>, wholes: Seq<Counted>, i: int)
    requires
        are_notations(parts),
        are_notations(wholes),
        parts.len() <= usize::MAX,
        wholes.len() <= usize::MAX,
        0 <= i < (letter_pairs(parts) + listed_pairs(parts, wholes) + whole_pairs(
            parts,
            wholes,
        )).len(),
    ensures
        ({
            let c = (letter_pairs(parts) + listed_pairs(parts, wholes) + whole_pairs(
                parts,
                wholes,
            ))[i].symbol;
            c != '@' && c != '`' && !is_free(c)
        }),
{
    lemma_listed(parts, wholes);
    lemma_letters();
    lemma_signs();
    let a = letter_pairs(parts);
    let b = listed_pairs(parts, wholes);
    let w = whole_pairs(parts, wholes);
    let all = a + b + w;
    if i < a.len() {
        assert(all[i] == a[i]);
        assert(letters().contains(a[i].symbol));
    } else if i < a.len() + b.len() {
        assert(all[i] == b[i - a.len()]);
        assert(signs().contains(b[i - a.len()].symbol));
    } else {
        assert(all[i] == w[i - a.len() - b.len()]);
        assert(signs().contains(w[i - a.len() - b.len()].symbol));
    }
}

proof fn lemma_free(parts: Seq<Counted>, wholes: Seq<Counted>)
    requires
        are_notations(parts),
        are_notations(wholes),
        parts.len() <= usize::MAX,
        wholes.len() <= usize::MAX,
    ensures
        forall|c: char| #[trigger] is_free(c) ==> !is_symbol(c, table_rules(parts, wholes)),
{
    let rules = table_rules(parts, wholes);
    let all = letter_pairs(parts) + listed_pairs(parts, wholes) + whole_pairs(parts, wholes);
    assert forall|c: char| #[trigger] is_free(c) implies !is_symbol(c, rules) by {
        if is_symbol(c, rules) {
            let i = choose|i: int|
                0 <= i < rules.len() && (#[trigger] rules[i]).symbol == seq![c];
            assert(seq![c][0] == c);
            if i < all.len() {
                assert(rules[i] == pair_rules(all)[i]);
                lemma_not_power(parts, wholes, i);
                assert(rules[i].symbol[0] == all[i].symbol);
            } else {
                assert(rules[i] == power_rules()[i - all.len()]);
                assert(rules[i].symbol[0] == '@' || rules[i].symbol[0] == '`');
            }
        }
    }
}

proof fn lemma_pair_for(list: Seq<PairValue>, part: Seq<u8>)
    ensures
        pair_for(list, part) matches Some(c) ==> exists|i: int|
            0 <= i < list.len() && (#[trigger] list[i]).part == part && list[i].symbol == c,
    decreases list.len(),
{
    if list.len() > 0 && list[0].part != part {
        lemma_pair_for(list.skip(1), part);
        if let Some(c) = pair_for(list, part) {
            let i = choose|i: int|
                0 <= i < list.skip(1).len() && (#[trigger] list.skip(1)[i]).part == part
                    && list.skip(1)[i].symbol == c;
            assert(list[i + 1] == list.skip(1)[i]);
        }
    }
}

/// The rules that shorten a number are in the table.
proof fn lemma_rules_listed(parts: Seq<Counted>, wholes: Seq<Counted>)
    requires
        are_notations(parts),
        are_notations(wholes),
        parts.len() <= usize::MAX,
        wholes.len() <= usize::MAX,
    ensures
        forall|i: int|
            0 <= i < symbol_rules(parts, wholes).len() ==> table_rules(parts, wholes).contains(
                #[trigger] symbol_rules(parts, wholes)[i],
            ),
{
    lemma_listed(parts, wholes);
    let a = letter_pairs(parts);
    let b = listed_pairs(parts, wholes);
    let w = whole_pairs(parts, wholes);
    let all = a + b + w;
    let rules = symbol_rules(parts, wholes);
    let table = table_rules(parts, wholes);
    lemma_by_length(a + b);
    assert forall|i: int| 0 <= i < rules.len() implies table.contains(#[trigger] rules[i]) by {
        assert((a + b).contains(by_length(a + b)[i]));
        let j = choose|j: int| 0 <= j < (a + b).len() && (a + b)[j] == by_length(a + b)[i];
        assert(all[j] == (a + b)[j]);
        assert(table[j] == pair_rules(all)[j]);
        assert(rules[i] == table[j]);
    }
}

/// A coefficient with symbols, read by the table, is the coefficient.
pub proof fn lemma_coefficient_means(
    parts: Seq<Counted>,
    wholes: Seq<Counted>,
    text: Seq<u8>,
)
    requires
        are_notations(parts),
        are_notations(wholes),
        parts.len() <= usize::MAX,
        wholes.len() <= usize::MAX,
        is_notation(text),
    ensures
        meaning(
            coefficient_text(text, whole_pairs(parts, wholes), symbol_rules(parts, wholes)),
            table_rules(parts, wholes),
        ) == ascii_text(text),
{
    let a = letter_pairs(parts);
    let b = listed_pairs(parts, wholes);
    let w = whole_pairs(parts, wholes);
    let all = a + b + w;
    let rules = symbol_rules(parts, wholes);
    let table = table_rules(parts, wholes);
    lemma_table_is_code(parts, wholes);
    lemma_rules_listed(parts, wholes);
    lemma_free(parts, wholes);
    match pair_for(w, text) {
        Some(c) => {
            lemma_pair_for(w, text);
            let i = choose|i: int|
                0 <= i < w.len() && (#[trigger] w[i]).part == text && w[i].symbol == c;
            let k = a.len() + b.len() + i;
            assert(all[k] == w[i]);
            assert(table[k] == pair_rules(all)[k]);
            lemma_meaning_symbol(table, k);
            lemma_shorthand_keeps(seq![c], rules, table);
        },
        None => {
            let s = ascii_text(text);
            assert(is_plain(s, table)) by {
                assert forall|k: int| 0 <= k < s.len() implies !is_symbol(
                    #[trigger] s[k],
                    table,
                ) by {
                    assert(is_numeral(ascii_text(text)[k]));
                    assert(is_free(s[k]));
                }
            }
            lemma_meaning_plain(s, table);
            lemma_shorthand_keeps(s, rules, table);
        },
    }
}

proof fn lemma_decimal_digits(n: nat)
    ensures
        forall|i: int| 0 <= i < decimal(n).len() ==> is_digit(#[trigger] decimal(n)[i]),
    decreases n,
{
    if n >= 10 {
        lemma_decimal_digits(n / 10);
        assert(is_digit(digit_char(n % 10)));
        assert forall|i: int| 0 <= i < decimal(n).len() implies is_digit(
            #[trigger] decimal(n)[i],
        ) by {
            if i < decimal(n / 10).len() {
                assert(decimal(n)[i] == decimal(n / 10)[i]);
            }
        }
    } else {
        assert(is_digit(digit_char(n)));
    }
}

proof fn lemma_power_means(parts: Seq<Counted>, wholes: Seq<Counted>, degree: nat)
    requires
        are_notations(parts),
        are_notations(wholes),
        parts.len() <= usize::MAX,
        wholes.len() <= usize::MAX,
    ensures
        meaning(power_text(degree), table_rules(parts, wholes)) == plain_power(degree),
{
    reveal_strlit("u");
    reveal_strlit("`");
    reveal_strlit("@");
    let table = table_rules(parts, wholes);
    let n = (letter_pairs(parts) + listed_pairs(parts, wholes) + whole_pairs(
        parts,
        wholes,
    )).len() as int;
    lemma_table_is_code(parts, wholes);
    lemma_free(parts, wholes);
    if degree == 2 {
        assert(table[n + 1] == power_rules()[1]);
        lemma_meaning_symbol(table, n + 1);
        assert("`"@ =~= seq!['`']);
        assert(decimal(2) =~= seq!['2']) by {
            assert(digit_char(2) == '2');
        }
        assert(seq!['u', '2'] =~= plain_power(2));
    } else if degree == 3 {
        assert(table[n] == power_rules()[0]);
        lemma_meaning_symbol(table, n);
        assert("@"@ =~= seq!['@']);
        assert(decimal(3) =~= seq!['3']) by {
            assert(digit_char(3) == '3');
        }
        assert(seq!['u', '3'] =~= plain_power(3));
    } else {
        lemma_decimal_digits(degree);
        assert("u"@ =~= seq!['u']);
        let s = power_text(degree);
        assert(s =~= plain_power(degree));
        assert forall|k: int| 0 <= k < s.len() implies !is_symbol(#[trigger] s[k], table) by {
            if k > 0 {
                assert(s[k] == decimal(degree)[k - 1]);
            }
            assert(is_free(s[k]));
        }
        lemma_meaning_plain(s, table);
    }
}

proof fn lemma_terms_mean(
    parts: Seq<Counted>,
    wholes: Seq<Counted>,
    terms: Seq<EquationTermValue>,
    n: nat,
)
    requires
        are_notations(parts),
        are_notations(wholes),
        parts.len() <= usize::MAX,
        wholes.len() <= usize::MAX,
        n <= terms.len(),
        forall|i: int| 0 <= i < terms.len() ==> is_notation((#[trigger] terms[i]).text),
    ensures
        meaning(
            terms_text(terms, whole_pairs(parts, wholes), symbol_rules(parts, wholes), n),
            table_rules(parts, wholes),
        ) == plain_terms(terms, n),
    decreases n,
{
    let w = whole_pairs(parts, wholes);
    let rules = symbol_rules(parts, wholes);
    let table = table_rules(parts, wholes);
    if n > 0 {
        let t = terms[n - 1];
        lemma_terms_mean(parts, wholes, terms, (n - 1) as nat);
        lemma_free(parts, wholes);
        let before = terms_text(terms, w, rules, (n - 1) as nat);
        let sign = sign_text(t.negative, n == 1);
        let value = if t.degree > 0 && t.unit {
            Seq::empty()
        } else {
            coefficient_text(t.text, w, rules)
        };
        let power = power_text(t.degree as nat);
        assert(is_notation(t.text));
        lemma_coefficient_means(parts, wholes, t.text);
        lemma_power_means(parts, wholes, t.degree as nat);
        reveal_strlit("+");
        reveal_strlit("-");
        assert(is_plain(sign, table)) by {
            assert forall|k: int| 0 <= k < sign.len() implies !is_symbol(
                #[trigger] sign[k],
                table,
            ) by {
                assert(is_free(sign[k]));
            }
        }
        lemma_meaning_plain(sign, table);
        lemma_meaning_concat(before, sign, table);
        lemma_meaning_concat(before + sign, value, table);
        lemma_meaning_concat(before + sign + value, power, table);
    }
}

/// An equation can be read back: its line, read by the table, is the equation with each
/// coefficient in its own notation.
pub proof fn lemma_equation_means(
    parts: Seq<Counted>,
    wholes: Seq<Counted>,
    terms: Seq<EquationTermValue>,
)
    requires
        are_notations(parts),
        are_notations(wholes),
        parts.len() <= usize::MAX,
        wholes.len() <= usize::MAX,
        forall|i: int| 0 <= i < terms.len() ==> is_notation((#[trigger] terms[i]).text),
    ensures
        meaning(
            equation_text(terms, whole_pairs(parts, wholes), symbol_rules(parts, wholes)),
            table_rules(parts, wholes),
        ) == plain_equation(terms),
{
    let table = table_rules(parts, wholes);
    lemma_free(parts, wholes);
    reveal_strlit("0\n");
    reveal_strlit("\n");
    if terms.len() == 0 {
        let s = "0\n"@;
        assert(s =~= seq!['0', '\n']);
        assert forall|k: int| 0 <= k < s.len() implies !is_symbol(#[trigger] s[k], table) by {
            assert(is_free(s[k]));
        }
        lemma_meaning_plain(s, table);
    } else {
        let end = "\n"@;
        lemma_terms_mean(parts, wholes, terms, terms.len());
        assert forall|k: int| 0 <= k < end.len() implies !is_symbol(
            #[trigger] end[k],
            table,
        ) by {
            assert(is_free(end[k]));
        }
        lemma_meaning_plain(end, table);
        lemma_meaning_concat(
            terms_text(
                terms,
                whole_pairs(parts, wholes),
                symbol_rules(parts, wholes),
                terms.len(),
            ),
            end,
            table,
        );
        assert(end =~= seq!['\n']);
    }
}

/// The texts are notations.
pub open spec fn all_notations(list: Seq<Seq<u8>>) -> bool {
    forall|i: int| 0 <= i < list.len() ==> is_notation(#[trigger] list[i])
}

proof fn lemma_part_notation(s: Seq<u8>, from: int, to: int)
    requires
        is_notation(s),
        0 <= from <= to <= s.len(),
    ensures
        is_notation(s.subrange(from, to)),
{
    let part = s.subrange(from, to);
    assert forall|i: int| 0 <= i < part.len() implies is_numeral(#[trigger] ascii_text(part)[i]) by {
        assert(is_numeral(ascii_text(s)[from + i]));
    }
}

proof fn lemma_joined_notations(a: Seq<Seq<u8>>, b: Seq<Seq<u8>>)
    requires
        all_notations(a),
        all_notations(b),
    ensures
        all_notations(a + b),
{
    assert forall|i: int| 0 <= i < (a + b).len() implies is_notation(#[trigger] (a + b)[i]) by {
        if i < a.len() {
            assert((a + b)[i] == a[i]);
        } else {
            assert((a + b)[i] == b[i - a.len()]);
        }
    }
}

proof fn lemma_inner_notations(full: Seq<u8>, k: nat)
    requires
        is_notation(full),
        k <= full.len(),
    ensures
        all_notations(inner_parts(full, k)),
    decreases k,
{
    if k > 0 {
        lemma_inner_notations(full, (k - 1) as nat);
        let start = k - 1;
        let here = parts_from(full, start, longest_part(full, start));
        assert forall|i: int| 0 <= i < here.len() implies is_notation(#[trigger] here[i]) by {
            lemma_part_notation(full, start, start + COEFF_SUBSTR_MIN_LEN + i);
        }
        lemma_joined_notations(inner_parts(full, (k - 1) as nat), here);
    }
}

proof fn lemma_number_notations(s: Seq<u8>)
    requires
        is_notation(s),
    ensures
        all_notations(number_parts(s)),
{
    lemma_point(s);
    match point_at(s) {
        Some(p) => {
            let full = s.take(p as int);
            let frac = s.skip((p + 1) as int);
            lemma_part_notation(s, 0, p as int);
            lemma_part_notation(s, (p + 1) as int, s.len() as int);
            assert(full =~= s.subrange(0, p as int));
            assert(frac =~= s.subrange((p + 1) as int, s.len() as int));
            lemma_inner_notations(full, full.len());
            let head = if frac.len() >= 2 {
                seq![frac]
            } else {
                Seq::empty()
            };
            assert(all_notations(head));
            lemma_joined_notations(head, inner_parts(full, full.len()));
        },
        None => {
            lemma_inner_notations(s, s.len());
        },
    }
}

proof fn lemma_list_notations(list: Seq<Seq<u8>>, n: nat)
    requires
        all_notations(list),
        n <= list.len(),
    ensures
        all_notations(list_parts(list, n)),
    decreases n,
{
    if n > 0 {
        lemma_list_notations(list, (n - 1) as nat);
        assert(is_notation(list[n - 1]));
        lemma_number_notations(list[n - 1]);
        lemma_joined_notations(list_parts(list, (n - 1) as nat), number_parts(list[n - 1]));
    }
}

proof fn lemma_sampled_notations(segs: Seq<Vec<Vec<u8>>>, step: nat, k: nat)
    requires
        step > 0,
        k <= sample_total(segs.len(), step),
        forall|i: int| 0 <= i < segs.len() ==> all_notations(numbers((#[trigger] segs[i])@)),
    ensures
        all_notations(sampled(segs, step, k)),
    decreases k,
{
    if k > 0 {
        lemma_sampled_notations(segs, step, (k - 1) as nat);
        let n = segs.len() as int;
        let j = k - 1;
        assert(0 <= j * step < n) by (nonlinear_arith)
            requires
                0 <= j <= (n - 1) / step as int,
                step > 0,
                n > 0,
        ;
        assert(all_notations(numbers(segs[j * step]@)));
        lemma_joined_notations(sampled(segs, step, (k - 1) as nat), numbers(segs[j * step]@));
    }
}

proof fn lemma_tallied_notations(list: Seq<Seq<u8>>)
    requires
        all_notations(list),
    ensures
        are_notations(tallied(list)),
        tallied(list).len() <= list.len(),
{
    lemma_firsts(list);
    let f = firsts(list);
    assert forall|i: int| 0 <= i < tallied(list).len() implies is_notation(
        (#[trigger] tallied(list)[i]).chunk,
    ) by {
        assert(f.contains(f[i]));
        lemma_times(list, f[i]);
        let k = choose|k: int| 0 <= k < list.len() && list[k] == f[i];
        assert(is_notation(list[k]));
    }
    lemma_firsts_len(list);
}

proof fn lemma_firsts_len(list: Seq<Seq<u8>>)
    ensures
        firsts(list).len() <= list.len(),
    decreases list.len(),
{
    if list.len() > 0 {
        lemma_firsts_len(list.drop_last());
    }
}

/// What `build_coeff_freqs` counts for equations is right for their symbols: with the symbols that
/// `build_symbols` makes of the counts, the line of each equation, read back by the table, gives its
/// coefficients in their own notation.
pub proof fn lemma_equations_mean(
    segs: Seq<Vec<Vec<u8>>>,
    step: nat,
    terms: Seq<EquationTermValue>,
)
    requires
        step > 0,
        forall|i: int| 0 <= i < segs.len() ==> all_notations(numbers((#[trigger] segs[i])@)),
        forall|i: int| 0 <= i < terms.len() ==> is_notation((#[trigger] terms[i]).text),
        total_bound(sampled_numbers(segs, step), sampled_numbers(segs, step).len()) <= usize::MAX,
    ensures
        ({
            let list = sampled_numbers(segs, step);
            let parts = tallied(list_parts(list, list.len()));
            let wholes = tallied(list);
            meaning(
                equation_text(terms, whole_pairs(parts, wholes), symbol_rules(parts, wholes)),
                table_rules(parts, wholes),
            ) == plain_equation(terms)
        }),
{
    let list = sampled_numbers(segs, step);
    lemma_sampled_notations(segs, step, sample_total(segs.len(), step));
    lemma_list_notations(list, list.len());
    lemma_tallied_notations(list);
    lemma_tallied_notations(list_parts(list, list.len()));
    lemma_total_bound(list, list.len(), list.len());
    lemma_equation_means(tallied(list_parts(list, list.len())), tallied(list), terms);
}

/// A whole number that has a letter gets no other symbol, and a part that has a letter or is a whole
/// number with a symbol gets no other symbol.
pub proof fn lemma_symbols_apart(parts: Seq<Counted>, wholes: Seq<Counted>, i: int, j: int)
    requires
        0 <= i < whole_pairs(parts, wholes).len(),
        0 <= j < further_pairs(parts, wholes).len(),
    ensures
        !has_part(letter_pairs(parts), whole_pairs(parts, wholes)[i].part),
        !has_part(letter_pairs(parts), further_pairs(parts, wholes)[j].part),
        !has_part(whole_pairs(parts, wholes), further_pairs(parts, wholes)[j].part),
        scored(wholes, true).contains(whole_pairs(parts, wholes)[i].part),
        scored(parts, false).contains(further_pairs(parts, wholes)[j].part),
{
    lemma_signs();
    let none = Seq::<PairValue>::empty();
    let given = letter_pairs(parts);
    let whole = whole_pairs(parts, wholes);
    let a = scored(wholes, true);
    let x = assigned(a, signs(), given, none, a.len());
    lemma_assigned_kept(a, given, none);
    lemma_by_length(x);
    let p = choose|p: int| 0 <= p < x.len() && x[p] == whole[i];
    assert(x[p].part == whole[i].part);
    let b = scored(parts, false);
    let y = assigned(b, signs(), given, whole, b.len());
    lemma_assigned_kept(b, given, whole);
    lemma_by_length(y);
    let q = choose|q: int| 0 <= q < y.len() && y[q] == further_pairs(parts, wholes)[j];
    assert(y[q].part == further_pairs(parts, wholes)[j].part);
}

proof fn lemma_assigned_kept(
    list: Seq<Seq<u8>>,
    taken: Seq<PairValue>,
    also: Seq<PairValue>,
)
    ensures
        ({
            let all = assigned(list, signs(), taken, also, list.len());
            &&& all.len() <= 46
            &&& forall|i: int|
                0 <= i < all.len() ==> !has_part(taken, (#[trigger] all[i]).part) && !has_part(
                    also,
                    all[i].part,
                ) && list.contains(all[i].part)
        }),
{
    lemma_signs();
    if list.len() > 0 {
        lemma_symbols_given(list, signs(), taken, also, list.len(), 0);
    }
}

} // verus!
