//! What a written equation says, read as an expression over the integers.

use vstd::prelude::*;
use vstd::string::*;

use crate::fitting::{raised, TermValue};
use crate::natural::{decimal, digit_char};
use crate::offsets::{
    all_digits, digits_number, is_blank, is_digit, line_number, signed_line, trimmed_end,
    trimmed_front, SignedLine,
};
use crate::solver::{equation_text, signed, term_text, terms_text, terms_total};

verus! {

/// The last place of `c`; -1 where there is none.
pub open spec fn last_of(s: Seq<char>, c: char) -> int
    decreases s.len(),
{
    if s.len() == 0 {
        -1
    } else if s.last() == c {
        s.len() - 1
    } else {
        last_of(s.drop_last(), c)
    }
}

/// The number in decimal notation.
pub open spec fn read_number(s: Seq<char>) -> Option<nat> {
    if all_digits(s) {
        Some(digits_number(s))
    } else {
        None
    }
}

/// A number, a power `n^e`, or a number times a power.
pub open spec fn read_term(s: Seq<char>) -> Option<nat> {
    let dot = last_of(s, '\u{b7}');
    let caret = last_of(s, '^');
    if caret < 0 {
        read_number(s)
    } else if caret < dot {
        None
    } else {
        match (read_number(s.subrange(dot + 1, caret)), read_number(s.skip(caret + 1))) {
            (Some(base), Some(exp)) => if dot < 0 {
                Some(raised(base, exp))
            } else {
                match read_number(s.take(dot)) {
                    Some(coef) => Some(coef * raised(base, exp)),
                    None => None,
                }
            },
            _ => None,
        }
    }
}

/// Terms with ` + ` or ` - ` in front of each but the first, which may go without.
pub open spec fn read_sum(s: Seq<char>) -> Option<int>
    decreases s.len(),
{
    let space = last_of(s, ' ');
    if s.len() == 0 {
        Some(0)
    } else if space < 0 {
        match read_term(s) {
            Some(n) => Some(n as int),
            None => None,
        }
    } else if !(2 <= space < s.len()) || s[space - 2] != ' ' {
        None
    } else {
        match (read_sum(s.take(space - 2)), read_term(s.skip(space + 1))) {
            (Some(before), Some(n)) => if s[space - 1] == '+' {
                Some(before + n)
            } else if s[space - 1] == '-' {
                Some(before - n)
            } else {
                None
            },
            _ => None,
        }
    }
}

/// What stands behind `seed = `.
pub open spec fn read_equation(s: Seq<char>) -> Option<int> {
    if s.len() >= 7 && s.take(7) == "seed = "@ {
        read_sum(s.skip(7))
    } else {
        None
    }
}

/// A decimal notation is read as the number it was written for.
pub proof fn lemma_read_decimal(n: nat)
    ensures
        read_number(decimal(n)) == Some(n),
        all_digits(decimal(n)),
    decreases n,
{
    let s = decimal(n);
    if n >= 10 {
        lemma_read_decimal(n / 10);
        let front = decimal(n / 10);
        assert(s.drop_last() =~= front);
        assert(is_digit(digit_char(n % 10)));
        assert forall|i: int| 0 <= i < s.len() implies is_digit(#[trigger] s[i]) by {
            if i < front.len() {
                assert(s[i] == front[i]);
            }
        }
    } else {
        assert(s.drop_last() =~= Seq::<char>::empty());
        assert(digits_number(s.drop_last()) == 0);
        assert(is_digit(digit_char(n)));
        assert(s.last() == digit_char(n));
    }
}

/// The character does not occur.
pub open spec fn lacks(s: Seq<char>, c: char) -> bool {
    forall|i: int| 0 <= i < s.len() ==> #[trigger] s[i] != c
}

/// What stands behind a place without the character does not move its last place.
pub proof fn lemma_last_behind(a: Seq<char>, b: Seq<char>, c: char)
    requires
        lacks(b, c),
    ensures
        last_of(a + b, c) == last_of(a, c),
    decreases b.len(),
{
    if b.len() == 0 {
        assert(a + b =~= a);
    } else {
        assert(b[b.len() - 1] != c);
        assert((a + b).last() == b.last());
        assert((a + b).drop_last() =~= a + b.drop_last());
        lemma_last_behind(a, b.drop_last(), c);
    }
}

/// A character that does not occur has no last place.
pub proof fn lemma_lacks(s: Seq<char>, c: char)
    requires
        lacks(s, c),
    ensures
        last_of(s, c) == -1,
{
    lemma_last_behind(Seq::empty(), s, c);
    assert(Seq::<char>::empty() + s =~= s);
}

proof fn lemma_digits_lack(s: Seq<char>)
    requires
        all_digits(s),
    ensures
        lacks(s, ' '),
        lacks(s, '^'),
        lacks(s, '\u{b7}'),
{
    assert forall|i: int| 0 <= i < s.len() implies (#[trigger] s[i] != ' ' && s[i] != '^' && s[i]
        != '\u{b7}') by {
        assert(is_digit(s[i]));
    }
}

proof fn lemma_read_plain(n: nat)
    ensures
        read_term(decimal(n)) == Some(n),
        lacks(decimal(n), ' '),
{
    lemma_read_decimal(n);
    lemma_digits_lack(decimal(n));
    lemma_lacks(decimal(n), '^');
}

proof fn lemma_read_power(head: Seq<char>, base: nat, exp: nat)
    requires
        lacks(head, '^'),
    ensures
        ({
            let s = head + (decimal(base) + seq!['^'] + decimal(exp));
            &&& last_of(s, '^') == head.len() + decimal(base).len()
            &&& last_of(s, '\u{b7}') == last_of(head, '\u{b7}')
            &&& s.subrange(head.len() as int, last_of(s, '^')) == decimal(base)
            &&& s.skip(last_of(s, '^') + 1) == decimal(exp)
            &&& lacks(decimal(base) + seq!['^'] + decimal(exp), ' ')
        }),
{
    lemma_read_decimal(base);
    lemma_read_decimal(exp);
    lemma_digits_lack(decimal(base));
    lemma_digits_lack(decimal(exp));
    let power = decimal(base) + seq!['^'] + decimal(exp);
    let s = head + power;
    let front = head + decimal(base) + seq!['^'];
    assert(s =~= front + decimal(exp));
    lemma_last_behind(front, decimal(exp), '^');
    assert(front.last() == '^');
    assert(s.subrange(head.len() as int, last_of(s, '^')) =~= decimal(base));
    assert(s.skip(last_of(s, '^') + 1) =~= decimal(exp));
    assert(lacks(power, '\u{b7}') && lacks(power, ' ')) by {
        assert forall|i: int| 0 <= i < power.len() implies (#[trigger] power[i] != '\u{b7}'
            && power[i] != ' ') by {
            if i < decimal(base).len() {
                assert(power[i] == decimal(base)[i]);
            } else if i > decimal(base).len() {
                assert(power[i] == decimal(exp)[i - decimal(base).len() - 1]);
            } else {
                assert(power[i] == '^');
            }
        }
    }
    lemma_last_behind(head, power, '\u{b7}');
}

/// The notation of a term is read as its amount.
pub proof fn lemma_read_term(t: TermValue)
    ensures
        read_term(term_text(t)) == Some(t.amount()),
        last_of(term_text(t), ' ') == -1,
{
    let power = decimal(t.base as nat) + seq!['^'] + decimal(t.exp as nat);
    lemma_read_decimal(t.base as nat);
    lemma_read_decimal(t.exp as nat);
    let p = raised(t.base as nat, t.exp as nat);
    if t.coef == 1 {
        let head = Seq::<char>::empty();
        lemma_read_power(head, t.base as nat, t.exp as nat);
        assert(head + power =~= power);
        lemma_lacks(power, ' ');
        assert(t.amount() == p) by (nonlinear_arith)
            requires
                t.amount() == t.coef * p,
                t.coef == 1,
        ;
    } else {
        let coef = decimal(t.coef);
        let head = coef + seq!['\u{b7}'];
        lemma_read_decimal(t.coef);
        lemma_digits_lack(coef);
        assert(lacks(head, '^') && lacks(head, ' ')) by {
            assert forall|i: int| 0 <= i < head.len() implies (#[trigger] head[i] != '^' && head[i]
                != ' ') by {
                if i < coef.len() {
                    assert(head[i] == coef[i]);
                } else {
                    assert(head[i] == '\u{b7}');
                }
            }
        }
        lemma_read_power(head, t.base as nat, t.exp as nat);
        let s = head + power;
        assert(head.last() == '\u{b7}');
        assert(last_of(head, '\u{b7}') == coef.len());
        assert(s.take(coef.len() as int) =~= coef);
        lemma_last_behind(head, power, ' ');
        lemma_lacks(head, ' ');
        assert(term_text(t) == s);
    }
}

/// A sum with one more term behind its sign.
proof fn lemma_read_behind(before: Seq<char>, op: char, tail: Seq<char>, n: nat, total: int)
    requires
        op == '+' || op == '-',
        read_sum(before) == Some(total),
        read_term(tail) == Some(n),
        last_of(tail, ' ') == -1,
    ensures
        read_sum(before + seq![' ', op, ' '] + tail) == Some(
            if op == '+' {
                total + n
            } else {
                total - n
            },
        ),
{
    let front = before + seq![' ', op, ' '];
    let s = front + tail;
    lemma_none_lacks(tail, ' ');
    lemma_last_behind(front, tail, ' ');
    assert(front.last() == ' ');
    let space = last_of(s, ' ');
    assert(space == before.len() + 2);
    assert(s[space - 1] == op && s[space - 2] == ' ');
    assert(s.take(space - 2) =~= before);
    assert(s.skip(space + 1) =~= tail);
}

proof fn lemma_none_lacks(s: Seq<char>, c: char)
    requires
        last_of(s, c) == -1,
    ensures
        lacks(s, c),
    decreases s.len(),
{
    if s.len() > 0 {
        lemma_none_lacks(s.drop_last(), c);
        assert forall|i: int| 0 <= i < s.len() implies #[trigger] s[i] != c by {
            if i < s.len() - 1 {
                assert(s.drop_last()[i] == s[i]);
            }
        }
    }
}

proof fn lemma_signs()
    ensures
        " + "@ == seq![' ', '+', ' '],
        " - "@ == seq![' ', '-', ' '],
{
    reveal_strlit(" + ");
    reveal_strlit(" - ");
    assert(" + "@ =~= seq![' ', '+', ' ']);
    assert(" - "@ =~= seq![' ', '-', ' ']);
}

/// A first term without a sign.
proof fn lemma_read_first(t: TermValue)
    ensures
        read_sum(term_text(t)) == Some(t.amount() as int),
{
    lemma_read_term(t);
    lemma_read_decimal(t.base as nat);
    assert(term_text(t).len() > 0);
}

/// What stands in front of a further term, or of a first one that is taken off.
proof fn lemma_terms_text_step(terms: Seq<(i8, TermValue)>)
    requires
        terms.len() > 0,
    ensures
        terms.len() == 1 && terms.last().0 > 0 ==> terms_text(terms) == term_text(terms.last().1),
        terms.len() > 1 && terms.last().0 > 0 ==> terms_text(terms) == terms_text(
            terms.drop_last(),
        ) + seq![' ', '+', ' '] + term_text(terms.last().1),
        terms.last().0 <= 0 ==> terms_text(terms) == terms_text(terms.drop_last()) + seq![
            ' ',
            '-',
            ' ',
        ] + term_text(terms.last().1),
{
    lemma_signs();
    if terms.len() == 1 && terms.last().0 > 0 {
        let none = Seq::<char>::empty();
        assert(terms_text(terms.drop_last()) == none);
        assert(none + none + term_text(terms.last().1) =~= term_text(terms.last().1));
    }
}

/// One more term with its sign.
#[verifier::spinoff_prover]
proof fn lemma_read_last(terms: Seq<(i8, TermValue)>)
    requires
        terms.len() > 0,
        terms.last().0 == 1 || terms.last().0 == -1,
        read_sum(terms_text(terms.drop_last())) == Some(terms_total(terms.drop_last())),
    ensures
        read_sum(terms_text(terms)) == Some(terms_total(terms)),
{
    let front = terms.drop_last();
    let before = terms_text(front);
    let t = terms.last().1;
    lemma_terms_text_step(terms);
    assert(terms_total(terms) == terms_total(front) + signed(terms.last().0, t.amount()));
    if terms.last().0 > 0 && terms.len() == 1 {
        lemma_read_first(t);
        assert(terms_total(front) == 0);
    } else {
        lemma_read_term(t);
        let op = if terms.last().0 > 0 {
            '+'
        } else {
            '-'
        };
        lemma_read_behind(before, op, term_text(t), t.amount(), terms_total(front));
    }
}

/// The notation of the terms is read as what they add up to with their signs.
pub proof fn lemma_read_terms(terms: Seq<(i8, TermValue)>)
    requires
        forall|i: int| 0 <= i < terms.len() ==> (#[trigger] terms[i]).0 == 1 || terms[i].0 == -1,
    ensures
        read_sum(terms_text(terms)) == Some(terms_total(terms)),
    decreases terms.len(),
{
    if terms.len() > 0 {
        let front = terms.drop_last();
        assert forall|i: int| 0 <= i < front.len() implies (#[trigger] front[i]).0 == 1
            || front[i].0 == -1 by {
            assert(front[i] == terms[i]);
        }
        lemma_read_terms(front);
        assert(terms[terms.len() - 1].0 == 1 || terms[terms.len() - 1].0 == -1);
        lemma_read_last(terms);
    }
}

/// A written equation, read as an expression over the integers, gives what its terms and its rest
/// add up to.
pub proof fn lemma_read_equation(terms: Seq<(i8, TermValue)>, sign: i8, magic: nat)
    requires
        forall|i: int| 0 <= i < terms.len() ==> (#[trigger] terms[i]).0 == 1 || terms[i].0 == -1,
    ensures
        read_equation(equation_text(terms, sign, magic)) == Some(
            terms_total(terms) + signed(sign, magic),
        ),
{
    reveal_strlit("seed = ");
    lemma_signs();
    lemma_read_terms(terms);
    let head = "seed = "@;
    let body = terms_text(terms);
    let s = equation_text(terms, sign, magic);
    assert(s.take(7) =~= head);
    if magic == 0 {
        assert(s.skip(7) =~= body);
    } else {
        lemma_read_plain(magic);
        lemma_lacks(decimal(magic), ' ');
        let op = if sign < 0 {
            '-'
        } else {
            '+'
        };
        lemma_read_behind(body, op, decimal(magic), magic, terms_total(terms));
        assert(s.skip(7) =~= body + seq![' ', op, ' '] + decimal(magic));
    }
}

/// Nothing but white space.
pub open spec fn all_blank(s: Seq<char>) -> bool {
    forall|i: int| 0 <= i < s.len() ==> is_blank(#[trigger] s[i])
}

proof fn lemma_front_trimmed(gap: Seq<char>, s: Seq<char>)
    requires
        all_blank(gap),
        s.len() > 0,
        !is_blank(s[0]),
    ensures
        trimmed_front(gap + s) == s,
    decreases gap.len(),
{
    if gap.len() == 0 {
        assert(gap + s =~= s);
    } else {
        assert((gap + s)[0] == gap[0]);
        assert((gap + s).skip(1) =~= gap.skip(1) + s);
        lemma_front_trimmed(gap.skip(1), s);
    }
}

proof fn lemma_end_trimmed(s: Seq<char>, gap: Seq<char>)
    requires
        all_blank(gap),
        s.len() > 0,
        !is_blank(s.last()),
    ensures
        trimmed_end(s + gap) == s,
    decreases gap.len(),
{
    if gap.len() == 0 {
        assert(s + gap =~= s);
    } else {
        assert((s + gap).last() == gap[gap.len() - 1]);
        assert((s + gap).drop_last() =~= s + gap.drop_last());
        lemma_end_trimmed(s, gap.drop_last());
    }
}

/// White space around a text is left away, and nothing else.
pub proof fn lemma_trimmed(before: Seq<char>, s: Seq<char>, after: Seq<char>)
    requires
        all_blank(before),
        all_blank(after),
        s.len() > 0,
        !is_blank(s[0]),
        !is_blank(s.last()),
    ensures
        trimmed_end(trimmed_front(before + s + after)) == s,
{
    assert(before + s + after =~= before + (s + after));
    assert((s + after)[0] == s[0]);
    lemma_front_trimmed(before, s + after);
    lemma_end_trimmed(s, after);
}

/// A number on a line of its own is read, with white space around it and a plus sign or without; one
/// that is too large is not.
pub proof fn lemma_line_number_read(before: Seq<char>, plus: bool, n: nat, after: Seq<char>)
    requires
        all_blank(before),
        all_blank(after),
    ensures
        ({
            let sign = if plus {
                seq!['+']
            } else {
                seq![]
            };
            let line = before + (sign + decimal(n)) + after;
            &&& n <= u128::MAX ==> line_number(line) == Some(n as u128)
            &&& n > u128::MAX ==> line_number(line) is None
        }),
{
    let sign = if plus {
        seq!['+']
    } else {
        seq![]
    };
    let digits = decimal(n);
    let s = sign + digits;
    lemma_read_decimal(n);
    assert(is_digit(digits[0]));
    assert(is_digit(digits[digits.len() - 1]));
    assert(s.last() == digits[digits.len() - 1]);
    lemma_trimmed(before, s, after);
    if plus {
        assert(s.skip(1) =~= digits);
    } else {
        assert(s =~= digits);
    }
}

/// A signed number on a line of its own is read with its sign.
pub proof fn lemma_signed_line_read(before: Seq<char>, minus: bool, n: nat, after: Seq<char>)
    requires
        all_blank(before),
        all_blank(after),
    ensures
        ({
            let sign = if minus {
                seq!['-']
            } else {
                seq![]
            };
            let value = if minus {
                -n
            } else {
                n as int
            };
            let line = before + (sign + decimal(n)) + after;
            &&& i64::MIN <= value <= i64::MAX ==> signed_line(line) == SignedLine::Value(
                value as i64,
            )
            &&& !(i64::MIN <= value <= i64::MAX) ==> signed_line(line) == SignedLine::Invalid
        }),
{
    let sign = if minus {
        seq!['-']
    } else {
        seq![]
    };
    let digits = decimal(n);
    let s = sign + digits;
    lemma_read_decimal(n);
    assert(is_digit(digits[0]));
    assert(is_digit(digits[digits.len() - 1]));
    assert(s.last() == digits[digits.len() - 1]);
    lemma_trimmed(before, s, after);
    if minus {
        assert(s.skip(1) =~= digits);
    } else {
        assert(s =~= digits);
    }
}

} // verus!
