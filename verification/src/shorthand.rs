//! Numbers in shorthand: parts of their notation stand as single symbols.

use vstd::prelude::*;
use vstd::string::*;

verus! {

/// A part of a number, and what stands for it.
pub struct Rule {
    pub part: Seq<char>,
    pub symbol: Seq<char>,
}

/// The rules that the pairs stand for.
pub open spec fn rules_of(map: Seq<(String, String)>) -> Seq<Rule> {
    Seq::new(map.len(), |i: int| Rule { part: map[i].0@, symbol: map[i].1@ })
}

/// `part` stands in `s` at `at`.
pub open spec fn stands_at(s: Seq<char>, part: Seq<char>, at: nat) -> bool {
    at + part.len() <= s.len() && s.subrange(at as int, (at + part.len()) as int) == part
}

/// The first place from `from` on where `part` stands in `s`.
pub open spec fn first_from(s: Seq<char>, part: Seq<char>, from: nat) -> Option<nat>
    decreases s.len() + 1 - from,
{
    if from + part.len() > s.len() {
        None
    } else if stands_at(s, part, from) {
        Some(from)
    } else {
        first_from(s, part, from + 1)
    }
}

/// The first point.
pub open spec fn first_point(s: Seq<char>) -> Option<nat> {
    first_from(s, seq!['.'], 0)
}

/// A decimal digit.
pub open spec fn is_digit(c: char) -> bool {
    '0' as u32 <= c as u32 <= '9' as u32
}

/// A lower-case ASCII letter.
pub open spec fn is_lower(c: char) -> bool {
    'a' as u32 <= c as u32 <= 'z' as u32
}

/// The rule on what follows a point: where a point and the part end the number, behind its first
/// point, the symbol takes the part's place.
pub open spec fn behind_point(s: Seq<char>, r: Rule) -> Option<Seq<char>> {
    match first_point(s) {
        Some(d) => {
            let n = r.part.len() + 1;
            if d + n <= s.len() && s.skip(s.len() - n) == seq!['.'] + r.part {
                Some(s.take(s.len() - r.part.len()) + r.symbol)
            } else {
                None
            }
        },
        None => None,
    }
}

/// The rule on what comes before a point: the symbol takes the place of the part where it first
/// stands, if that is before the point, behind a digit or a lower-case letter or at the front, and
/// before a digit or a point or at the end.
pub open spec fn before_point(s: Seq<char>, r: Rule) -> Option<Seq<char>> {
    match first_from(s, r.part, 0) {
        Some(i) => {
            let end = i + r.part.len();
            let ahead = match first_point(s) {
                Some(d) => i < d,
                None => true,
            };
            let left = i == 0 || is_digit(s[i - 1]) || is_lower(s[i - 1]);
            let right = end >= s.len() || is_digit(s[end as int]) || s[end as int] == '.';
            if ahead && left && right {
                Some(s.take(i as int) + r.symbol + s.skip(end as int))
            } else {
                None
            }
        },
        None => None,
    }
}

/// What a rule makes of the number.
pub open spec fn rule_step(s: Seq<char>, r: Rule) -> Option<Seq<char>> {
    match behind_point(s, r) {
        Some(t) => Some(t),
        None => before_point(s, r),
    }
}

/// What the first rule that applies, from rule `k` on, makes of the number.
pub open spec fn first_step(s: Seq<char>, rules: Seq<Rule>, k: nat) -> Option<Seq<char>>
    decreases rules.len() - k,
{
    if k >= rules.len() {
        None
    } else {
        match rule_step(s, rules[k as int]) {
            Some(t) => Some(t),
            None => first_step(s, rules, k + 1),
        }
    }
}

/// The number after up to `n` steps.
pub open spec fn rewritten(s: Seq<char>, rules: Seq<Rule>, n: nat) -> Seq<char>
    decreases n,
{
    if n == 0 {
        s
    } else {
        let t = rewritten(s, rules, (n - 1) as nat);
        match first_step(t, rules, 0) {
            Some(u) => u,
            None => t,
        }
    }
}

/// No rule applies after `n` steps.
pub open spec fn ends_after(s: Seq<char>, rules: Seq<Rule>, n: nat) -> bool {
    first_step(rewritten(s, rules, n), rules, 0) is None
}

/// The rules come to an end.
pub open spec fn ends(s: Seq<char>, rules: Seq<Rule>) -> bool {
    exists|n: nat| ends_after(s, rules, n)
}

/// The number in shorthand: what is left when no rule applies any more.
pub open spec fn shorthand(s: Seq<char>, rules: Seq<Rule>) -> Seq<char> {
    rewritten(s, rules, choose|n: nat| ends_after(s, rules, n))
}

proof fn lemma_stays(s: Seq<char>, rules: Seq<Rule>, n: nat, m: nat)
    requires
        ends_after(s, rules, n),
        n <= m,
    ensures
        rewritten(s, rules, m) == rewritten(s, rules, n),
    decreases m,
{
    if n < m {
        lemma_stays(s, rules, n, (m - 1) as nat);
    }
}

fn chars_of(s: &str) -> (v: Vec<char>)
    ensures
        v@ == s@,
{
    let n = s.unicode_len();
    let mut v: Vec<char> = Vec::with_capacity(n);
    let mut i: usize = 0;
    while i < n
        invariant
            i <= n,
            n == s@.len(),
            v@ =~= s@.take(i as int),
        decreases n - i,
    {
        v.push(s.get_char(i));
        i = i + 1;
    }
    assert(v@ =~= s@);
    v
}

fn string_of(v: &Vec<char>) -> (s: String)
    ensures
        s@ == v@,
{
    let mut s = String::new();
    let mut i: usize = 0;
    while i < v.len()
        invariant
            i <= v.len(),
            s@ =~= v@.take(i as int),
        decreases v.len() - i,
    {
        s.push(v[i]);
        i = i + 1;
    }
    assert(s@ =~= v@);
    s
}

fn stands(s: &Vec<char>, part: &Vec<char>, at: usize) -> (r: bool)
    requires
        at + part.len() <= s.len(),
    ensures
        r == stands_at(s@, part@, at as nat),
{
    let mut i: usize = 0;
    while i < part.len()
        invariant
            i <= part.len(),
            at + part.len() <= s.len(),
            forall|j: int| 0 <= j < i ==> s@[at + j] == part@[j],
        decreases part.len() - i,
    {
        if s[at + i] != part[i] {
            proof {
                let sub = s@.subrange(at as int, at + part@.len());
                assert(sub[i as int] == s@[at + i]);
            }
            return false;
        }
        i = i + 1;
    }
    assert(s@.subrange(at as int, at + part@.len()) =~= part@);
    true
}

fn find_first(s: &Vec<char>, part: &Vec<char>) -> (r: Option<usize>)
    ensures
        match r {
            Some(i) => first_from(s@, part@, 0) == Some(i as nat),
            None => first_from(s@, part@, 0) is None,
        },
{
    if part.len() > s.len() {
        return None;
    }
    let mut i: usize = 0;
    while i <= s.len() - part.len()
        invariant
            part.len() <= s.len(),
            i <= s.len() - part.len() + 1,
            first_from(s@, part@, 0) == first_from(s@, part@, i as nat),
        decreases s.len() - i,
    {
        if stands(s, part, i) {
            return Some(i);
        }
        if i == s.len() - part.len() {
            assert(first_from(s@, part@, (i + 1) as nat) is None);
            return None;
        }
        i = i + 1;
    }
    None
}

proof fn lemma_first_from(s: Seq<char>, part: Seq<char>, from: nat)
    ensures
        first_from(s, part, from) matches Some(i) ==> from <= i && stands_at(s, part, i),
    decreases s.len() + 1 - from,
{
    if from + part.len() <= s.len() && !stands_at(s, part, from) {
        lemma_first_from(s, part, from + 1);
    }
}

fn apply_rule(s: &Vec<char>, part: &Vec<char>, symbol: &Vec<char>) -> (r: Option<Vec<char>>)
    ensures
        match r {
            Some(t) => rule_step(s@, (Rule { part: part@, symbol: symbol@ })) == Some(t@),
            None => rule_step(s@, (Rule { part: part@, symbol: symbol@ })) is None,
        },
{
    let mut point: Vec<char> = Vec::with_capacity(1);
    point.push('.');
    assert(point@ =~= seq!['.']);
    let dot = find_first(s, &point);
    proof {
        lemma_first_from(s@, seq!['.'], 0);
        lemma_first_from(s@, part@, 0);
    }
    if let Some(d) = dot {
        if part.len() < s.len() && d + 1 <= s.len() - part.len() {
            let cut: usize = s.len() - part.len();
            let ends = s[cut - 1] == '.' && stands(s, part, cut);
            proof {
                let tail = s@.skip(s@.len() - (part@.len() + 1));
                assert(tail[0] == s@[cut - 1]);
                assert(s@.subrange(cut as int, cut + part@.len()) =~= tail.skip(1));
                if ends {
                    assert(tail =~= seq!['.'] + part@);
                } else if tail == seq!['.'] + part@ {
                    assert(tail.skip(1) =~= part@);
                }
            }
            if ends {
                let mut t: Vec<char> = vec_prefix(s, cut);
                append(&mut t, symbol);
                return Some(t);
            }
        }
    }
    assert(behind_point(s@, Rule { part: part@, symbol: symbol@ }) is None);
    match find_first(s, part) {
        Some(i) => {
            assert(stands_at(s@, part@, i as nat) && s@.len() == s.len());
            let end = i + part.len();
            let ahead = match dot {
                Some(d) => i < d,
                None => true,
            };
            let left = i == 0 || digit(s[i - 1]) || lower(s[i - 1]);
            let right = end >= s.len() || digit(s[end]) || s[end] == '.';
            if ahead && left && right {
                let mut t: Vec<char> = vec_prefix(s, i);
                append(&mut t, symbol);
                let mut k: usize = end;
                let ghost head = t@;
                while k < s.len()
                    invariant
                        end <= k <= s.len(),
                        t@ =~= head + s@.subrange(end as int, k as int),
                    decreases s.len() - k,
                {
                    t.push(s[k]);
                    k = k + 1;
                }
                assert(t@ =~= s@.take(i as int) + symbol@ + s@.skip(end as int));
                Some(t)
            } else {
                None
            }
        },
        None => None,
    }
}

fn vec_prefix(s: &Vec<char>, n: usize) -> (t: Vec<char>)
    requires
        n <= s.len(),
    ensures
        t@ == s@.take(n as int),
{
    let mut t: Vec<char> = Vec::with_capacity(n);
    let mut i: usize = 0;
    while i < n
        invariant
            i <= n <= s.len(),
            t@ =~= s@.take(i as int),
        decreases n - i,
    {
        t.push(s[i]);
        i = i + 1;
    }
    t
}

fn append(t: &mut Vec<char>, tail: &Vec<char>)
    ensures
        final(t)@ == old(t)@ + tail@,
{
    let ghost head = t@;
    let mut i: usize = 0;
    while i < tail.len()
        invariant
            i <= tail.len(),
            t@ =~= head + tail@.take(i as int),
        decreases tail.len() - i,
    {
        t.push(tail[i]);
        i = i + 1;
    }
    assert(tail@.take(i as int) =~= tail@);
}

fn digit(c: char) -> (r: bool)
    ensures
        r == is_digit(c),
{
    let n = c as u32;
    0x30 <= n && n <= 0x39
}

fn lower(c: char) -> (r: bool)
    ensures
        r == is_lower(c),
{
    let n = c as u32;
    0x61 <= n && n <= 0x7a
}

/// Puts a number into shorthand. The pairs are parts of numbers and what stands for them; each
/// time the first pair that applies is taken, until none does.
pub fn apply_dec_shorthand(num: &str, suffix_map: &[(String, String)]) -> (out: String)
    requires
        ends(num@, rules_of(suffix_map@)),
    ensures
        out@ == shorthand(num@, rules_of(suffix_map@)),
        first_step(out@, rules_of(suffix_map@), 0) is None,
        never_grows(rules_of(suffix_map@)) ==> out@.len() <= num@.len(),
{
    let ghost rules = rules_of(suffix_map@);
    let ghost total: nat = choose|n: nat| ends_after(num@, rules, n);
    let mut result = chars_of(num);
    let mut parts: Vec<(Vec<char>, Vec<char>)> = Vec::with_capacity(suffix_map.len());
    let mut i: usize = 0;
    while i < suffix_map.len()
        invariant
            i <= suffix_map.len(),
            parts.len() == i,
            rules == rules_of(suffix_map@),
            forall|j: int|
                0 <= j < i ==> (#[trigger] parts@[j]).0@ == rules[j].part && parts@[j].1@
                    == rules[j].symbol,
        decreases suffix_map.len() - i,
    {
        let part = chars_of(suffix_map[i].0.as_str());
        let symbol = chars_of(suffix_map[i].1.as_str());
        parts.push((part, symbol));
        i = i + 1;
    }
    let ghost mut k: nat = 0;
    let mut changed = true;
    while changed
        invariant
            parts.len() == rules.len(),
            forall|j: int|
                0 <= j < rules.len() ==> (#[trigger] parts@[j]).0@ == rules[j].part && parts@[j].1@
                    == rules[j].symbol,
            ends_after(num@, rules, total),
            result@ == rewritten(num@, rules, k),
            k <= total,
            !changed ==> ends_after(num@, rules, k),
        decreases total - k,
            if changed {
                1int
            } else {
                0int
            },
    {
        changed = false;
        let mut next: Option<Vec<char>> = None;
        let mut r: usize = 0;
        while r < parts.len() && next.is_none()
            invariant
                r <= parts.len(),
                parts.len() == rules.len(),
                forall|j: int|
                    0 <= j < rules.len() ==> (#[trigger] parts@[j]).0@ == rules[j].part
                        && parts@[j].1@ == rules[j].symbol,
                match next {
                    Some(t) => first_step(result@, rules, 0) == Some(t@),
                    None => first_step(result@, rules, 0) == first_step(result@, rules, r as nat),
                },
            decreases parts.len() - r,
        {
            assert(rules[r as int] == (Rule {
                part: parts@[r as int].0@,
                symbol: parts@[r as int].1@,
            }));
            next = apply_rule(&result, &parts[r].0, &parts[r].1);
            r = r + 1;
        }
        match next {
            Some(t) => {
                proof {
                    if k >= total {
                        lemma_stays(num@, rules, total, k);
                    }
                    k = k + 1;
                }
                result = t;
                changed = true;
            },
            None => {},
        }
    }
    proof {
        lemma_stays(num@, rules, k, total);
        if never_grows(rules) {
            lemma_shorthand_len(num@, rules);
        }
    }
    string_of(&result)
}

/// No symbol is longer than the part it stands for.
pub open spec fn never_grows(rules: Seq<Rule>) -> bool {
    forall|i: int|
        0 <= i < rules.len() ==> (#[trigger] rules[i]).symbol.len() <= rules[i].part.len()
}

proof fn lemma_rewritten_len(s: Seq<char>, rules: Seq<Rule>, n: nat)
    requires
        never_grows(rules),
    ensures
        rewritten(s, rules, n).len() <= s.len(),
    decreases n,
{
    if n > 0 {
        lemma_rewritten_len(s, rules, (n - 1) as nat);
        let t = rewritten(s, rules, (n - 1) as nat);
        lemma_step(t, rules, 0);
        if let Some(u) = first_step(t, rules, 0) {
            let (i, x, y) = choose|i: int, x: Seq<char>, y: Seq<char>|
                0 <= i < rules.len() && t == #[trigger] (x + rules[i].part + y) && u == x
                    + rules[i].symbol + y;
            assert(rules[i].symbol.len() <= rules[i].part.len());
        }
    }
}

/// With symbols that are no longer than their parts, a number does not get longer in shorthand.
pub proof fn lemma_shorthand_len(s: Seq<char>, rules: Seq<Rule>)
    requires
        never_grows(rules),
    ensures
        shorthand(s, rules).len() <= s.len(),
{
    lemma_rewritten_len(s, rules, choose|n: nat| ends_after(s, rules, n));
}

/// No rule applies to a number in shorthand any more: putting it into shorthand again changes
/// nothing.
pub proof fn lemma_shorthand_again(s: Seq<char>, rules: Seq<Rule>)
    requires
        ends(s, rules),
    ensures
        first_step(shorthand(s, rules), rules, 0) is None,
        ends(shorthand(s, rules), rules),
        shorthand(shorthand(s, rules), rules) == shorthand(s, rules),
{
    let out = shorthand(s, rules);
    assert(rewritten(out, rules, 0) == out);
    assert(ends_after(out, rules, 0));
    let n = choose|n: nat| ends_after(out, rules, n);
    lemma_stays(out, rules, 0, n);
}

/// Every symbol is shorter than the part it stands for.
pub open spec fn shrinks(rules: Seq<Rule>) -> bool {
    forall|i: int| 0 <= i < rules.len() ==> (#[trigger] rules[i]).symbol.len() < rules[i].part.len()
}

/// A step takes one part out of the number and puts its symbol there.
proof fn lemma_step(s: Seq<char>, rules: Seq<Rule>, k: nat)
    ensures
        first_step(s, rules, k) matches Some(t) ==> exists|i: int, x: Seq<char>, y: Seq<char>|
            0 <= i < rules.len() && s == #[trigger] (x + rules[i].part + y) && t == x
                + rules[i].symbol + y,
    decreases rules.len() - k,
{
    if k < rules.len() {
        let r = rules[k as int];
        lemma_first_from(s, r.part, 0);
        match behind_point(s, r) {
            Some(t) => {
                let x = s.take(s.len() - r.part.len());
                let y = Seq::<char>::empty();
                let tail = s.skip(s.len() - (r.part.len() + 1));
                assert(tail.skip(1) =~= r.part);
                assert(s =~= x + r.part + y);
                assert(t =~= x + r.symbol + y);
                assert(s == x + rules[k as int].part + y);
            },
            None => {
                match before_point(s, r) {
                    Some(t) => {
                        let i = first_from(s, r.part, 0)->0;
                        let end = i + r.part.len();
                        let x = s.take(i as int);
                        let y = s.skip(end as int);
                        assert(s =~= x + r.part + y);
                        assert(s == x + rules[k as int].part + y);
                    },
                    None => {
                        lemma_step(s, rules, k + 1);
                    },
                }
            },
        }
    }
}

proof fn lemma_ends_from(s: Seq<char>, rules: Seq<Rule>, n: nat)
    requires
        shrinks(rules),
    ensures
        ends(s, rules) || rewritten(s, rules, n).len() + n <= s.len(),
    decreases n,
{
    if n > 0 {
        lemma_ends_from(s, rules, (n - 1) as nat);
        if !ends(s, rules) {
            assert(!ends_after(s, rules, (n - 1) as nat));
            let t = rewritten(s, rules, (n - 1) as nat);
            lemma_step(t, rules, 0);
            let u = first_step(t, rules, 0)->0;
            let (i, x, y) = choose|i: int, x: Seq<char>, y: Seq<char>|
                0 <= i < rules.len() && t == #[trigger] (x + rules[i].part + y) && u == x
                    + rules[i].symbol + y;
            assert(rules[i].symbol.len() < rules[i].part.len());
        }
    }
}

/// With symbols that are shorter than the parts they stand for, the rules come to an end.
pub proof fn lemma_shrinking_ends(s: Seq<char>, rules: Seq<Rule>)
    requires
        shrinks(rules),
    ensures
        ends(s, rules),
{
    lemma_ends_from(s, rules, s.len() + 1);
}

/// The character is a symbol.
pub open spec fn is_symbol(c: char, rules: Seq<Rule>) -> bool {
    exists|i: int| 0 <= i < rules.len() && (#[trigger] rules[i]).symbol == seq![c]
}

/// What a character stands for: the part, if it is a symbol, else itself.
pub open spec fn char_meaning(c: char, rules: Seq<Rule>) -> Seq<char> {
    if is_symbol(c, rules) {
        let i = choose|i: int| 0 <= i < rules.len() && (#[trigger] rules[i]).symbol == seq![c];
        rules[i].part
    } else {
        seq![c]
    }
}

/// What a number in shorthand stands for.
pub open spec fn meaning(s: Seq<char>, rules: Seq<Rule>) -> Seq<char>
    decreases s.len(),
{
    if s.len() == 0 {
        Seq::empty()
    } else {
        meaning(s.drop_last(), rules) + char_meaning(s.last(), rules)
    }
}

/// No character of the text is a symbol.
pub open spec fn is_plain(s: Seq<char>, rules: Seq<Rule>) -> bool {
    forall|i: int| 0 <= i < s.len() ==> !is_symbol(#[trigger] s[i], rules)
}

/// Symbols are single characters, no two the same, and do not stand in parts.
pub open spec fn is_code(rules: Seq<Rule>) -> bool {
    &&& forall|i: int| 0 <= i < rules.len() ==> (#[trigger] rules[i]).symbol.len() == 1
    &&& forall|i: int| 0 <= i < rules.len() ==> is_plain((#[trigger] rules[i]).part, rules)
    &&& forall|i: int, j: int|
        0 <= i < j < rules.len() ==> (#[trigger] rules[i]).symbol != (#[trigger] rules[j]).symbol
}

pub(crate) proof fn lemma_meaning_concat(a: Seq<char>, b: Seq<char>, rules: Seq<Rule>)
    ensures
        meaning(a + b, rules) == meaning(a, rules) + meaning(b, rules),
    decreases b.len(),
{
    if b.len() == 0 {
        assert(a + b =~= a);
        assert(meaning(a, rules) + meaning(b, rules) =~= meaning(a, rules));
    } else {
        lemma_meaning_concat(a, b.drop_last(), rules);
        assert((a + b).drop_last() =~= a + b.drop_last());
        assert((a + b).last() == b.last());
        assert(meaning(a + b, rules) =~= meaning(a, rules) + meaning(b, rules));
    }
}

pub(crate) proof fn lemma_meaning_plain(s: Seq<char>, rules: Seq<Rule>)
    requires
        is_plain(s, rules),
    ensures
        meaning(s, rules) == s,
    decreases s.len(),
{
    if s.len() > 0 {
        let front = s.drop_last();
        assert forall|i: int| 0 <= i < front.len() implies !is_symbol(
            #[trigger] front[i],
            rules,
        ) by {
            assert(front[i] == s[i]);
        }
        lemma_meaning_plain(front, rules);
        assert(!is_symbol(s[s.len() - 1], rules));
        assert(meaning(s, rules) =~= s);
    }
}

pub(crate) proof fn lemma_meaning_symbol(rules: Seq<Rule>, i: int)
    requires
        is_code(rules),
        0 <= i < rules.len(),
    ensures
        meaning(rules[i].symbol, rules) == rules[i].part,
{
    let c = rules[i].symbol[0];
    assert(rules[i].symbol.len() == 1);
    assert(rules[i].symbol =~= seq![c]);
    assert(is_symbol(c, rules));
    let j = choose|j: int| 0 <= j < rules.len() && (#[trigger] rules[j]).symbol == seq![c];
    assert(i == j);
    let s = rules[i].symbol;
    assert(s.drop_last() =~= Seq::<char>::empty());
    assert(meaning(s.drop_last(), rules) =~= Seq::<char>::empty());
    assert(meaning(s, rules) =~= rules[i].part);
}

proof fn lemma_rewritten_keeps(s: Seq<char>, rules: Seq<Rule>, table: Seq<Rule>, n: nat)
    requires
        is_code(table),
        forall|i: int| 0 <= i < rules.len() ==> table.contains(#[trigger] rules[i]),
    ensures
        meaning(rewritten(s, rules, n), table) == meaning(s, table),
    decreases n,
{
    if n > 0 {
        lemma_rewritten_keeps(s, rules, table, (n - 1) as nat);
        let t = rewritten(s, rules, (n - 1) as nat);
        lemma_step(t, rules, 0);
        if first_step(t, rules, 0) is Some {
            let u = first_step(t, rules, 0)->0;
            let (i, x, y) = choose|i: int, x: Seq<char>, y: Seq<char>|
                0 <= i < rules.len() && t == #[trigger] (x + rules[i].part + y) && u == x
                    + rules[i].symbol + y;
            let r = rules[i];
            assert(table.contains(rules[i]));
            let j = choose|j: int| 0 <= j < table.len() && table[j] == r;
            assert(is_plain(table[j].part, table));
            lemma_meaning_concat(x + r.part, y, table);
            lemma_meaning_concat(x, r.part, table);
            lemma_meaning_concat(x + r.symbol, y, table);
            lemma_meaning_concat(x, r.symbol, table);
            lemma_meaning_plain(r.part, table);
            lemma_meaning_symbol(table, j);
        }
    }
}

/// Shorthand keeps what a text means by a table that holds the rules.
pub proof fn lemma_shorthand_keeps(s: Seq<char>, rules: Seq<Rule>, table: Seq<Rule>)
    requires
        is_code(table),
        forall|i: int| 0 <= i < rules.len() ==> table.contains(#[trigger] rules[i]),
    ensures
        meaning(shorthand(s, rules), table) == meaning(s, table),
{
    lemma_rewritten_keeps(s, rules, table, choose|n: nat| ends_after(s, rules, n));
}

/// Shorthand can be read back: with symbols that are single characters of their own, putting the
/// parts in place of the symbols gives the number.
pub proof fn lemma_shorthand_means(s: Seq<char>, rules: Seq<Rule>)
    requires
        ends(s, rules),
        is_code(rules),
        is_plain(s, rules),
    ensures
        meaning(shorthand(s, rules), rules) == s,
{
    lemma_shorthand_keeps(s, rules, rules);
    lemma_meaning_plain(s, rules);
}

/// The place that is found is the first one: the part stands there, and nowhere between where the search
/// starts and there; where none is found it stands nowhere from there on.
pub proof fn lemma_first_place(s: Seq<char>, part: Seq<char>, from: nat)
    ensures
        match first_from(s, part, from) {
            Some(i) => from <= i && i + part.len() <= s.len() && s.subrange(
                i as int,
                (i + part.len()) as int,
            ) == part && forall|k: nat| from <= k < i ==> !#[trigger] stands_at(s, part, k),
            None => forall|k: nat| from <= k ==> !#[trigger] stands_at(s, part, k),
        },
    decreases s.len() + 1 - from,
{
    if from + part.len() <= s.len() && !stands_at(s, part, from) {
        lemma_first_place(s, part, from + 1);
    }
}

/// Where the part is all that follows the first point, the symbol takes its place.
pub proof fn lemma_behind_point(x: Seq<char>, r: Rule)
    requires
        forall|i: int| 0 <= i < x.len() ==> #[trigger] x[i] != '.',
    ensures
        rule_step(x + seq!['.'] + r.part, r) == Some(x + seq!['.'] + r.symbol),
{
    let s = x + seq!['.'] + r.part;
    let point = seq!['.'];
    lemma_first_place(s, point, 0);
    assert(s.subrange(x.len() as int, (x.len() + 1) as int) =~= point);
    assert(stands_at(s, point, x.len()));
    if let Some(d) = first_from(s, point, 0) {
        if d < x.len() {
            assert(s.subrange(d as int, (d + 1) as int)[0] == point[0]);
            assert(s[d as int] == x[d as int]);
        }
    }
    assert(first_point(s) == Some(x.len()));
    assert(s.skip(s.len() - (r.part.len() + 1)) =~= seq!['.'] + r.part);
    assert(s.take(s.len() - r.part.len()) =~= x + seq!['.']);
}

/// A part at the front of a number that ends with it, or goes on with a digit or a point, gives way to
/// its symbol, where it does not stand behind the point as well.
pub proof fn lemma_at_front(r: Rule, y: Seq<char>)
    requires
        r.part.len() > 0,
        r.part[0] != '.',
        y.len() > 0 ==> is_digit(y[0]) || y[0] == '.',
        behind_point(r.part + y, r) is None,
    ensures
        rule_step(r.part + y, r) == Some(r.symbol + y),
{
    let s = r.part + y;
    assert(s.subrange(0, r.part.len() as int) =~= r.part);
    assert(stands_at(s, r.part, 0));
    assert(first_from(s, r.part, 0) == Some(0nat));
    lemma_first_place(s, seq!['.'], 0);
    if let Some(d) = first_point(s) {
        if d == 0 {
            assert(s.subrange(0, 1)[0] == s[0]);
            assert(s[0] == r.part[0]);
        }
    }
    if y.len() > 0 {
        assert(s[r.part.len() as int] == y[0]);
    }
    assert(s.take(0) + r.symbol + s.skip(r.part.len() as int) =~= r.symbol + y);
}

/// The first rule that applies decides.
pub proof fn lemma_first_rule_decides(s: Seq<char>, rules: Seq<Rule>, k: nat)
    ensures
        match first_step(s, rules, k) {
            Some(t) => exists|i: int|
                k <= i < rules.len() && rule_step(s, #[trigger] rules[i]) == Some(t) && forall|j: int|
                    k <= j < i ==> rule_step(s, #[trigger] rules[j]) is None,
            None => forall|j: int| k <= j < rules.len() ==> rule_step(s, #[trigger] rules[j]) is None,
        },
    decreases rules.len() - k,
{
    if k < rules.len() && rule_step(s, rules[k as int]) is None {
        lemma_first_rule_decides(s, rules, k + 1);
        match first_step(s, rules, k) {
            Some(t) => {
                let i = choose|i: int|
                    k + 1 <= i < rules.len() && rule_step(s, #[trigger] rules[i]) == Some(t)
                        && forall|j: int|
                        k + 1 <= j < i ==> rule_step(s, #[trigger] rules[j]) is None;
                assert(rule_step(s, rules[i]) == Some(t));
                assert forall|j: int| k <= j < i implies rule_step(s, #[trigger] rules[j]) is None by {
                    if j == k {
                        assert(rules[j] == rules[k as int]);
                    }
                }
            },
            None => {},
        }
    }
}

} // verus!
