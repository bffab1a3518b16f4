//! Short equations for large numbers: a sum of terms `c * n^e` and a rest.

use vstd::arithmetic::power::pow;
use vstd::arithmetic::power2::{
    lemma2_to64, lemma_pow2_adds, lemma_pow2_pos, lemma_pow2_strictly_increases, lemma_pow2_unfold,
    pow2,
};
use vstd::prelude::*;
use vstd::string::*;

use crate::fitting::{
    best_fit, best_fit_cached, bits_removed, lemma_best_fit, lemma_bit_len, lemma_bit_len_monotonic,
    lemma_bits_removed, lemma_raised, lemma_raised_increases, raised, PowCache, Term, TermValue,
};
use crate::natural::{bit_len, decimal, Natural};
use crate::reading::{lemma_read_equation, read_equation};
use crate::text::push_decimal;

verus! {

/// A coefficient may hold at least this many bits.
pub const COEF_BITS: u32 = 60;

/// A number `c * p` for one of the factors `c` that are tried around a power of two.
pub open spec fn near_power(c: nat, p: nat) -> bool {
    c == p || c == p / 2 || c == p / 4 || c == p + p / 4 || c == p + p / 2
}

/// A number that is tried around the powers of ten.
pub open spec fn near_round(c: nat, r: nat) -> bool {
    c == r || c == r + r / 2
}

/// `2048 * 2^k`.
pub open spec fn power_mark(k: nat) -> nat {
    2048 * pow2(k)
}

/// `2000 * 10^k`.
pub open spec fn round_mark(k: nat) -> nat {
    2000 * raised(10, k)
}

/// The first `m` marks of powers of two give the candidate `c`.
pub open spec fn from_powers(c: nat, m: nat) -> bool {
    exists|k: nat| k < m && near_power(c, #[trigger] power_mark(k))
}

/// The first `m` round marks give the candidate `c`.
pub open spec fn from_rounds(c: nat, m: nat) -> bool {
    exists|k: nat| k < m && near_round(c, #[trigger] round_mark(k))
}

/// The base `c` is tried: every small one, and those near a power of two or a round number that
/// is within the limit.
pub open spec fn is_candidate(c: nat, max_base: nat) -> bool {
    2 <= c <= max_base && (c <= 1024 || (exists|k: nat|
        #[trigger] power_mark(k) <= max_base && near_power(c, power_mark(k))) || (exists|k: nat|
        #[trigger] round_mark(k) <= max_base && near_round(c, round_mark(k))))
}

/// Each number is larger than the one before.
pub open spec fn ascending(v: Seq<u64>) -> bool {
    forall|i: int, j: int| 0 <= i < j < v.len() ==> v[i] < v[j]
}

/// Puts `c` in its place, unless it is there already.
fn insert_ascending(v: &mut Vec<u64>, c: u64)
    requires
        ascending(old(v)@),
    ensures
        ascending(final(v)@),
        forall|x: u64| #[trigger] final(v)@.contains(x) <==> (x == c || old(v)@.contains(x)),
{
    let ghost before = v@;
    let mut i: usize = v.len();
    while i > 0 && v[i - 1] > c
        invariant
            i <= v.len(),
            v@ == before,
            forall|j: int| i <= j < v.len() ==> v[j] > c,
        decreases i,
    {
        i = i - 1;
    }
    if i > 0 && v[i - 1] == c {
        assert(before[i - 1] == c);
        return;
    }
    v.insert(i, c);
    proof {
        assert forall|x: u64| #[trigger] v@.contains(x) <==> (x == c || before.contains(x)) by {
            if x == c {
                assert(v@[i as int] == x);
            }
            if before.contains(x) {
                let j = choose|j: int| 0 <= j < before.len() && before[j] == x;
                if j < i {
                    assert(v@[j] == x);
                } else {
                    assert(v@[j + 1] == x);
                }
            }
            if v@.contains(x) {
                let j = choose|j: int| 0 <= j < v@.len() && v@[j] == x;
                if j < i {
                    assert(before[j] == x);
                } else if j > i {
                    assert(before[j - 1] == x);
                }
            }
        }
    }
}

fn insert_candidate(v: &mut Vec<u64>, c: u64, max_base: u64)
    requires
        ascending(old(v)@),
    ensures
        ascending(final(v)@),
        forall|x: u64|
            #[trigger] final(v)@.contains(x) <==> ((x == c && 2 <= c <= max_base) || old(v)@.contains(x)),
{
    if c >= 2 && c <= max_base {
        insert_ascending(v, c);
    }
}

proof fn lemma_marks_increase(j: nat, k: nat)
    requires
        j <= k,
    ensures
        power_mark(j) <= power_mark(k),
        round_mark(j) <= round_mark(k),
{
    if j < k {
        lemma_pow2_strictly_increases(j, k);
        lemma_raised_increases(10, j, k);
    }
}

proof fn lemma_last_round()
    ensures
        round_mark(15) == 2_000_000_000_000_000_000,
{
    reveal_with_fuel(pow, 16);
    assert(pow(10, 15) == 1_000_000_000_000_000);
}

/// The bases to try: every small one, and few of the larger ones.
pub fn base_candidates(max_base: u64) -> (v: Vec<u64>)
    requires
        max_base < 2_000_000_000_000_000_000,
    ensures
        ascending(v@),
        forall|c: u64| #[trigger] v@.contains(c) <==> is_candidate(c as nat, max_base as nat),
{
    let mut v: Vec<u64> = Vec::new();
    let mut b: u64 = 2;
    while b <= 1024 && b <= max_base
        invariant
            2 <= b <= 1025,
            v@.len() == b - 2,
            forall|i: int| 0 <= i < v@.len() ==> v@[i] == i + 2,
            v@.len() > 0 ==> b - 1 <= max_base,
        decreases 1025 - b,
    {
        v.push(b);
        b = b + 1;
    }
    proof {
        assert forall|x: u64| #[trigger] v@.contains(x) <==> (2 <= x <= max_base && x <= 1024) by {
            if 2 <= x <= max_base && x <= 1024 {
                assert(v@[x - 2] == x);
            }
        }
        lemma2_to64();
        lemma_raised(10, 0);
    }
    let mut p: u64 = 2048;
    let ghost mut m: nat = 0;
    while p <= max_base
        invariant
            max_base < 2_000_000_000_000_000_000,
            p as nat == power_mark(m),
            p > 0,
            forall|k: nat| k < m ==> #[trigger] power_mark(k) <= max_base,
            ascending(v@),
            forall|x: u64|
                #[trigger] v@.contains(x) <==> (2 <= x <= max_base && (x <= 1024 || from_powers(x as nat, m))),
        decreases max_base * 2 - p,
    {
        let ghost before = v@;
        insert_candidate(&mut v, p, max_base);
        insert_candidate(&mut v, p / 2, max_base);
        insert_candidate(&mut v, p / 4, max_base);
        insert_candidate(&mut v, p + p / 4, max_base);
        insert_candidate(&mut v, p + p / 2, max_base);
        proof {
            lemma_pow2_unfold(m + 1);
            assert forall|x: u64| #[trigger] v@.contains(x) <==> (2 <= x <= max_base && (x <= 1024
                || from_powers(x as nat, m + 1))) by {
                if near_power(x as nat, p as nat) {
                    assert(near_power(x as nat, power_mark(m)));
                }
                if from_powers(x as nat, m) {
                    let k = choose|k: nat| k < m && near_power(x as nat, #[trigger] power_mark(k));
                    assert(k < m + 1);
                }
                if from_powers(x as nat, m + 1) {
                    let k = choose|k: nat|
                        k < m + 1 && near_power(x as nat, #[trigger] power_mark(k));
                    if k < m {
                        assert(from_powers(x as nat, m));
                    }
                }
            }
            m = m + 1;
        }
        p = p * 2;
    }
    let ghost marks = m;
    let mut r: u64 = 2000;
    let ghost mut n: nat = 0;
    while r <= max_base
        invariant
            max_base < 2_000_000_000_000_000_000,
            r as nat == round_mark(n),
            forall|k: nat| k < n ==> #[trigger] round_mark(k) <= max_base,
            ascending(v@),
            forall|x: u64|
                #[trigger] v@.contains(x) <==> (2 <= x <= max_base && (x <= 1024 || from_powers(
                    x as nat,
                    marks,
                ) || from_rounds(x as nat, n))),
            0 < r <= 2_000_000_000_000_000_000,
        decreases 2_000_000_000_000_000_000 - r,
    {
        insert_candidate(&mut v, r, max_base);
        insert_candidate(&mut v, r + r / 2, max_base);
        proof {
            lemma_raised(10, n);
            lemma_last_round();
            if n < 15 {
                lemma_marks_increase(n + 1, 15);
            } else {
                lemma_marks_increase(15, n);
            }
            assert forall|x: u64| #[trigger] v@.contains(x) <==> (2 <= x <= max_base && (x <= 1024
                || from_powers(x as nat, marks) || from_rounds(x as nat, n + 1))) by {
                if near_round(x as nat, r as nat) {
                    assert(near_round(x as nat, round_mark(n)));
                }
                if from_rounds(x as nat, n) {
                    let k = choose|k: nat| k < n && near_round(x as nat, #[trigger] round_mark(k));
                    assert(k < n + 1);
                }
                if from_rounds(x as nat, n + 1) {
                    let k = choose|k: nat|
                        k < n + 1 && near_round(x as nat, #[trigger] round_mark(k));
                    if k < n {
                        assert(from_rounds(x as nat, n));
                    }
                }
            }
            n = n + 1;
        }
        r = r * 10;
    }
    proof {
        assert forall|c: u64| #[trigger] v@.contains(c) <==> is_candidate(c as nat, max_base as nat) by {
            if from_powers(c as nat, marks) {
                let k = choose|k: nat| k < marks && near_power(c as nat, #[trigger] power_mark(k));
                assert(power_mark(k) <= max_base && near_power(c as nat, power_mark(k)));
            }
            if from_rounds(c as nat, n) {
                let k = choose|k: nat| k < n && near_round(c as nat, #[trigger] round_mark(k));
                assert(round_mark(k) <= max_base && near_round(c as nat, round_mark(k)));
            }
            if exists|k: nat|
                #[trigger] power_mark(k) <= max_base && near_power(c as nat, power_mark(k)) {
                let k = choose|k: nat|
                    #[trigger] power_mark(k) <= max_base && near_power(c as nat, power_mark(k));
                if k >= marks {
                    lemma_marks_increase(marks, k);
                }
                assert(from_powers(c as nat, marks));
            }
            if exists|k: nat|
                #[trigger] round_mark(k) <= max_base && near_round(c as nat, round_mark(k)) {
                let k = choose|k: nat|
                    #[trigger] round_mark(k) <= max_base && near_round(c as nat, round_mark(k));
                if k >= n {
                    lemma_marks_increase(n, k);
                }
                assert(from_rounds(c as nat, n));
            }
        }
    }
    v
}

/// The number of decimal digits of `x`.
pub fn digits(x: u64) -> (n: usize)
    ensures
        n as nat == decimal(x as nat).len(),
        n <= 20,
{
    let mut n: usize = 1;
    let mut rest: u64 = x;
    let mut limit: u64 = u64::MAX;
    while rest >= 10
        invariant
            n + decimal(rest as nat).len() == decimal(x as nat).len() + 1,
            rest <= limit,
            (n == 1 && limit == u64::MAX) || (n == 2 && limit == 1844674407370955161) || (n == 3
                && limit == 184467440737095516) || (n == 4 && limit == 18446744073709551) || (n == 5
                && limit == 1844674407370955) || (n == 6 && limit == 184467440737095) || (n == 7
                && limit == 18446744073709) || (n == 8 && limit == 1844674407370) || (n == 9
                && limit == 184467440737) || (n == 10 && limit == 18446744073) || (n == 11 && limit
                == 1844674407) || (n == 12 && limit == 184467440) || (n == 13 && limit == 18446744)
                || (n == 14 && limit == 1844674) || (n == 15 && limit == 184467) || (n == 16
                && limit == 18446) || (n == 17 && limit == 1844) || (n == 18 && limit == 184) || (n
                == 19 && limit == 18) || (n == 20 && limit == 1),
        decreases rest,
    {
        rest = rest / 10;
        limit = limit / 10;
        n = n + 1;
    }
    n
}

/// What is estimated of a base: the exponent to take, how many digits the coefficient has, and a
/// score for the bits that the term removes.
#[derive(Clone, Copy, Debug, PartialEq, Eq)]
pub struct Estimate {
    pub e: u32,
    pub a_digits: usize,
    pub score: i64,
}

/// A base with its estimate.
#[derive(Clone, Copy, Debug, PartialEq, Eq)]
pub struct Ranked {
    pub base: u64,
    pub estimate: Estimate,
}

/// Scores do not increase.
pub open spec fn descending(list: Seq<Ranked>) -> bool {
    forall|i: int, j: int|
        0 <= i < j < list.len() ==> list[i].estimate.score >= list[j].estimate.score
}

/// How many entries at the front have at least this score.
pub open spec fn place(list: Seq<Ranked>, score: i64) -> nat
    decreases list.len(),
{
    if list.len() == 0 || list[0].estimate.score < score {
        0
    } else {
        1 + place(list.skip(1), score)
    }
}

/// The list with `r` in its place, behind those with its score, cut to `k` entries.
pub open spec fn inserted(list: Seq<Ranked>, r: Ranked, k: nat) -> Seq<Ranked> {
    let longer = list.insert(place(list, r.estimate.score) as int, r);
    if longer.len() > k {
        longer.take(k as int)
    } else {
        longer
    }
}

/// The `k` best of the entries, the best first, and of those with the same score the earlier one.
pub open spec fn best_entries(entries: Seq<Ranked>, k: nat) -> Seq<Ranked>
    decreases entries.len(),
{
    if entries.len() == 0 {
        Seq::empty()
    } else {
        inserted(best_entries(entries.drop_last(), k), entries.last(), k)
    }
}

proof fn lemma_place(list: Seq<Ranked>, score: i64)
    ensures
        place(list, score) <= list.len(),
        forall|i: int| 0 <= i < place(list, score) ==> list[i].estimate.score >= score,
        place(list, score) < list.len() ==> list[place(list, score) as int].estimate.score < score,
    decreases list.len(),
{
    if list.len() > 0 && list[0].estimate.score >= score {
        let rest = list.skip(1);
        lemma_place(rest, score);
        assert forall|i: int| 0 <= i < place(list, score) implies list[i].estimate.score
            >= score by {
            if i > 0 {
                assert(rest[i - 1] == list[i]);
            }
        }
    }
}

proof fn lemma_inserted(list: Seq<Ranked>, r: Ranked, k: nat)
    requires
        descending(list),
        list.len() <= k,
    ensures
        descending(inserted(list, r, k)),
        inserted(list, r, k).len() == (if list.len() < k {
            list.len() + 1
        } else {
            k
        }),
{
    lemma_place(list, r.estimate.score);
}

/// The list of the best has its entries in descending order, as many as there are up to the limit,
/// and every entry that is not among them scores no more than any that is.
pub proof fn lemma_best_entries(entries: Seq<Ranked>, k: nat)
    ensures
        ({
            let best = best_entries(entries, k);
            &&& descending(best)
            &&& best.len() == (if entries.len() < k {
                entries.len()
            } else {
                k
            })
            &&& forall|j: int|
                0 <= j < best.len() ==> #[trigger] entries.contains(best[j])
            &&& forall|i: int|
                0 <= i < entries.len() ==> best.contains(#[trigger] entries[i]) || (best.len() == k
                    && forall|j: int|
                    0 <= j < best.len() ==> (#[trigger] best[j]).estimate.score
                        >= entries[i].estimate.score)
        }),
    decreases entries.len(),
{
    if entries.len() > 0 {
        let front = entries.drop_last();
        let r = entries.last();
        lemma_best_entries(front, k);
        let before = best_entries(front, k);
        lemma_inserted(before, r, k);
        lemma_place(before, r.estimate.score);
        let at = place(before, r.estimate.score) as int;
        let best = best_entries(entries, k);
        let longer = before.insert(at, r);
        assert forall|j: int| 0 <= j < best.len() implies #[trigger] entries.contains(best[j]) by {
            assert(best[j] == longer[j]);
            if j < at {
                assert(longer[j] == before[j]);
                assert(front.contains(before[j]));
                let x = choose|x: int| 0 <= x < front.len() && front[x] == before[j];
                assert(entries[x] == before[j]);
            } else if j == at {
                assert(entries[entries.len() - 1] == r);
            } else {
                assert(longer[j] == before[j - 1]);
                assert(front.contains(before[j - 1]));
                let x = choose|x: int| 0 <= x < front.len() && front[x] == before[j - 1];
                assert(entries[x] == before[j - 1]);
            }
        }
        assert forall|i: int| 0 <= i < entries.len() implies best.contains(#[trigger] entries[i])
            || (best.len() == k && forall|j: int|
            0 <= j < best.len() ==> (#[trigger] best[j]).estimate.score
                >= entries[i].estimate.score) by {
            if i == entries.len() - 1 {
                if at < best.len() {
                    assert(best[at] == r);
                } else {
                    assert forall|j: int| 0 <= j < best.len() implies (
                    #[trigger] best[j]).estimate.score >= entries[i].estimate.score by {
                        assert(best[j] == before[j]);
                    }
                }
            } else {
                assert(front[i] == entries[i]);
                if before.contains(entries[i]) {
                    let x = choose|x: int| 0 <= x < before.len() && before[x] == entries[i];
                    let y = if x < at {
                        x
                    } else {
                        x + 1
                    };
                    assert(longer[y] == entries[i]);
                    if y < best.len() {
                        assert(best[y] == entries[i]);
                    } else {
                        assert forall|j: int| 0 <= j < best.len() implies (
                        #[trigger] best[j]).estimate.score >= entries[i].estimate.score by {
                            assert(best[j] == longer[j]);
                            if j < at {
                                assert(longer[j] == before[j]);
                            } else if j > at {
                                assert(longer[j] == before[j - 1]);
                            }
                        }
                    }
                } else {
                    assert forall|j: int| 0 <= j < best.len() implies (
                    #[trigger] best[j]).estimate.score >= entries[i].estimate.score by {
                        assert(best[j] == longer[j]);
                        if j < at {
                            assert(longer[j] == before[j]);
                        } else if j > at {
                            assert(longer[j] == before[j - 1]);
                        } else {
                            assert(before[at].estimate.score >= entries[i].estimate.score);
                        }
                    }
                }
            }
        }
    }
}

/// Puts `r` in its place in the list of the `k` best.
pub fn insert_top_k(best: &mut Vec<Ranked>, r: Ranked, k: usize)
    requires
        descending(old(best)@),
        old(best).len() <= k,
    ensures
        final(best)@ == inserted(old(best)@, r, k as nat),
        descending(final(best)@),
        final(best).len() <= k,
{
    let ghost before = best@;
    proof {
        lemma_inserted(before, r, k as nat);
        lemma_place(before, r.estimate.score);
    }
    let mut at: usize = 0;
    while at < best.len() && best[at].estimate.score >= r.estimate.score
        invariant
            at <= best.len(),
            best@ == before,
            forall|i: int| 0 <= i < at ==> best@[i].estimate.score >= r.estimate.score,
        decreases best.len() - at,
    {
        at = at + 1;
    }
    proof {
        lemma_place_is(before, r.estimate.score, at as nat);
    }
    if best.len() < k {
        best.insert(at, r);
    } else if at < k {
        best.insert(at, r);
        best.truncate(k);
        assert(best@ =~= inserted(before, r, k as nat));
    } else {
        assert(best@ =~= inserted(before, r, k as nat));
    }
}

proof fn lemma_place_is(list: Seq<Ranked>, score: i64, at: nat)
    requires
        at <= list.len(),
        forall|i: int| 0 <= i < at ==> list[i].estimate.score >= score,
        at < list.len() ==> list[at as int].estimate.score < score,
    ensures
        place(list, score) == at,
{
    lemma_place(list, score);
    let p = place(list, score);
    if p < at {
        assert(list[p as int].estimate.score >= score);
    }
    if at < p {
        assert(list[at as int].estimate.score >= score);
    }
}

/// The bases, each with its estimate.
pub open spec fn paired(bases: Seq<u64>, estimates: Seq<Estimate>) -> Seq<Ranked> {
    Seq::new(bases.len(), |i: int| Ranked { base: bases[i], estimate: estimates[i] })
}

/// `estimates` is what was estimated of the bases for `value`.
pub open spec fn estimated<F: Fn(&Natural, u64, u32) -> Estimate>(
    estimate: F,
    value: &Natural,
    coef_bits: u32,
    bases: Seq<u64>,
    estimates: Seq<Estimate>,
) -> bool {
    &&& estimates.len() == bases.len()
    &&& forall|i: int|
        0 <= i < bases.len() ==> call_ensures(
            estimate,
            (value, bases[i], coef_bits),
            #[trigger] estimates[i],
        )
}

/// The candidates up to `max_base`, in order.
pub open spec fn are_candidates(bases: Seq<u64>, max_base: u64) -> bool {
    &&& ascending(bases)
    &&& forall|c: u64| #[trigger] bases.contains(c) <==> is_candidate(c as nat, max_base as nat)
}

/// `ranked` is the list of the `k` best candidates, by what was estimated of them for `value`.
#[verifier::opaque]
pub open spec fn ranks<F: Fn(&Natural, u64, u32) -> Estimate>(
    estimate: F,
    value: nat,
    max_base: u64,
    k: nat,
    coef_bits: u32,
    ranked: Seq<Ranked>,
) -> bool {
    exists|v: &Natural, bases: Seq<u64>, estimates: Seq<Estimate>|
        v@ == value && are_candidates(bases, max_base) && #[trigger] estimated(
            estimate,
            v,
            coef_bits,
            bases,
            estimates,
        ) && ranked == best_entries(paired(bases, estimates), k)
}

/// The `k` best candidate bases for `value`, by what is estimated of them.
pub fn rank_bases<F: Fn(&Natural, u64, u32) -> Estimate>(
    value: &Natural,
    max_base: u64,
    k: usize,
    coef_bits: u32,
    estimate: &F,
) -> (ranked: Vec<Ranked>)
    requires
        2 <= max_base < 2_000_000_000_000_000_000,
        forall|v: &Natural, b: u64, c: u32| call_requires(*estimate, (v, b, c)),
    ensures
        ranks(*estimate, value@, max_base, k as nat, coef_bits, ranked@),
        k > 0 ==> ranked.len() > 0,
        ranked.len() <= k,
        forall|i: int| 0 <= i < ranked.len() ==> 2 <= (#[trigger] ranked@[i]).base <= max_base,
{
    let bases = base_candidates(max_base);
    let mut best: Vec<Ranked> = Vec::new();
    let ghost mut estimates: Seq<Estimate> = Seq::empty();
    let mut i: usize = 0;
    while i < bases.len()
        invariant
            i <= bases.len(),
            forall|v: &Natural, b: u64, c: u32| call_requires(*estimate, (v, b, c)),
            estimated(*estimate, value, coef_bits, bases@.take(i as int), estimates),
            best@ == best_entries(paired(bases@.take(i as int), estimates), k as nat),
            descending(best@),
            best.len() <= k,
        decreases bases.len() - i,
    {
        let e = estimate(value, bases[i], coef_bits);
        let r = Ranked { base: bases[i], estimate: e };
        insert_top_k(&mut best, r, k);
        proof {
            let was = paired(bases@.take(i as int), estimates);
            let before = estimates;
            estimates = estimates.push(e);
            let now = paired(bases@.take(i + 1), estimates);
            assert(now.drop_last() =~= was);
            assert(now.last() == r);
            assert forall|j: int| 0 <= j < i + 1 implies call_ensures(
                *estimate,
                (value, bases@.take(i + 1)[j], coef_bits),
                #[trigger] estimates[j],
            ) by {
                if j < i {
                    assert(estimates[j] == before[j]);
                    assert(bases@.take(i + 1)[j] == bases@.take(i as int)[j]);
                }
            }
        }
        i = i + 1;
    }
    proof {
        assert(bases@.take(i as int) =~= bases@);
        let entries = paired(bases@, estimates);
        lemma_best_entries(entries, k as nat);
        assert(is_candidate(2, max_base as nat));
        assert(bases@.contains(2));
        assert forall|j: int| 0 <= j < best.len() implies 2 <= (#[trigger] best@[j]).base
            <= max_base by {
            assert(entries.contains(best@[j]));
            let x = choose|x: int| 0 <= x < entries.len() && entries[x] == best@[j];
            assert(bases@.contains(bases@[x]));
        }
        assert(are_candidates(bases@, max_base));
        assert(estimated(*estimate, value, coef_bits, bases@, estimates));
        reveal(ranks);
    }
    best
}

/// What is estimated depends on the number, the base and the bits alone.
pub open spec fn is_function<F: Fn(&Natural, u64, u32) -> Estimate>(estimate: F) -> bool {
    forall|v: &Natural, w: &Natural, b: u64, c: u32, x: Estimate, y: Estimate|
        #![trigger call_ensures(estimate, (v, b, c), x), call_ensures(estimate, (w, b, c), y)]
        v@ == w@ && call_ensures(estimate, (v, b, c), x) && call_ensures(estimate, (w, b, c), y)
            ==> x == y
}

proof fn lemma_candidates_stay(c: nat, small: nat, large: nat)
    requires
        small <= large,
        is_candidate(c, small),
    ensures
        is_candidate(c, large),
{
    if c > 1024 {
        if exists|k: nat| #[trigger] power_mark(k) <= small && near_power(c, power_mark(k)) {
            let k = choose|k: nat|
                #[trigger] power_mark(k) <= small && near_power(c, power_mark(k));
            assert(power_mark(k) <= large && near_power(c, power_mark(k)));
        } else {
            let k = choose|k: nat|
                #[trigger] round_mark(k) <= small && near_round(c, round_mark(k));
            assert(round_mark(k) <= large && near_round(c, round_mark(k)));
        }
    }
}

/// With a larger limit for the bases the best of them is estimated no worse, where the estimate
/// depends on its arguments alone.
pub proof fn lemma_larger_limit<F: Fn(&Natural, u64, u32) -> Estimate>(
    estimate: F,
    value: nat,
    small: u64,
    large: u64,
    k: nat,
    coef_bits: u32,
    few: Seq<Ranked>,
    many: Seq<Ranked>,
)
    requires
        is_function(estimate),
        small <= large,
        ranks(estimate, value, small, k, coef_bits, few),
        ranks(estimate, value, large, k, coef_bits, many),
        few.len() > 0,
    ensures
        many.len() > 0,
        many[0].estimate.score >= few[0].estimate.score,
{
    reveal(ranks);
    let (v, bases, estimates) = choose|v: &Natural, bases: Seq<u64>, estimates: Seq<Estimate>|
        v@ == value && are_candidates(bases, small) && #[trigger] estimated(
            estimate,
            v,
            coef_bits,
            bases,
            estimates,
        ) && few == best_entries(paired(bases, estimates), k);
    let (w, others, guesses) = choose|v: &Natural, bases: Seq<u64>, estimates: Seq<Estimate>|
        v@ == value && are_candidates(bases, large) && #[trigger] estimated(
            estimate,
            v,
            coef_bits,
            bases,
            estimates,
        ) && many == best_entries(paired(bases, estimates), k);
    let entries = paired(bases, estimates);
    let all = paired(others, guesses);
    lemma_best_entries(entries, k);
    lemma_best_entries(all, k);
    assert(entries.contains(few[0]));
    let i = choose|i: int| 0 <= i < entries.len() && entries[i] == few[0];
    assert(bases.contains(bases[i]));
    lemma_candidates_stay(bases[i] as nat, small as nat, large as nat);
    assert(others.contains(bases[i]));
    let j = choose|j: int| 0 <= j < others.len() && others[j] == bases[i];
    assert(call_ensures(estimate, (v, bases[i], coef_bits), estimates[i]));
    assert(call_ensures(estimate, (w, bases[i], coef_bits), guesses[j]));
    assert(all[j] == few[0]);
    if many.contains(all[j]) {
        let x = choose|x: int| 0 <= x < many.len() && many[x] == all[j];
        assert(many[0].estimate.score >= many[x].estimate.score);
    }
}

/// The fit that removes the most bits, over the bases; the last of several.
pub open spec fn best_of(value: nat, bases: Seq<Ranked>, coef_bits: nat) -> (TermValue, nat)
    decreases bases.len(),
{
    let here = best_fit(value, bases.last().base, coef_bits);
    if bases.len() <= 1 {
        here
    } else {
        let before = best_of(value, bases.drop_last(), coef_bits);
        if bits_removed(value, here.1) >= bits_removed(value, before.1) {
            here
        } else {
            before
        }
    }
}

/// The other sign.
pub open spec fn flipped(sign: i8) -> i8 {
    if sign == 1 {
        -1i8
    } else {
        1
    }
}

/// Terms with their signs, and what is left with its sign.
pub struct Peeled {
    pub terms: Seq<(i8, TermValue)>,
    pub sign: i8,
    pub rest: nat,
}

/// What is left of `seed` after one term for each list of bases. A term that is above what it
/// stands for turns the sign.
pub open spec fn peeled(seed: nat, lists: Seq<Seq<Ranked>>, coef_bits: nat) -> Peeled
    decreases lists.len(),
{
    if lists.len() == 0 {
        Peeled { terms: Seq::empty(), sign: 1, rest: seed }
    } else {
        let before = peeled(seed, lists.drop_last(), coef_bits);
        let (t, gap) = best_of(before.rest, lists.last(), coef_bits);
        Peeled {
            terms: before.terms.push((before.sign, t)),
            sign: if t.ceil {
                flipped(before.sign)
            } else {
                before.sign
            },
            rest: gap,
        }
    }
}

/// How many of the best bases are fitted for each term.
pub const TOP_EXACT: usize = 10;

/// The lists of bases that were tried, one for each term: each ranks the bases for what was left,
/// which was not zero.
pub open spec fn tried<F: Fn(&Natural, u64, u32) -> Estimate>(
    estimate: F,
    seed: nat,
    max_base: u64,
    coef_bits: u32,
    lists: Seq<Seq<Ranked>>,
) -> bool {
    forall|i: int| #![trigger lists[i]]
        0 <= i < lists.len() ==> {
            let rest = peeled(seed, lists.take(i), coef_bits as nat).rest;
            &&& rest != 0
            &&& ranks(estimate, rest, max_base, TOP_EXACT as nat, coef_bits, lists[i])
            &&& lists[i].len() > 0
            &&& forall|j: int|
                0 <= j < lists[i].len() ==> 2 <= (#[trigger] lists[i][j]).base <= max_base
        }
}

/// The terms' values.
pub open spec fn term_values(terms: Seq<(i8, Term)>) -> Seq<(i8, TermValue)> {
    Seq::new(terms.len(), |i: int| (terms[i].0, terms[i].1@))
}

/// What `lemma_best_fit` says holds of the best fit over several bases.
proof fn lemma_best_of(value: nat, bases: Seq<Ranked>, coef_bits: nat)
    requires
        bases.len() > 0,
        forall|j: int| 0 <= j < bases.len() ==> 2 <= (#[trigger] bases[j]).base,
        value >= 1,
        bit_len(value) <= u32::MAX,
    ensures
        ({
            let (t, gap) = best_of(value, bases, coef_bits);
            &&& gap < value
            &&& exists|j: int| 0 <= j < bases.len() && (#[trigger] bases[j]).base == t.base
            &&& t.ceil ==> value == t.amount() - gap
            &&& !t.ceil ==> value == t.amount() + gap
        }),
    decreases bases.len(),
{
    assert(bases[bases.len() - 1].base >= 2);
    lemma_best_fit(value, bases.last().base, coef_bits);
    if bases.len() > 1 {
        let front = bases.drop_last();
        assert forall|j: int| 0 <= j < front.len() implies 2 <= (#[trigger] front[j]).base by {
            assert(front[j] == bases[j]);
        }
        lemma_best_of(value, front, coef_bits);
        let base = best_of(value, front, coef_bits).0.base;
        let j = choose|j: int| 0 <= j < front.len() && (#[trigger] front[j]).base == base;
        assert(bases[j].base == base);
    }
}

/// The best fit over the bases.
fn best_over(value: &Natural, ranked: &Vec<Ranked>, coef_bits: u32) -> (r: (Term, Natural))
    requires
        ranked@.len() > 0,
        forall|j: int| 0 <= j < ranked@.len() ==> 2 <= (#[trigger] ranked@[j]).base,
        value@ >= 1,
        bit_len(value@) <= u32::MAX,
    ensures
        (r.0@, r.1@) == best_of(value@, ranked@, coef_bits as nat),
{
    let first = ranked[0].base;
    assert(ranked@[0].base >= 2);
    let mut cache = PowCache::new(first);
    let (mut best_term, mut best_gap) = best_fit_cached(value, first, &mut cache, coef_bits);
    let bits = value.bits();
    let mut best_score = bits.saturating_sub(best_gap.bits());
    let mut i: usize = 1;
    assert(ranked@.take(1).last() == ranked@[0]);
    while i < ranked.len()
        invariant
            1 <= i <= ranked.len(),
            bits as nat == bit_len(value@),
            value@ >= 1,
            bit_len(value@) <= u32::MAX,
            forall|j: int| 0 <= j < ranked@.len() ==> 2 <= (#[trigger] ranked@[j]).base,
            (best_term@, best_gap@) == best_of(value@, ranked@.take(i as int), coef_bits as nat),
            best_score as nat == bits_removed(value@, best_gap@),
        decreases ranked.len() - i,
    {
        let base = ranked[i].base;
        assert(ranked@[i as int].base >= 2);
        let mut cache = PowCache::new(base);
        let (t, gap) = best_fit_cached(value, base, &mut cache, coef_bits);
        let score = bits.saturating_sub(gap.bits());
        proof {
            let now = ranked@.take(i + 1);
            assert(now.drop_last() =~= ranked@.take(i as int));
            assert(now.last() == ranked@[i as int]);
        }
        if score >= best_score {
            best_term = t;
            best_gap = gap;
            best_score = score;
        }
        i = i + 1;
    }
    assert(ranked@.take(i as int) =~= ranked@);
    (best_term, best_gap)
}

proof fn lemma_tried_push<F: Fn(&Natural, u64, u32) -> Estimate>(
    estimate: F,
    seed: nat,
    max_base: u64,
    coef_bits: u32,
    lists: Seq<Seq<Ranked>>,
    next: Seq<Ranked>,
)
    requires
        tried(estimate, seed, max_base, coef_bits, lists),
        peeled(seed, lists, coef_bits as nat).rest != 0,
        ranks(
            estimate,
            peeled(seed, lists, coef_bits as nat).rest,
            max_base,
            TOP_EXACT as nat,
            coef_bits,
            next,
        ),
        next.len() > 0,
        forall|j: int| 0 <= j < next.len() ==> 2 <= (#[trigger] next[j]).base <= max_base,
    ensures
        tried(estimate, seed, max_base, coef_bits, lists.push(next)),
        ({
            let before = peeled(seed, lists, coef_bits as nat);
            let (t, gap) = best_of(before.rest, next, coef_bits as nat);
            peeled(seed, lists.push(next), coef_bits as nat) == (Peeled {
                terms: before.terms.push((before.sign, t)),
                sign: if t.ceil {
                    flipped(before.sign)
                } else {
                    before.sign
                },
                rest: gap,
            })
        }),
{
    let now = lists.push(next);
    assert(now.drop_last() =~= lists);
    assert(now.last() == next);
    assert forall|k: int| #![trigger now[k]] 0 <= k < now.len() implies {
        let rest = peeled(seed, now.take(k), coef_bits as nat).rest;
        &&& rest != 0
        &&& ranks(estimate, rest, max_base, TOP_EXACT as nat, coef_bits, now[k])
        &&& now[k].len() > 0
        &&& forall|j: int| 0 <= j < now[k].len() ==> 2 <= (#[trigger] now[k][j]).base <= max_base
    } by {
        if k < lists.len() {
            assert(lists[k] == now[k]);
            assert(now.take(k) =~= lists.take(k));
        } else {
            assert(now.take(k) =~= lists);
        }
    }
}

/// Takes one term after the other off `seed`, until nothing is left or there are `max_terms`: each
/// time the closest over the best bases. Returns the terms with their signs, and what is left with
/// its sign.
pub fn greedy<F: Fn(&Natural, u64, u32) -> Estimate>(
    seed: &Natural,
    max_terms: usize,
    max_base: u64,
    coef_bits: u32,
    estimate: &F,
) -> (r: (Vec<(i8, Term)>, i8, Natural))
    requires
        2 <= max_base < 2_000_000_000_000_000_000,
        bit_len(seed@) <= u32::MAX,
        forall|v: &Natural, b: u64, c: u32| call_requires(*estimate, (v, b, c)),
    ensures
        exists|lists: Seq<Seq<Ranked>>|
            {
                &&& #[trigger] tried(*estimate, seed@, max_base, coef_bits, lists)
                &&& peeled(seed@, lists, coef_bits as nat) == (Peeled {
                    terms: term_values(r.0@),
                    sign: r.1,
                    rest: r.2@,
                })
                &&& lists.len() == r.0.len()
            },
        r.0.len() <= max_terms,
        r.0.len() < max_terms ==> r.2@ == 0,
        is_exact(seed@, term_values(r.0@), r.1, r.2@, max_base),
        replayed(seed@, term_values(r.0@)) == Some((r.2@, r.1)),
{
    let mut residual = seed.copy();
    let mut sign: i8 = 1;
    let mut terms: Vec<(i8, Term)> = Vec::new();
    let ghost mut lists: Seq<Seq<Ranked>> = Seq::empty();
    assert(term_values(terms@) =~= Seq::empty());
    while terms.len() < max_terms && !residual.is_zero()
        invariant
            2 <= max_base < 2_000_000_000_000_000_000,
            bit_len(residual@) <= u32::MAX,
            forall|v: &Natural, b: u64, c: u32| call_requires(*estimate, (v, b, c)),
            sign == 1 || sign == -1,
            terms.len() <= max_terms,
            lists.len() == terms.len(),
            tried(*estimate, seed@, max_base, coef_bits, lists),
            peeled(seed@, lists, coef_bits as nat) == (Peeled {
                terms: term_values(terms@),
                sign,
                rest: residual@,
            }),
        decreases max_terms - terms.len(),
    {
        let ranked = rank_bases(&residual, max_base, TOP_EXACT, coef_bits, estimate);
        let (best_term, best_gap) = best_over(&residual, &ranked, coef_bits);
        proof {
            lemma_tried_push(*estimate, seed@, max_base, coef_bits, lists, ranked@);
            lemma_best_of(residual@, ranked@, coef_bits as nat);
            lemma_bit_len_monotonic(best_gap@, residual@);
            lists = lists.push(ranked@);
        }
        let ghost old_terms = terms@;
        let out_sign = sign;
        if best_term.ceil {
            sign = -sign;
        }
        residual = best_gap;
        terms.push((out_sign, best_term));
        assert(term_values(terms@) =~= term_values(old_terms).push((out_sign, best_term@)));
    }
    proof {
        lemma_equation_exact(*estimate, seed@, max_base, coef_bits, lists);
    }
    (terms, sign, residual)
}

/// Takes the terms off `seed` one after the other. Nothing comes of it where a term that should be
/// above what is left is below it, or the other way round.
pub open spec fn replayed(seed: nat, terms: Seq<(i8, TermValue)>) -> Option<(nat, i8)>
    decreases terms.len(),
{
    if terms.len() == 0 {
        Some((seed, 1i8))
    } else {
        match replayed(seed, terms.drop_last()) {
            Some((r, s)) => {
                let t = terms.last().1;
                let v = t.amount();
                if t.ceil {
                    if v < r {
                        None
                    } else {
                        Some(((v - r) as nat, flipped(s)))
                    }
                } else if v > r {
                    None
                } else {
                    Some(((r - v) as nat, s))
                }
            },
            None => None,
        }
    }
}

proof fn lemma_replay_fails(seed: nat, terms: Seq<(i8, TermValue)>, k: nat)
    requires
        k <= terms.len(),
        replayed(seed, terms.take(k as int)) is None,
    ensures
        replayed(seed, terms) is None,
    decreases terms.len() - k,
{
    if k < terms.len() {
        assert(terms.take((k + 1) as int).drop_last() =~= terms.take(k as int));
        lemma_replay_fails(seed, terms, k + 1);
    } else {
        assert(terms.take(k as int) =~= terms);
    }
}

/// Whether the terms, taken off `seed`, leave the rest with its sign.
pub fn verify_equation(
    seed: &Natural,
    terms: &Vec<(i8, Term)>,
    magic_sign: i8,
    magic: &Natural,
) -> (ok: bool)
    ensures
        ok == (replayed(seed@, term_values(terms@)) == Some((magic@, magic_sign))),
{
    let mut r = seed.copy();
    let mut s: i8 = 1;
    let ghost values = term_values(terms@);
    let mut i: usize = 0;
    while i < terms.len()
        invariant
            i <= terms.len(),
            values == term_values(terms@),
            s == 1 || s == -1,
            replayed(seed@, values.take(i as int)) == Some((r@, s)),
        decreases terms.len() - i,
    {
        let t = &terms[i].1;
        let power = Natural::from_u64(t.base).power(t.exp);
        let val = t.coef.times(&power);
        proof {
            assert(values.take(i + 1).drop_last() =~= values.take(i as int));
            assert(values.take(i + 1).last().1 == t@);
            lemma_power_nat(t.base as nat, t.exp as nat);
        }
        if t.ceil {
            if !r.at_most(&val) {
                proof {
                    lemma_replay_fails(seed@, values, (i + 1) as nat);
                }
                return false;
            }
            r = val.minus(&r);
            s = -s;
        } else {
            if !val.at_most(&r) {
                proof {
                    lemma_replay_fails(seed@, values, (i + 1) as nat);
                }
                return false;
            }
            r = r.minus(&val);
        }
        i = i + 1;
    }
    assert(values.take(i as int) =~= values);
    r.equals(magic) && s == magic_sign
}

proof fn lemma_power_nat(base: nat, e: nat)
    ensures
        pow(base as int, e) == raised(base, e),
    decreases e,
{
    reveal(pow);
    if e > 0 {
        lemma_power_nat(base, (e - 1) as nat);
        let p = pow(base as int, (e - 1) as nat);
        assert(base * p >= 0) by (nonlinear_arith)
            requires
                p >= 0,
        ;
    }
}

/// The terms, each with its sign, add up to this.
pub open spec fn terms_total(terms: Seq<(i8, TermValue)>) -> int
    decreases terms.len(),
{
    if terms.len() == 0 {
        0
    } else {
        terms_total(terms.drop_last()) + signed(terms.last().0, terms.last().1.amount())
    }
}

/// The number with the sign.
pub open spec fn signed(sign: i8, n: nat) -> int {
    if sign < 0 {
        -n
    } else {
        n as int
    }
}

/// The terms and the rest, each with its sign, add up to the seed; the signs are 1 and -1, the
/// bases within their limits.
pub open spec fn is_exact(
    seed: nat,
    terms: Seq<(i8, TermValue)>,
    sign: i8,
    rest: nat,
    max_base: u64,
) -> bool {
    &&& terms_total(terms) + signed(sign, rest) == seed
    &&& sign == 1 || sign == -1
    &&& forall|i: int| 0 <= i < terms.len() ==> (#[trigger] terms[i]).0 == 1 || terms[i].0 == -1
    &&& forall|i: int| 0 <= i < terms.len() ==> 2 <= (#[trigger] terms[i]).1.base <= max_base
}

proof fn lemma_tried_front<F: Fn(&Natural, u64, u32) -> Estimate>(
    estimate: F,
    seed: nat,
    max_base: u64,
    coef_bits: u32,
    lists: Seq<Seq<Ranked>>,
)
    requires
        lists.len() > 0,
        tried(estimate, seed, max_base, coef_bits, lists),
    ensures
        tried(estimate, seed, max_base, coef_bits, lists.drop_last()),
        peeled(seed, lists.drop_last(), coef_bits as nat).rest != 0,
        lists.last().len() > 0,
        forall|j: int|
            0 <= j < lists.last().len() ==> 2 <= (#[trigger] lists.last()[j]).base <= max_base,
{
    let front = lists.drop_last();
    assert forall|i: int| #![trigger front[i]] 0 <= i < front.len() implies {
        let rest = peeled(seed, front.take(i), coef_bits as nat).rest;
        &&& rest != 0
        &&& ranks(estimate, rest, max_base, TOP_EXACT as nat, coef_bits, front[i])
        &&& front[i].len() > 0
        &&& forall|j: int|
            0 <= j < front[i].len() ==> 2 <= (#[trigger] front[i][j]).base <= max_base
    } by {
        assert(front[i] == lists[i]);
        assert(front.take(i) =~= lists.take(i));
    }
    let last = lists[lists.len() - 1];
    assert(lists.take(lists.len() - 1) =~= front);
}

/// The invariant of peeling: what is left has a sign and is no more than the seed, the terms
/// replay, and the terms and the rest add up to the seed.
proof fn lemma_peeled<F: Fn(&Natural, u64, u32) -> Estimate>(
    estimate: F,
    seed: nat,
    max_base: u64,
    coef_bits: u32,
    lists: Seq<Seq<Ranked>>,
)
    requires
        tried(estimate, seed, max_base, coef_bits, lists),
        bit_len(seed) <= u32::MAX,
    ensures
        ({
            let p = peeled(seed, lists, coef_bits as nat);
            &&& p.rest <= seed
            &&& p.terms.len() == lists.len()
            &&& replayed(seed, p.terms) == Some((p.rest, p.sign))
            &&& is_exact(seed, p.terms, p.sign, p.rest, max_base)
        }),
    decreases lists.len(),
{
    if lists.len() > 0 {
        let front = lists.drop_last();
        let c = coef_bits as nat;
        lemma_tried_front(estimate, seed, max_base, coef_bits, lists);
        lemma_peeled(estimate, seed, max_base, coef_bits, front);
        let before = peeled(seed, front, c);
        let last = lists[lists.len() - 1];
        lemma_bit_len_monotonic(before.rest, seed);
        lemma_best_of(before.rest, last, c);
        let p = peeled(seed, lists, c);
        assert(p.terms.drop_last() =~= before.terms);
        let (t, gap) = best_of(before.rest, last, c);
        assert(p.terms.last() == (before.sign, t));
        let j = choose|j: int| 0 <= j < last.len() && (#[trigger] last[j]).base == t.base;
        assert(2 <= last[j].base <= max_base);
        assert forall|i: int| 0 <= i < p.terms.len() implies ((#[trigger] p.terms[i]).0 == 1
            || p.terms[i].0 == -1) && 2 <= p.terms[i].1.base <= max_base by {
            if i < before.terms.len() {
                assert(p.terms[i] == before.terms[i]);
            }
        }
    }
}

/// Every equation that peeling gives is exact: its terms and its rest, each with its sign, add up
/// to the seed, its bases keep to their limit, and replaying it confirms that.
pub proof fn lemma_equation_exact<F: Fn(&Natural, u64, u32) -> Estimate>(
    estimate: F,
    seed: nat,
    max_base: u64,
    coef_bits: u32,
    lists: Seq<Seq<Ranked>>,
)
    requires
        tried(estimate, seed, max_base, coef_bits, lists),
        bit_len(seed) <= u32::MAX,
    ensures
        ({
            let p = peeled(seed, lists, coef_bits as nat);
            &&& is_exact(seed, p.terms, p.sign, p.rest, max_base)
            &&& replayed(seed, p.terms) == Some((p.rest, p.sign))
        }),
{
    lemma_peeled(estimate, seed, max_base, coef_bits, lists);
}

proof fn lemma_best_of_bits(value: nat, bases: Seq<Ranked>, coef_bits: nat)
    requires
        bases.len() > 0,
        forall|j: int| 0 <= j < bases.len() ==> 2 <= (#[trigger] bases[j]).base <= 0x1_0000_0000,
        value >= 1,
        bit_len(value) <= u32::MAX,
    ensures
        ({
            let gap = best_of(value, bases, coef_bits).1;
            gap == 0 || bit_len(gap) + coef_bits <= bit_len(value) + 32
        }),
{
    assert(2 <= bases[bases.len() - 1].base <= 0x1_0000_0000);
    lemma_bits_removed(value, bases.last().base, coef_bits);
    lemma_best_of(value, bases, coef_bits);
    let gap = best_of(value, bases, coef_bits).1;
    lemma_bit_len_monotonic(gap, value);
    lemma_bit_len(gap);
    lemma_best_fit(value, bases.last().base, coef_bits);
    assert(bit_len(0) == 0);
}

/// Peeling with bases of at most 32 bits: each term takes off all but 32 of the bits that its
/// coefficient may hold, until nothing is left.
pub proof fn lemma_rest_bits<F: Fn(&Natural, u64, u32) -> Estimate>(
    estimate: F,
    seed: nat,
    max_base: u64,
    coef_bits: u32,
    lists: Seq<Seq<Ranked>>,
)
    requires
        tried(estimate, seed, max_base, coef_bits, lists),
        bit_len(seed) <= u32::MAX,
        max_base <= 0x1_0000_0000,
    ensures
        ({
            let rest = peeled(seed, lists, coef_bits as nat).rest;
            rest == 0 || bit_len(rest) + lists.len() * (coef_bits - 32) <= bit_len(seed)
        }),
    decreases lists.len(),
{
    let c = coef_bits as nat;
    if lists.len() > 0 {
        let front = lists.drop_last();
        lemma_tried_front(estimate, seed, max_base, coef_bits, lists);
        lemma_rest_bits(estimate, seed, max_base, coef_bits, front);
        lemma_peeled(estimate, seed, max_base, coef_bits, front);
        let before = peeled(seed, front, c);
        let last = lists[lists.len() - 1];
        lemma_bit_len_monotonic(before.rest, seed);
        lemma_best_of_bits(before.rest, last, c);
        let n = lists.len() as int;
        assert(n * (c - 32) == (n - 1) * (c - 32) + (c - 32)) by (nonlinear_arith);
    }
}

/// The notation of a term: `coef`, a middle dot, `base^exp`; without the coefficient where it is
/// one.
pub open spec fn term_text(t: TermValue) -> Seq<char> {
    let power = decimal(t.base as nat) + seq!['^'] + decimal(t.exp as nat);
    if t.coef == 1 {
        power
    } else {
        decimal(t.coef) + seq!['\u{b7}'] + power
    }
}

/// The notation of the terms, with the signs between them.
pub open spec fn terms_text(terms: Seq<(i8, TermValue)>) -> Seq<char>
    decreases terms.len(),
{
    if terms.len() == 0 {
        Seq::empty()
    } else {
        let before = terms_text(terms.drop_last());
        let sign = if terms.last().0 > 0 {
            if terms.len() > 1 {
                " + "@
            } else {
                Seq::empty()
            }
        } else {
            " - "@
        };
        before + sign + term_text(terms.last().1)
    }
}

/// The notation of the equation; a rest of zero is left out.
pub open spec fn equation_text(terms: Seq<(i8, TermValue)>, sign: i8, magic: nat) -> Seq<char> {
    let rest = if magic == 0 {
        Seq::empty()
    } else {
        (if sign < 0 {
            " - "@
        } else {
            " + "@
        }) + decimal(magic)
    };
    "seed = "@ + terms_text(terms) + rest
}

/// The notation of a term.
pub fn fmt_term(t: &Term) -> (out: String)
    ensures
        out@ == term_text(t@),
{
    let mut out = String::new();
    let one = Natural::from_u64(1);
    if !t.coef.equals(&one) {
        out.append(t.coef.to_decimal().as_str());
        out.push('\u{b7}');
        assert(out@ =~= decimal(t.coef@) + seq!['\u{b7}']);
    }
    let ghost front = out@;
    push_decimal(&mut out, t.base as u128);
    out.push('^');
    push_decimal(&mut out, t.exp as u128);
    assert(out@ =~= front + (decimal(t.base as nat) + seq!['^'] + decimal(t.exp as nat)));
    out
}

/// The notation of the equation.
pub fn fmt_equation(terms: &Vec<(i8, Term)>, magic_sign: i8, magic: &Natural) -> (out: String)
    ensures
        out@ == equation_text(term_values(terms@), magic_sign, magic@),
{
    let mut out = String::from_str("seed = ");
    let ghost values = term_values(terms@);
    let mut i: usize = 0;
    while i < terms.len()
        invariant
            i <= terms.len(),
            values == term_values(terms@),
            out@ =~= "seed = "@ + terms_text(values.take(i as int)),
        decreases terms.len() - i,
    {
        let ghost before = out@;
        proof {
            assert(values.take(i + 1).drop_last() =~= values.take(i as int));
            assert(values.take(i + 1).last() == values[i as int]);
        }
        if terms[i].0 > 0 {
            if i > 0 {
                out.append(" + ");
            }
        } else {
            out.append(" - ");
        }
        let text = fmt_term(&terms[i].1);
        out.append(text.as_str());
        i = i + 1;
    }
    assert(values.take(i as int) =~= values);
    if !magic.is_zero() {
        if magic_sign < 0 {
            out.append(" - ");
        } else {
            out.append(" + ");
        }
        out.append(magic.to_decimal().as_str());
    }
    assert(out@ =~= equation_text(values, magic_sign, magic@));
    out
}

/// An equation: its notation, the rest with its sign, the number of terms, and whether replaying
/// it gave the seed.
#[derive(Debug)]
pub struct SolverResult {
    pub equation: String,
    pub magic: Natural,
    pub magic_sign: i8,
    pub terms: usize,
    pub ok: bool,
}

/// How many bits a coefficient may hold, so that `max_terms` terms cover `bits` bits.
pub open spec fn coefficient_budget(bits: nat, max_terms: nat) -> nat {
    let target = (bits + max_terms - 1) as nat / max_terms + 32;
    let least = if target < COEF_BITS {
        COEF_BITS as nat
    } else {
        target
    };
    if least > u32::MAX {
        u32::MAX as nat
    } else {
        least
    }
}

/// The equation says what peeling gave.
pub open spec fn states(r: SolverResult, p: Peeled) -> bool {
    &&& r.equation@ == equation_text(p.terms, p.sign, p.rest)
    &&& r.magic@ == p.rest
    &&& r.magic_sign == p.sign
    &&& r.terms == p.terms.len()
}

/// The limit for the bases: at least two.
pub open spec fn base_limit(max_base: u64) -> u64 {
    if max_base < 2 {
        2
    } else {
        max_base
    }
}

/// Finds an equation for `seed` with at most `max_terms` terms, whose bases are at most
/// `max_base`. `estimate` says, for a number, a base and the bits of a coefficient, how well a
/// term with that base would do; it decides which bases are tried, not whether the equation is
/// right.
pub fn solve<F: Fn(&Natural, u64, u32) -> Estimate>(
    seed: &Natural,
    max_terms: usize,
    max_base: u64,
    estimate: &F,
) -> (r: SolverResult)
    requires
        max_terms > 0,
        max_base < 2_000_000_000_000_000_000,
        bit_len(seed@) <= u32::MAX,
        forall|v: &Natural, b: u64, c: u32| call_requires(*estimate, (v, b, c)),
    ensures
        exists|lists: Seq<Seq<Ranked>>|
            {
                &&& #[trigger] tried(
                    *estimate,
                    seed@,
                    base_limit(max_base),
                    coefficient_budget(bit_len(seed@), max_terms as nat) as u32,
                    lists,
                )
                &&& states(
                    r,
                    peeled(seed@, lists, coefficient_budget(bit_len(seed@), max_terms as nat)),
                )
            },
        r.ok,
        read_equation(r.equation@) == Some(seed@ as int),
        r.terms <= max_terms,
        r.terms < max_terms ==> r.magic@ == 0,
        max_base <= 0x1_0000_0000 ==> bit_len(r.magic@) <= 32,
        max_base <= 0x1_0000_0000 && max_terms > 1 ==> r.magic@ == 0,
{
    let limit: u64 = if max_base < 2 {
        2
    } else {
        max_base
    };
    let bits = seed.bits();
    proof {
        assert(bits as u128 + max_terms as u128 - 1 == bits + max_terms - 1);
    }
    let target = (bits as u128 + max_terms as u128 - 1) / max_terms as u128 + 32;
    let least = if target < COEF_BITS as u128 {
        COEF_BITS as u128
    } else {
        target
    };
    let coef_bits: u32 = if least > u32::MAX as u128 {
        u32::MAX
    } else {
        least as u32
    };
    let (terms, magic_sign, magic) = greedy(seed, max_terms, limit, coef_bits, estimate);
    let ghost lists = choose|lists: Seq<Seq<Ranked>>|
        {
            &&& #[trigger] tried(*estimate, seed@, limit, coef_bits, lists)
            &&& peeled(seed@, lists, coef_bits as nat) == (Peeled {
                terms: term_values(terms@),
                sign: magic_sign,
                rest: magic@,
            })
            &&& lists.len() == terms.len()
        };
    proof {
        assert(coef_bits as nat == coefficient_budget(bit_len(seed@), max_terms as nat));
        lemma_read_equation(term_values(terms@), magic_sign, magic@);
        if limit <= 0x1_0000_0000 {
            lemma_rest_bits(*estimate, seed@, limit, coef_bits, lists);
            lemma_budget(bits as nat, max_terms as nat, bit_len(magic@), lists.len());
            lemma_bit_len(magic@);
        }
    }
    let ok = verify_equation(seed, &terms, magic_sign, &magic);
    let equation = fmt_equation(&terms, magic_sign, &magic);
    let count = terms.len();
    let r = SolverResult { equation, magic, magic_sign, terms: count, ok };
    proof {
        let budget = coefficient_budget(bit_len(seed@), max_terms as nat);
        assert(tried(*estimate, seed@, base_limit(max_base), budget as u32, lists));
        assert(states(r, peeled(seed@, lists, budget)));
    }
    r
}

/// A budget for `m` terms covers all bits in `m` terms, but for what a coefficient cannot hold.
proof fn lemma_budget(bits: nat, m: nat, left: nat, n: nat)
    requires
        m > 0,
        bits <= u32::MAX,
        left == 0 || left + n * (coefficient_budget(bits, m) - 32) <= bits,
    ensures
        n == m ==> left <= 32,
        n == m && m > 1 ==> left == 0,
{
    let share = (bits + m - 1) as nat / m;
    let c = coefficient_budget(bits, m);
    vstd::arithmetic::div_mod::lemma_fundamental_div_mod((bits + m - 1) as int, m as int);
    assert(m * share >= bits);
    if n == m && left != 0 {
        if c >= share + 32 {
            assert(m * (c - 32) >= m * share) by (nonlinear_arith)
                requires
                    c - 32 >= share,
            ;
        } else {
            assert(m * (c - 32) >= c - 32) by (nonlinear_arith)
                requires
                    m >= 1,
                    c >= 32,
            ;
            if m > 1 {
                assert(share <= bits / 2 + 1) by (nonlinear_arith)
                    requires
                        m >= 2,
                        m * share <= bits + m - 1,
                ;
            }
        }
    }
}

/// Over several bases the fit that removes the most bits is taken: the best fit with none of them
/// removes more.
pub proof fn lemma_best_of_beats(value: nat, bases: Seq<Ranked>, coef_bits: nat, j: int)
    requires
        0 <= j < bases.len(),
    ensures
        bits_removed(value, best_of(value, bases, coef_bits).1) >= bits_removed(
            value,
            best_fit(value, bases[j].base, coef_bits).1,
        ),
        exists|i: int|
            0 <= i < bases.len() && best_of(value, bases, coef_bits) == best_fit(
                value,
                (#[trigger] bases[i]).base,
                coef_bits,
            ),
    decreases bases.len(),
{
    let front = bases.drop_last();
    let n = bases.len() - 1;
    if bases.len() > 1 {
        lemma_best_of_beats(
            value,
            front,
            coef_bits,
            if j < front.len() {
                j
            } else {
                0
            },
        );
        if j < front.len() {
            assert(front[j] == bases[j]);
        }
        let i = choose|i: int|
            0 <= i < front.len() && best_of(value, front, coef_bits) == best_fit(
                value,
                (#[trigger] front[i]).base,
                coef_bits,
            );
        assert(front[i] == bases[i]);
    }
    assert(bases.last() == bases[n]);
}

/// The bases that are tried, within the limit: all up to 1024; the powers of two from 2048 on, and a
/// half, a quarter, five quarters and three halves of them; two thousand, three thousand, and ten times
/// as much again and again.
pub proof fn lemma_bases_tried(max_base: nat, c: nat, k: nat)
    ensures
        2 <= c <= 1024 && c <= max_base ==> is_candidate(c, max_base),
        c < 2 || c > max_base ==> !is_candidate(c, max_base),
        pow2(11 + k) <= max_base ==> is_candidate(pow2(11 + k), max_base) && is_candidate(
            pow2(10 + k),
            max_base,
        ) && is_candidate(pow2(9 + k), max_base),
        pow2(11 + k) + pow2(9 + k) <= max_base ==> is_candidate(
            pow2(11 + k) + pow2(9 + k),
            max_base,
        ),
        pow2(11 + k) + pow2(10 + k) <= max_base ==> is_candidate(
            pow2(11 + k) + pow2(10 + k),
            max_base,
        ),
        2000 * raised(10, k) <= max_base ==> is_candidate(2000 * raised(10, k), max_base),
        3000 * raised(10, k) <= max_base ==> is_candidate(3000 * raised(10, k), max_base),
{
    let p = power_mark(k);
    lemma_pow2_adds(11, k);
    lemma_pow2_adds(10, k);
    lemma_pow2_adds(9, k);
    lemma2_to64();
    lemma_pow2_pos(k);
    assert(p == pow2(11 + k));
    assert(p / 2 == pow2(10 + k));
    assert(p / 4 == pow2(9 + k));
    lemma_raised(10, k);
    let r = round_mark(k);
    assert(r == 2000 * raised(10, k));
    assert(r + r / 2 == 3000 * raised(10, k));
    if p <= max_base {
        assert(near_power(p, p) && near_power(p / 2, p) && near_power(p / 4, p));
        assert(near_power(p + p / 4, p) && near_power(p + p / 2, p));
    }
    if r <= max_base {
        assert(near_round(r, r) && near_round(r + r / 2, r));
    }
}

/// The sign that the number has once the terms are taken off.
pub open spec fn sign_after(seed: nat, terms: Seq<(i8, TermValue)>) -> i8 {
    match replayed(seed, terms) {
        Some((rest, sign)) => sign,
        None => 0,
    }
}

/// Taking terms off a number is exact: the terms, each with the sign that the number had when it was
/// taken off, and what is left with its sign add up to the number.
pub proof fn lemma_replay_adds_up(seed: nat, terms: Seq<(i8, TermValue)>, rest: nat, sign: i8)
    requires
        replayed(seed, terms) == Some((rest, sign)),
        forall|i: int|
            0 <= i < terms.len() ==> (#[trigger] terms[i]).0 == sign_after(seed, terms.take(i)),
    ensures
        terms_total(terms) + signed(sign, rest) == seed,
        sign == 1 || sign == -1,
    decreases terms.len(),
{
    if terms.len() > 0 {
        let front = terms.drop_last();
        let n = terms.len() - 1;
        assert(terms.take(n) =~= front);
        assert(terms[n] == terms.last());
        assert forall|i: int| 0 <= i < front.len() implies (#[trigger] front[i]).0 == sign_after(
            seed,
            front.take(i),
        ) by {
            assert(front.take(i) =~= terms.take(i));
            assert(front[i] == terms[i]);
        }
        let (r, s) = replayed(seed, front)->0;
        lemma_replay_adds_up(seed, front, r, s);
    }
}

proof fn lemma_small_base(bases: Seq<u64>, max_base: u64, c: u64) -> (i: int)
    requires
        are_candidates(bases, max_base),
        2 <= c <= 1024,
        c <= max_base,
    ensures
        c - 2 <= i < bases.len(),
        bases[i] == c,
    decreases c,
{
    assert(is_candidate(c as nat, max_base as nat));
    assert(bases.contains(c));
    let i = choose|i: int| 0 <= i < bases.len() && bases[i] == c;
    if c > 2 {
        let j = lemma_small_base(bases, max_base, (c - 1) as u64);
        if i <= j {
            if i < j {
                assert(bases[i] < bases[j]);
            }
        }
    }
    i
}

/// For each term the ten best bases are fitted, where there are as many.
pub proof fn lemma_ten_fitted<F: Fn(&Natural, u64, u32) -> Estimate>(
    estimate: F,
    seed: nat,
    max_base: u64,
    coef_bits: u32,
    lists: Seq<Seq<Ranked>>,
    i: int,
)
    requires
        tried(estimate, seed, max_base, coef_bits, lists),
        0 <= i < lists.len(),
        max_base >= 11,
    ensures
        lists[i].len() == 10,
{
    reveal(ranks);
    let value = peeled(seed, lists.take(i), coef_bits as nat).rest;
    let ranked = lists[i];
    assert(ranks(estimate, value, max_base, 10, coef_bits, ranked));
    let (v, bases, estimates) = choose|v: &Natural, bases: Seq<u64>, estimates: Seq<Estimate>|
        v@ == value && are_candidates(bases, max_base) && #[trigger] estimated(
            estimate,
            v,
            coef_bits,
            bases,
            estimates,
        ) && ranked == best_entries(paired(bases, estimates), 10);
    let j = lemma_small_base(bases, max_base, 11);
    lemma_best_entries(paired(bases, estimates), 10);
}

} // verus!
