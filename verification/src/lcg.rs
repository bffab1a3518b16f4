//! Seeds of a linear congruential generator whose output is a given list of offsets.

use vstd::arithmetic::div_mod::{
    lemma_fundamental_div_mod, lemma_fundamental_div_mod_converse, lemma_mod_multiples_basic,
};
use vstd::prelude::*;
use vstd::wrapping::u64_specs::{wrapping_add, wrapping_mul, wrapping_sub};

verus! {

/// The generator's multiplier.
pub const A: u64 = 6364136223846793005;

/// The generator's increment.
pub const C: u64 = 1442695040888963407;

/// The generator's modulus.
pub open spec fn modulus() -> int {
    0x1_0000_0000_0000_0000
}

/// One Newton step towards the inverse of `a`.
pub open spec fn newton(a: u64, x: u64) -> u64 {
    wrapping_mul(x, wrapping_sub(2, wrapping_mul(a, x)))
}

/// `k` Newton steps from one on.
pub open spec fn newton_steps(a: u64, k: nat) -> u64
    decreases k,
{
    if k == 0 {
        1
    } else {
        newton(a, newton_steps(a, (k - 1) as nat))
    }
}

proof fn lemma_newton(a: u64, x: u64, p: int, e: int)
    requires
        p > 0,
        p * p * e == modulus(),
        (a * x - 1) % p == 0,
    ensures
        (a * newton(a, x) - 1) % (p * p) == 0,
{
    let m = modulus();
    let y = a * x;
    let t = y % m;
    let q3 = y / m;
    let u: int = if 2 - t < 0 {
        2 - t + m
    } else {
        2 - t
    };
    let q2: int = if 2 - t < 0 {
        1
    } else {
        0
    };
    let x2 = (x * u) % m;
    let q1 = (x * u) / m;
    let c = (y - 1) / p;
    lemma_fundamental_div_mod(y, m);
    lemma_fundamental_div_mod(x * u, m);
    lemma_fundamental_div_mod(y - 1, p);
    assert(newton(a, x) == x2) by {
        assert(a as nat * x as nat == y);
        assert(wrapping_mul(a, x) == t);
        assert(wrapping_sub(2, wrapping_mul(a, x)) == u);
    }
    assert(x * u >= 0) by (nonlinear_arith)
        requires
            u >= 0,
    ;
    let z = y * (q3 + q2) - a * q1;
    let w = e * z - c * c;
    assert(a * x2 - 1 == w * (p * p)) by {
        assert(x2 == x * u - m * q1);
        assert(a * x2 == y * u - m * (a * q1)) by (nonlinear_arith)
            requires
                x2 == x * u - m * q1,
                y == a * x,
        ;
        assert(u == 2 - y + m * (q3 + q2)) by (nonlinear_arith)
            requires
                u == 2 - t + m * q2,
                y == m * q3 + t,
        ;
        assert(y * u == 2 * y - y * y + m * (y * (q3 + q2))) by (nonlinear_arith)
            requires
                u == 2 - y + m * (q3 + q2),
        ;
        assert(y * y == 1 + 2 * (p * c) + (p * p) * (c * c)) by (nonlinear_arith)
            requires
                y == 1 + p * c,
        ;
        assert(m * (y * (q3 + q2)) - m * (a * q1) == m * z) by (nonlinear_arith)
            requires
                z == y * (q3 + q2) - a * q1,
        ;
        assert(m * z - (p * p) * (c * c) == w * (p * p)) by (nonlinear_arith)
            requires
                w == e * z - c * c,
                p * p * e == m,
        ;
    }
    assert(p * p > 0) by (nonlinear_arith)
        requires
            p > 0,
    ;
    lemma_mod_multiples_basic(w, p * p);
}

proof fn lemma_newton_steps(a: u64)
    requires
        a % 2 == 1,
    ensures
        (a * newton_steps(a, 6)) % modulus() == 1,
{
    reveal_with_fuel(newton_steps, 7);
    lemma_newton(a, newton_steps(a, 0), 2, 0x4000_0000_0000_0000);
    lemma_newton(a, newton_steps(a, 1), 4, 0x1000_0000_0000_0000);
    lemma_newton(a, newton_steps(a, 2), 16, 0x100_0000_0000_0000);
    lemma_newton(a, newton_steps(a, 3), 256, 0x1_0000_0000_0000);
    lemma_newton(a, newton_steps(a, 4), 0x1_0000, 0x1_0000_0000);
    lemma_newton(a, newton_steps(a, 5), 0x1_0000_0000, 1);
    let y = a * newton_steps(a, 6);
    lemma_fundamental_div_mod(y - 1, modulus());
    lemma_fundamental_div_mod_converse(y, modulus(), (y - 1) / modulus(), 1);
}

/// The inverse of an odd number modulo `2^64`, by six Newton steps.
pub fn modinv_odd_u64(a: u64) -> (r: u64)
    ensures
        r == newton_steps(a, 6),
        a % 2 == 1 ==> (a * r) % modulus() == 1,
{
    let mut x: u64 = 1;
    let mut i: usize = 0;
    while i < 6
        invariant
            i <= 6,
            x == newton_steps(a, i as nat),
        decreases 6 - i,
    {
        x = x.wrapping_mul(2u64.wrapping_sub(a.wrapping_mul(x)));
        i = i + 1;
    }
    proof {
        if a % 2 == 1 {
            lemma_newton_steps(a);
        }
    }
    x
}

/// The generator's next state.
pub open spec fn next_state(state: u64) -> u64 {
    wrapping_add(wrapping_mul(A, state), C)
}

/// The generator's state after `n` steps.
pub open spec fn state_after(seed: u64, n: nat) -> u64
    decreases n,
{
    if n == 0 {
        seed
    } else {
        next_state(state_after(seed, (n - 1) as nat))
    }
}

/// The distance between two numbers.
pub open spec fn gap(a: i64, b: i64) -> int {
    if a < b {
        b - a
    } else {
        a - b
    }
}

/// The search for a seed: the range of the offsets, the first state's remainder, the inverse of the
/// multiplier, and how many candidates there are.
#[derive(Clone, Copy, Debug, PartialEq, Eq)]
pub struct Search {
    pub offset_low: i64,
    pub offset_high: i64,
    pub range: u64,
    pub target0: u64,
    pub a_inv: u64,
    pub num_candidates: u64,
}

/// Why there is nothing to search.
#[derive(Clone, Copy, Debug, PartialEq, Eq)]
pub enum SearchError {
    /// There are no two neighbours.
    TooFew,
    /// A distance, or the size of their range, is too large.
    TooWide,
}

/// The distances between neighbours.
pub open spec fn gaps(values: Seq<i64>) -> Seq<int> {
    Seq::new((values.len() - 1) as nat, |i: int| gap(values[i], values[i + 1]))
}

/// The offsets are the distances between neighbours.
pub open spec fn are_gaps(values: Seq<i64>, diffs: Seq<i64>) -> bool {
    &&& diffs.len() == gaps(values).len()
    &&& forall|i: int| 0 <= i < diffs.len() ==> (#[trigger] diffs[i]) == gaps(values)[i]
}

/// A distance does not fit, or the distances hold both zero and the largest number.
pub open spec fn gaps_too_wide(values: Seq<i64>) -> bool {
    let g = gaps(values);
    (exists|i: int| 0 <= i < g.len() && #[trigger] g[i] > i64::MAX) || (g.contains(0) && g.contains(
        i64::MAX as int,
    ))
}

impl Search {
    pub open spec fn wf(&self) -> bool {
        &&& 0 <= self.offset_low <= self.offset_high
        &&& self.range == self.offset_high - self.offset_low + 1
        &&& self.range <= i64::MAX
        &&& (A * self.a_inv) % modulus() == 1
        &&& self.target0 < self.range
        &&& self.num_candidates == (if self.range == 1 {
            u64::MAX as int
        } else {
            u64::MAX as int / self.range as int + 1
        })
    }

    /// The search is for these offsets.
    pub open spec fn is_for(&self, diffs: Seq<i64>) -> bool {
        &&& self.wf()
        &&& diffs.len() > 0
        &&& diffs.contains(self.offset_low)
        &&& diffs.contains(self.offset_high)
        &&& forall|i: int|
            0 <= i < diffs.len() ==> self.offset_low <= (#[trigger] diffs[i]) <= self.offset_high
        &&& self.target0 == diffs[0] - self.offset_low
    }

    /// The offset that a state stands for.
    pub open spec fn offset(&self, state: u64) -> int {
        self.offset_low + (state % self.range)
    }

    /// The generator gives the offsets when it starts with `seed`.
    pub open spec fn matches(&self, diffs: Seq<i64>, seed: u64) -> bool {
        forall|i: int|
            0 <= i < diffs.len() ==> (#[trigger] diffs[i]) == self.offset(
                state_after(seed, (i + 1) as nat),
            )
    }

    /// The seed whose first state is `target0 + k * range`.
    pub open spec fn candidate(&self, k: u64) -> u64 {
        wrapping_mul(
            self.a_inv,
            wrapping_sub(wrapping_add(self.target0, wrapping_mul(k, self.range)), C),
        )
    }

    /// The value after `n` offsets have been added to `first`.
    pub open spec fn walk(&self, first: i64, seed: u64, n: nat) -> int
        decreases n,
    {
        if n == 0 {
            first as int
        } else {
            self.walk(first, seed, (n - 1) as nat) + self.offset(state_after(seed, n))
        }
    }

    /// The seed of candidate `k`.
    pub fn candidate_seed(&self, k: u64) -> (seed: u64)
        ensures
            seed == self.candidate(k),
    {
        let state1 = self.target0.wrapping_add(k.wrapping_mul(self.range));
        self.a_inv.wrapping_mul(state1.wrapping_sub(C))
    }

    /// Whether the generator gives the offsets when it starts with `seed`.
    pub fn matches_diffs(&self, diffs: &[i64], seed: u64) -> (r: bool)
        requires
            self.wf(),
        ensures
            r == self.matches(diffs@, seed),
            r && diffs@.len() > 0 ==> diffs@.last() == self.offset_low + state_after(
                seed,
                diffs@.len(),
            ) as int % (self.offset_high - self.offset_low + 1),
    {
        let mut state: u64 = seed;
        let mut i: usize = 0;
        while i < diffs.len()
            invariant
                i <= diffs.len(),
                self.wf(),
                state == state_after(seed, i as nat),
                forall|j: int|
                    0 <= j < i ==> (#[trigger] diffs@[j]) == self.offset(
                        state_after(seed, (j + 1) as nat),
                    ),
            decreases diffs.len() - i,
        {
            state = A.wrapping_mul(state).wrapping_add(C);
            assert(state == state_after(seed, (i + 1) as nat));
            let val = self.offset_low + (state % self.range) as i64;
            if val != diffs[i] {
                assert(diffs@[i as int] != self.offset(state_after(seed, (i + 1) as nat)));
                return false;
            }
            i = i + 1;
        }
        true
    }

    /// The values that `count` offsets lead to from `first` on. Nothing where one does not fit.
    pub fn reconstruct(&self, first: i64, count: usize, seed: u64) -> (r: Option<Vec<i64>>)
        requires
            self.wf(),
            count < usize::MAX,
        ensures
            match r {
                Some(v) => v.len() == count + 1 && forall|i: int|
                    0 <= i <= count ==> (#[trigger] v@[i]) == self.walk(first, seed, i as nat),
                None => exists|i: nat|
                    i <= count && #[trigger] self.walk(first, seed, i) > i64::MAX,
            },
    {
        let mut v: Vec<i64> = Vec::new();
        v.push(first);
        let mut last: i64 = first;
        let mut state: u64 = seed;
        let mut i: usize = 0;
        while i < count
            invariant
                i <= count,
                self.wf(),
                state == state_after(seed, i as nat),
                last == self.walk(first, seed, i as nat),
                v.len() == i + 1,
                forall|j: int| 0 <= j <= i ==> (#[trigger] v@[j]) == self.walk(first, seed, j as nat),
            decreases count - i,
        {
            state = A.wrapping_mul(state).wrapping_add(C);
            assert(state == state_after(seed, (i + 1) as nat));
            let step = self.offset_low + (state % self.range) as i64;
            assert(self.walk(first, seed, (i + 1) as nat) == last + step);
            match last.checked_add(step) {
                Some(next) => {
                    last = next;
                    v.push(next);
                },
                None => {
                    return None;
                },
            }
            i = i + 1;
        }
        Some(v)
    }
}

/// The offsets of the values, and the search for a seed that gives them.
pub fn plan_search(values: &[i64]) -> (r: Result<(Vec<i64>, Search), SearchError>)
    ensures
        match r {
            Ok((diffs, search)) => values.len() >= 2 && !gaps_too_wide(values@) && are_gaps(
                values@,
                diffs@,
            ) && search.is_for(diffs@),
            Err(SearchError::TooFew) => values.len() < 2,
            Err(SearchError::TooWide) => values.len() >= 2 && gaps_too_wide(values@),
        },
{
    if values.len() < 2 {
        return Err(SearchError::TooFew);
    }
    let ghost g = gaps(values@);
    let mut diffs: Vec<i64> = Vec::new();
    let mut low: i64 = i64::MAX;
    let mut high: i64 = 0;
    let mut i: usize = 1;
    while i < values.len()
        invariant
            1 <= i <= values.len(),
            g == gaps(values@),
            diffs.len() == i - 1,
            forall|j: int| 0 <= j < diffs.len() ==> (#[trigger] diffs@[j]) == g[j],
            forall|j: int| 0 <= j < diffs.len() ==> 0 <= low <= (#[trigger] diffs@[j]) <= high,
            diffs.len() > 0 ==> diffs@.contains(low) && diffs@.contains(high),
            diffs.len() == 0 ==> low == i64::MAX && high == 0,
        decreases values.len() - i,
    {
        let a = values[i - 1];
        let b = values[i];
        let wide: i128 = if a < b {
            b as i128 - a as i128
        } else {
            a as i128 - b as i128
        };
        assert(g[i - 1] == wide);
        if wide > i64::MAX as i128 {
            assert(gaps_too_wide(values@));
            return Err(SearchError::TooWide);
        }
        let d = wide as i64;
        let ghost before = diffs@;
        let ghost was = (low, high);
        diffs.push(d);
        if d < low {
            low = d;
        }
        if d > high {
            high = d;
        }
        proof {
            assert(diffs@[i - 1] == d);
            if before.len() > 0 {
                let x = choose|x: int| 0 <= x < before.len() && before[x] == was.0;
                let y = choose|y: int| 0 <= y < before.len() && before[y] == was.1;
                assert(diffs@[x] == was.0 && diffs@[y] == was.1);
            }
            assert forall|j: int| 0 <= j < diffs.len() implies 0 <= low <= (#[trigger] diffs@[j])
                <= high by {
                if j < i - 1 {
                    assert(diffs@[j] == before[j]);
                }
            }
        }
        i = i + 1;
    }
    assert(low <= diffs@[0] <= high);
    if low == 0 && high == i64::MAX {
        proof {
            let x = choose|x: int| 0 <= x < diffs@.len() && diffs@[x] == low;
            let y = choose|y: int| 0 <= y < diffs@.len() && diffs@[y] == high;
            assert(g[x] == 0 && g[y] == i64::MAX);
            assert(gaps_too_wide(values@));
        }
        return Err(SearchError::TooWide);
    }
    proof {
        assert(!gaps_too_wide(values@)) by {
            assert forall|j: int| 0 <= j < g.len() implies #[trigger] g[j] <= i64::MAX by {
                assert(diffs@[j] == g[j]);
            }
            if g.contains(0) && g.contains(i64::MAX as int) {
                let x = choose|x: int| 0 <= x < g.len() && g[x] == 0;
                let y = choose|y: int| 0 <= y < g.len() && g[y] == i64::MAX;
                assert(diffs@[x] == 0 && diffs@[y] == i64::MAX);
            }
        }
    }
    let range = (high - low + 1) as u64;
    let target0 = (diffs[0] - low) as u64;
    let a_inv = modinv_odd_u64(A);
    let num_candidates = (u64::MAX / range).saturating_add(1);
    let search = Search {
        offset_low: low,
        offset_high: high,
        range,
        target0,
        a_inv,
        num_candidates,
    };
    proof {
        assert(A % 2 == 1);
        if range > 1 {
            assert(u64::MAX / range <= u64::MAX / 2) by (nonlinear_arith)
                requires
                    range >= 2,
            ;
        } else {
            assert(u64::MAX / 1 == u64::MAX);
        }
    }
    Ok((diffs, search))
}

proof fn lemma_undo_step(a_inv: u64, seed: u64)
    requires
        (A * a_inv) % modulus() == 1,
    ensures
        wrapping_mul(a_inv, wrapping_sub(next_state(seed), C)) == seed,
{
    let m = modulus();
    let y = A * seed;
    let t = y % m;
    let q = y / m;
    lemma_fundamental_div_mod(y, m);
    lemma_fundamental_div_mod(A * a_inv, m);
    let r = (A * a_inv) / m;
    assert(wrapping_mul(A, seed) == t) by {
        assert(A as nat * seed as nat == y);
    }
    assert(wrapping_sub(next_state(seed), C) == t);
    let w = r * seed - a_inv * q;
    assert(a_inv * t == w * m + seed) by (nonlinear_arith)
        requires
            t == A * seed - m * q,
            A * a_inv == m * r + 1,
            w == r * seed - a_inv * q,
    ;
    lemma_fundamental_div_mod_converse(a_inv * t, m, w, seed as int);
    assert(a_inv as nat * (t as u64) as nat == a_inv * t);
}

/// No seed is missed: each one that gives the offsets is a candidate. With a single offset the one
/// whose first state is the largest number is left out.
pub proof fn lemma_candidates_complete(search: Search, diffs: Seq<i64>, seed: u64)
    requires
        search.is_for(diffs),
        search.matches(diffs, seed),
        search.range > 1 || next_state(seed) < u64::MAX,
    ensures
        exists|k: u64| k < search.num_candidates && #[trigger] search.candidate(k) == seed,
{
    let s = next_state(seed);
    reveal_with_fuel(state_after, 2);
    assert(diffs[0] == search.offset(state_after(seed, 1)));
    assert(s % search.range == search.target0);
    let k = (s / search.range) as u64;
    lemma_fundamental_div_mod(s as int, search.range as int);
    assert(search.range * k == k * search.range) by (nonlinear_arith);
    vstd::arithmetic::div_mod::lemma_div_is_ordered(
        s as int,
        u64::MAX as int,
        search.range as int,
    );
    assert(wrapping_mul(k, search.range) == k * search.range) by {
        vstd::arithmetic::div_mod::lemma_small_mod(
            (k * search.range) as nat,
            modulus() as nat,
        );
        assert(k as nat * search.range as nat == k * search.range);
    }
    lemma_undo_step(search.a_inv, seed);
    assert(search.candidate(k) == seed);
    if search.range == 1 {
        assert(s / 1 == s);
    }
}

/// The generator's states: each is 6364136223846793005 times the one before, and
/// 1442695040888963407 more, modulo `2^64`.
pub open spec fn are_states(states: Seq<u64>, seed: u64) -> bool {
    &&& states.len() > 0
    &&& states[0] == seed
    &&& forall|i: int|
        0 < i < states.len() ==> (#[trigger] states[i]) == (6364136223846793005 * states[i - 1]
            + 1442695040888963407) % 0x1_0000_0000_0000_0000
}

proof fn lemma_next_state(s: u64)
    ensures
        next_state(s) == (6364136223846793005 * s + 1442695040888963407) % 0x1_0000_0000_0000_0000,
{
    let y = 6364136223846793005 * s;
    assert(A as nat * s as nat == y);
    let m = 0x1_0000_0000_0000_0000int;
    vstd::arithmetic::div_mod::lemma_add_mod_noop(y, 1442695040888963407, m);
    assert(wrapping_mul(A, s) == y % m);
    let t = y % m + 1442695040888963407;
    assert(0 <= y % m < m);
    if t < m {
        vstd::arithmetic::div_mod::lemma_small_mod(t as nat, m as nat);
    } else {
        vstd::arithmetic::div_mod::lemma_fundamental_div_mod_converse(t, m, 1, t - m);
    }
    vstd::arithmetic::div_mod::lemma_small_mod(1442695040888963407nat, m as nat);
}

proof fn lemma_states(states: Seq<u64>, seed: u64, n: nat)
    requires
        are_states(states, seed),
        n < states.len(),
    ensures
        state_after(seed, n) == states[n as int],
    decreases n,
{
    if n > 0 {
        lemma_states(states, seed, (n - 1) as nat);
        lemma_next_state(states[n - 1]);
    }
}

/// A seed is accepted exactly where every one of the offsets, not the first alone, is what the
/// generator gives: the lowest offset and the remainder of the state that belongs to it.
pub proof fn lemma_match_is_every_offset(
    search: Search,
    diffs: Seq<i64>,
    seed: u64,
    states: Seq<u64>,
)
    requires
        search.wf(),
        are_states(states, seed),
        states.len() == diffs.len() + 1,
    ensures
        search.matches(diffs, seed) <==> forall|i: int|
            0 <= i < diffs.len() ==> (#[trigger] diffs[i]) == search.offset_low + states[i + 1] as int
                % (search.offset_high - search.offset_low + 1),
{
    assert forall|i: int| 0 <= i < diffs.len() implies #[trigger] search.offset(
        state_after(seed, (i + 1) as nat),
    ) == search.offset_low + states[i + 1] as int % (search.offset_high - search.offset_low + 1) by {
        lemma_states(states, seed, (i + 1) as nat);
    }
    if search.matches(diffs, seed) {
        assert forall|i: int| 0 <= i < diffs.len() implies (#[trigger] diffs[i])
            == search.offset_low + states[i + 1] as int % (search.offset_high - search.offset_low
            + 1) by {
            assert(diffs[i] == search.offset(state_after(seed, (i + 1) as nat)));
        }
    }
}

/// Walking from the first value with a seed that was accepted for the offsets of values that do not
/// decrease gives every one of the values back.
pub proof fn lemma_accepted_seed_reconstructs(
    values: Seq<i64>,
    diffs: Seq<i64>,
    search: Search,
    seed: u64,
    n: nat,
)
    requires
        are_gaps(values, diffs),
        search.is_for(diffs),
        search.matches(diffs, seed),
        forall|i: int, j: int| 0 <= i < j < values.len() ==> values[i] <= values[j],
        n < values.len(),
    ensures
        search.walk(values[0], seed, n) == values[n as int],
    decreases n,
{
    if n > 0 {
        lemma_accepted_seed_reconstructs(values, diffs, search, seed, (n - 1) as nat);
        let i = n - 1;
        assert(diffs[i] == search.offset(state_after(seed, (i + 1) as nat)));
        assert(diffs[i] == gaps(values)[i]);
        assert(values[i] <= values[i + 1]);
    }
}

/// Each step of a walk adds the lowest offset and the remainder of the next state.
pub proof fn lemma_walk_steps(search: Search, first: i64, seed: u64, states: Seq<u64>, n: nat)
    requires
        search.wf(),
        are_states(states, seed),
        n + 1 < states.len(),
    ensures
        search.walk(first, seed, 0) == first,
        search.walk(first, seed, n + 1) - search.walk(first, seed, n) == search.offset_low
            + states[n as int + 1] as int % (search.offset_high - search.offset_low + 1),
{
    lemma_states(states, seed, n + 1);
}

/// The offsets are the distances between neighbours: added to the smaller one of two, an offset
/// gives the larger. None is left out.
pub proof fn lemma_gaps_are_distances(values: Seq<i64>, diffs: Seq<i64>, i: int)
    requires
        are_gaps(values, diffs),
        values.len() >= 2,
        0 <= i < values.len() - 1,
    ensures
        diffs.len() + 1 == values.len(),
        diffs[i] >= 0,
        values[i] <= values[i + 1] ==> values[i] + diffs[i] == values[i + 1],
        values[i + 1] <= values[i] ==> values[i + 1] + diffs[i] == values[i],
{
    assert(diffs[i] == gaps(values)[i]);
}

/// Values are given up as too wide only where the distances of neighbours, or their range, leave 64
/// bits with a sign.
pub proof fn lemma_too_wide(values: Seq<i64>)
    requires
        gaps_too_wide(values),
        values.len() >= 2,
    ensures
        (exists|i: int|
            0 <= i < values.len() - 1 && (#[trigger] values[i] - values[i + 1] > i64::MAX
                || values[i + 1] - values[i] > i64::MAX)) || exists|i: int, j: int|
            0 <= i < values.len() - 1 && 0 <= j < values.len() - 1 && #[trigger] values[i]
                == values[i + 1] && (#[trigger] values[j] - values[j + 1] == i64::MAX || values[j
                + 1] - values[j] == i64::MAX),
{
    let g = gaps(values);
    if exists|i: int| 0 <= i < g.len() && #[trigger] g[i] > i64::MAX {
        let i = choose|i: int| 0 <= i < g.len() && #[trigger] g[i] > i64::MAX;
        assert(values[i] - values[i + 1] > i64::MAX || values[i + 1] - values[i] > i64::MAX);
    } else {
        let i = choose|i: int| 0 <= i < g.len() && g[i] == 0;
        let j = choose|j: int| 0 <= j < g.len() && g[j] == i64::MAX;
        assert(values[i] == values[i + 1]);
        assert(values[j] - values[j + 1] == i64::MAX || values[j + 1] - values[j] == i64::MAX);
    }
}

/// The candidates are seeds whose first offset is the first one that is looked for: the first state of
/// candidate `k` is `k` ranges above that offset's remainder, as long as that is below `2^64`.
pub proof fn lemma_candidate_starts_right(search: Search, diffs: Seq<i64>, k: u64)
    requires
        search.is_for(diffs),
        search.target0 + k * search.range < 0x1_0000_0000_0000_0000,
    ensures
        next_state(search.candidate(k)) == (diffs[0] - search.offset_low) + k * (search.offset_high
            - search.offset_low + 1),
        search.offset(next_state(search.candidate(k))) == diffs[0],
{
    let m = modulus();
    let s = search.target0 + k * search.range;
    let kr = k * search.range;
    assert(kr >= 0) by (nonlinear_arith)
        requires
            kr == k * search.range,
    ;
    assert(wrapping_mul(k, search.range) == kr) by {
        vstd::arithmetic::div_mod::lemma_small_mod(kr as nat, m as nat);
        assert(k as nat * search.range as nat == kr);
    }
    let d = wrapping_sub(s as u64, C);
    let seed = search.candidate(k);
    assert(seed == wrapping_mul(search.a_inv, d));
    let y = search.a_inv * d;
    assert(seed == y % m) by {
        assert(search.a_inv as nat * d as nat == y);
    }
    lemma_fundamental_div_mod(y, m);
    lemma_fundamental_div_mod(A * search.a_inv, m);
    let q = y / m;
    let r = (A * search.a_inv) / m;
    let w = r * d - A * q;
    assert(A * seed == w * m + d) by (nonlinear_arith)
        requires
            seed == y - m * q,
            y == search.a_inv * d,
            A * search.a_inv == m * r + 1,
            w == r * d - A * q,
    ;
    lemma_fundamental_div_mod_converse(A * seed, m, w, d as int);
    assert(wrapping_mul(A, seed) == d) by {
        assert(A as nat * seed as nat == A * seed);
    }
    assert(next_state(seed) == s);
    vstd::arithmetic::div_mod::lemma_fundamental_div_mod_converse(
        s,
        search.range as int,
        k as int,
        search.target0 as int,
    );
}

/// The batches of candidates that have been checked: where the next one starts, how many there
/// were, and the seed that was found.
#[derive(Clone, Copy, Debug, PartialEq, Eq)]
pub struct Batches {
    pub k_start: u64,
    pub number: u64,
    pub found: Option<u64>,
}

impl Batches {
    /// Each batch had this size.
    pub open spec fn of_size(&self, batch_size: u64) -> bool {
        self.k_start == (if self.number * batch_size > u64::MAX {
            u64::MAX as int
        } else {
            self.number * batch_size
        })
    }

    /// Before the first batch.
    pub fn begin() -> (b: Self)
        ensures
            b.k_start == 0,
            b.number == 0,
            b.found is None,
            forall|n: u64| #[trigger] b.of_size(n),
    {
        let b = Batches { k_start: 0, number: 0, found: None };
        assert forall|n: u64| #[trigger] b.of_size(n) by {
            assert(0 * n == 0);
        }
        b
    }

    /// Where the next batch starts: nothing once a seed was found or all candidates were checked.
    pub fn next_start(&self, num_candidates: u64) -> (r: Option<u64>)
        ensures
            r == (if self.found is Some || self.k_start >= num_candidates {
                None
            } else {
                Some(self.k_start)
            }),
    {
        if self.found.is_some() || self.k_start >= num_candidates {
            None
        } else {
            Some(self.k_start)
        }
    }

    /// Takes the outcome of a batch.
    pub fn take(&mut self, batch_size: u64, found: Option<u64>)
        requires
            old(self).of_size(batch_size),
            old(self).number < u64::MAX,
        ensures
            final(self).of_size(batch_size),
            final(self).number == old(self).number + 1,
            final(self).found == found,
    {
        proof {
            let n = self.number as int;
            let s = batch_size as int;
            assert((n + 1) * s == n * s + s) by (nonlinear_arith);
        }
        self.k_start = self.k_start.saturating_add(batch_size);
        self.number = self.number + 1;
        self.found = found;
    }

    /// How many candidates have been checked.
    pub fn checked(&self, num_candidates: u64) -> (r: u64)
        ensures
            r == (if self.k_start < num_candidates {
                self.k_start
            } else {
                num_candidates
            }),
    {
        if self.k_start < num_candidates {
            self.k_start
        } else {
            num_candidates
        }
    }
}

} // verus!
