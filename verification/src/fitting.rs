//! Closest terms `c * n^e` to a large number.

use vstd::arithmetic::power::{
    lemma_pow0, lemma_pow1, lemma_pow_adds, lemma_pow_multiplies, lemma_pow_positive,
    lemma_pow_strictly_increases, pow,
};
use vstd::arithmetic::power2::{
    lemma2_to64, lemma_pow2, lemma_pow2_pos, lemma_pow2_strictly_increases, lemma_pow2_unfold, pow2,
};
use vstd::prelude::*;

use crate::natural::{bit_len, Natural};

verus! {

/// `base^e`.
pub open spec fn raised(base: nat, e: nat) -> nat {
    pow(base as int, e) as nat
}

pub proof fn lemma_raised(base: nat, e: nat)
    requires
        base > 0,
    ensures
        raised(base, e) > 0,
        raised(base, e) == pow(base as int, e),
        raised(base, e + 1) == raised(base, e) * base,
        raised(base, 0) == 1,
{
    lemma_pow_positive(base as int, e);
    lemma_pow_positive(base as int, e + 1);
    lemma_pow_adds(base as int, e, 1);
    lemma_pow1(base as int);
    lemma_pow0(base as int);
}

pub proof fn lemma_raised_adds(base: nat, a: nat, b: nat)
    requires
        base > 0,
    ensures
        raised(base, a + b) == raised(base, a) * raised(base, b),
{
    lemma_raised(base, a);
    lemma_raised(base, b);
    lemma_raised(base, a + b);
    lemma_pow_adds(base as int, a, b);
}

pub proof fn lemma_raised_increases(base: nat, a: nat, b: nat)
    requires
        base >= 2,
        a < b,
    ensures
        raised(base, a) < raised(base, b),
{
    lemma_raised(base, a);
    lemma_raised(base, b);
    lemma_pow_strictly_increases(base, a, b);
}

/// `base^exp`.
pub fn fast_pow(base: u64, exp: u32) -> (r: Natural)
    ensures
        r@ == pow(base as int, exp as nat),
{
    let mut rest: u64 = base;
    let mut twos: u32 = 0;
    proof {
        lemma2_to64();
        assert(base == rest * pow2(0)) by (nonlinear_arith)
            requires
                base == rest,
                pow2(0) == 1,
        ;
    }
    while rest > 1 && rest % 2 == 0
        invariant
            base > 0 ==> rest > 0,
            base == rest * pow2(twos as nat),
            twos < 64,
            rest > 0 ==> pow2(twos as nat) <= base,
        decreases rest,
    {
        proof {
            lemma_pow2_unfold((twos + 1) as nat);
            let h = (rest / 2) as nat;
            let p = pow2(twos as nat);
            assert(2 * h == rest);
            assert((2 * h) * p == h * (2 * p)) by (nonlinear_arith);
            assert(pow2((twos + 1) as nat) <= base) by (nonlinear_arith)
                requires
                    base == h * pow2((twos + 1) as nat),
                    h >= 1,
            ;
            if twos >= 63 {
                lemma2_to64();
                lemma_pow2_unfold(64);
            }
        }
        rest = rest / 2;
        twos = twos + 1;
    }
    if rest == 1 {
        assert(exp * twos <= 0xffff_ffff * 63) by (nonlinear_arith)
            requires
                exp <= 0xffff_ffff,
                twos <= 63,
        ;
        let shift = exp as u64 * twos as u64;
        proof {
            lemma_pow2(twos as nat);
            assert(rest * pow2(twos as nat) == pow2(twos as nat)) by (nonlinear_arith)
                requires
                    rest == 1,
            ;
            lemma_pow_multiplies(2, twos as nat, exp as nat);
            assert(twos * exp == exp * twos) by (nonlinear_arith);
        }
        let one = Natural::from_u64(1);
        let r = one.shifted(shift);
        assert(r@ == pow(2, shift as nat)) by (nonlinear_arith)
            requires
                r@ == 1 * pow(2, shift as nat),
        ;
        r
    } else {
        Natural::from_u64(base).power(exp)
    }
}

/// `base^e` is the largest power of the base that is at most `value`.
pub open spec fn is_top(value: nat, base: nat, e: nat) -> bool {
    raised(base, e) <= value < raised(base, e + 1)
}

/// The exponent of the largest power of the base that is at most `value`.
pub open spec fn top_exponent(value: nat, base: nat) -> nat {
    choose|e: nat| is_top(value, base, e)
}

pub proof fn lemma_top(value: nat, base: nat, e: nat)
    requires
        base >= 2,
        is_top(value, base, e),
    ensures
        top_exponent(value, base) == e,
{
    let t = top_exponent(value, base);
    if t < e {
        if t + 1 < e {
            lemma_raised_increases(base, t + 1, e);
        }
    } else if e < t {
        if e + 1 < t {
            lemma_raised_increases(base, e + 1, t);
        }
    }
}

proof fn lemma_top_exists(value: nat, base: nat, e: nat)
    requires
        base >= 2,
        value >= 1,
        raised(base, e) > value,
    ensures
        is_top(value, base, top_exponent(value, base)),
    decreases e,
{
    lemma_raised(base, 0);
    if e > 0 {
        if raised(base, (e - 1) as nat) <= value {
            assert(is_top(value, base, (e - 1) as nat));
        } else {
            lemma_top_exists(value, base, (e - 1) as nat);
        }
    }
}

proof fn lemma_exponent_below_power(base: nat, e: nat)
    requires
        base >= 2,
    ensures
        raised(base, e) > e,
    decreases e,
{
    lemma_raised(base, 0);
    if e > 0 {
        lemma_exponent_below_power(base, (e - 1) as nat);
        lemma_raised(base, (e - 1) as nat);
        let p = raised(base, (e - 1) as nat);
        assert(p * base >= 2 * p) by (nonlinear_arith)
            requires
                base >= 2,
        ;
    }
}

/// Every positive number has a largest power of the base below it.
pub proof fn lemma_top_is(value: nat, base: nat)
    requires
        base >= 2,
        value >= 1,
    ensures
        is_top(value, base, top_exponent(value, base)),
{
    lemma_exponent_below_power(base, value);
    lemma_top_exists(value, base, value);
}

pub proof fn lemma_bit_len(n: nat)
    ensures
        n < pow2(bit_len(n)),
        n > 0 ==> pow2((bit_len(n) - 1) as nat) <= n && bit_len(n) > 0,
    decreases n,
{
    lemma2_to64();
    if n > 0 {
        lemma_bit_len(n / 2);
        lemma_pow2_unfold(bit_len(n));
        if n / 2 > 0 {
            lemma_pow2_unfold((bit_len(n) - 1) as nat);
        }
    }
}

/// A number below `2^k` has at most `k` bits.
pub proof fn lemma_bit_len_below(n: nat, k: nat)
    requires
        n < pow2(k),
    ensures
        bit_len(n) <= k,
{
    lemma_bit_len(n);
    if n > 0 && bit_len(n) > k {
        if bit_len(n) - 1 > k {
            lemma_pow2_strictly_increases(k, (bit_len(n) - 1) as nat);
        }
    }
}

pub proof fn lemma_bit_len_monotonic(a: nat, b: nat)
    requires
        a <= b,
    ensures
        bit_len(a) <= bit_len(b),
{
    lemma_bit_len(b);
    lemma_bit_len_below(a, bit_len(b));
}

pub proof fn lemma_bit_len_shift(n: nat, k: nat)
    requires
        n > 0,
    ensures
        bit_len(n * pow2(k)) == bit_len(n) + k,
    decreases k,
{
    lemma2_to64();
    if k == 0 {
        assert(n * pow2(0) == n) by (nonlinear_arith)
            requires
                pow2(0) == 1,
        ;
    } else {
        lemma_pow2_unfold(k);
        let p = pow2((k - 1) as nat);
        assert(n * (2 * p) == 2 * (n * p)) by (nonlinear_arith);
        lemma_pow2_pos((k - 1) as nat);
        assert(n * p > 0) by (nonlinear_arith)
            requires
                n > 0,
                p > 0,
        ;
        lemma_bit_len_shift(n, (k - 1) as nat);
    }
}

/// Keeps a power of a base at hand, so that it can be moved up and down.
#[derive(Debug)]
pub struct PowCache {
    pub base: u64,
    pub e: u32,
    pub p: Natural,
    pub seeded: bool,
}

impl PowCache {
    /// The power is that of the base and the exponent.
    pub open spec fn wf(&self) -> bool {
        self.base >= 2 && self.p@ == raised(self.base as nat, self.e as nat)
    }

    /// The cache holds the largest power that is at most `value`.
    pub open spec fn fits(&self, value: nat) -> bool {
        self.wf() && is_top(value, self.base as nat, self.e as nat)
    }

    /// A cache with the exponent zero.
    pub fn new(base: u64) -> (c: Self)
        requires
            base >= 2,
        ensures
            c.wf(),
            c.base == base,
            c.e == 0,
            !c.seeded,
    {
        proof {
            lemma_raised(base as nat, 0);
        }
        PowCache { base, e: 0, p: Natural::from_u64(1), seeded: false }
    }

    /// Starts near the largest power that is at most `value`, and moves there.
    pub fn seed(&mut self, value: &Natural)
        requires
            old(self).wf(),
            value@ >= 1,
            bit_len(value@) <= u32::MAX,
        ensures
            final(self).fits(value@),
            final(self).base == old(self).base,
            final(self).seeded,
    {
        let block = fast_pow(self.base, 64).bits();
        let guess = if block == 0 {
            0
        } else {
            value.bits() as u128 * 64 / block as u128
        };
        let e: u32 = if guess > u32::MAX as u128 {
            u32::MAX
        } else {
            guess as u32
        };
        proof {
            lemma_raised(self.base as nat, e as nat);
        }
        self.e = e;
        self.p = fast_pow(self.base, e);
        self.seeded = true;
        self.sync(value);
    }

    /// Moves to the largest power that is at most `value`.
    pub fn sync(&mut self, value: &Natural)
        requires
            old(self).wf(),
            value@ >= 1,
            bit_len(value@) <= u32::MAX,
        ensures
            final(self).fits(value@),
            final(self).base == old(self).base,
            final(self).seeded == old(self).seeded,
    {
        let n = Natural::from_u64(self.base);
        let ghost base = self.base as nat;
        while !self.p.at_most(value)
            invariant
                self.wf(),
                value@ >= 1,
                n@ == base,
                self.base == base,
                base >= 2,
                self.seeded == old(self).seeded,
                self.base == old(self).base,
            decreases self.e,
        {
            proof {
                lemma_raised(base, 0);
                assert(self.e > 0);
                lemma_raised(base, (self.e - 1) as nat);
                let q = raised(base, (self.e - 1) as nat) as int;
                vstd::arithmetic::div_mod::lemma_div_by_multiple(q, base as int);
            }
            self.e = self.e - 1;
            self.p = self.p.divided_by(&n);
        }
        let mut above = self.p.times(&n);
        proof {
            lemma_raised(base, self.e as nat);
        }
        while above.at_most(value)
            invariant
                self.wf(),
                value@ >= 1,
                bit_len(value@) <= u32::MAX,
                self.p@ <= value@,
                n@ == base,
                self.base == base,
                base >= 2,
                above@ == raised(base, (self.e + 1) as nat),
                self.seeded == old(self).seeded,
                self.base == old(self).base,
            decreases value@ - self.p@,
        {
            proof {
                lemma_raised_increases(base, self.e as nat, (self.e + 1) as nat);
                lemma_exponent_bound(value@, base, (self.e + 1) as nat);
                lemma_raised(base, (self.e + 1) as nat);
            }
            self.e = self.e + 1;
            self.p = above;
            above = self.p.times(&n);
        }
    }
}

/// The exponent of a power is less than the number of bits of anything above it.
proof fn lemma_exponent_bound(value: nat, base: nat, e: nat)
    requires
        base >= 2,
        raised(base, e) <= value,
    ensures
        e < bit_len(value),
{
    lemma_pow2_at_most(base, e);
    lemma_bit_len(value);
    if bit_len(value) <= e {
        if bit_len(value) < e {
            lemma_pow2_strictly_increases(bit_len(value), e);
        }
    }
}

proof fn lemma_pow2_at_most(base: nat, e: nat)
    requires
        base >= 2,
    ensures
        pow2(e) <= raised(base, e),
    decreases e,
{
    lemma2_to64();
    lemma_raised(base, 0);
    if e > 0 {
        lemma_pow2_at_most(base, (e - 1) as nat);
        lemma_pow2_unfold(e);
        lemma_raised(base, (e - 1) as nat);
        let p = raised(base, (e - 1) as nat);
        assert(p * base >= 2 * p) by (nonlinear_arith)
            requires
                base >= 2,
        ;
    }
}

/// A term `coef * base^exp`. With `ceil` it is above what it stands for, else at most that.
#[derive(Debug)]
pub struct Term {
    pub base: u64,
    pub exp: u32,
    pub coef: Natural,
    pub ceil: bool,
}

/// What a `Term` says.
pub struct TermValue {
    pub base: u64,
    pub exp: u32,
    pub coef: nat,
    pub ceil: bool,
}

impl View for Term {
    type V = TermValue;

    open spec fn view(&self) -> TermValue {
        TermValue { base: self.base, exp: self.exp, coef: self.coef@, ceil: self.ceil }
    }
}

impl TermValue {
    /// `coef * base^exp`.
    pub open spec fn amount(self) -> nat {
        self.coef * raised(self.base as nat, self.exp as nat)
    }
}

/// The term with exponent `e` that comes closest to `value` by the number of bits left over, and
/// what is left: from below where that leaves no more bits than from above.
pub open spec fn fit_at(value: nat, base: u64, e: nat) -> (TermValue, nat) {
    let p = raised(base as nat, e);
    let a = value / p;
    let r = value % p;
    let hi = (p - r) as nat;
    if bit_len(r) <= bit_len(hi) {
        (TermValue { base, exp: e as u32, coef: a, ceil: false }, r)
    } else {
        (TermValue { base, exp: e as u32, coef: a + 1, ceil: true }, hi)
    }
}

/// By how many bits `gap` is shorter than `value`.
pub open spec fn bits_removed(value: nat, gap: nat) -> nat {
    if bit_len(gap) < bit_len(value) {
        (bit_len(value) - bit_len(gap)) as nat
    } else {
        0
    }
}

/// The best of the fits with the exponents from `top` down to `top - k`; the higher exponent where
/// two are as good.
pub open spec fn best_from(value: nat, base: u64, top: nat, k: nat) -> (TermValue, nat)
    decreases k,
{
    if k == 0 {
        fit_at(value, base, top)
    } else {
        let before = best_from(value, base, top, (k - 1) as nat);
        let here = fit_at(value, base, (top - k) as nat);
        if bits_removed(value, here.1) > bits_removed(value, before.1) {
            here
        } else {
            before
        }
    }
}

/// How many base digits a coefficient may have beyond the first.
pub open spec fn window(base: nat, coef_bits: nat) -> nat {
    top_exponent(pow2(coef_bits), base)
}

/// The best fit for `value` with this base.
pub open spec fn best_fit(value: nat, base: u64, coef_bits: nat) -> (TermValue, nat) {
    let top = top_exponent(value, base as nat);
    let w = window(base as nat, coef_bits);
    best_from(
        value,
        base,
        top,
        if w < top {
            w
        } else {
            top
        },
    )
}

/// The fit at `base^e`, where `value` is `a * base^e + r`, and how many bits it removes.
fn build_fit(
    base: u64,
    e: u32,
    a: &Natural,
    p: &Natural,
    r: &Natural,
    value_bits: u64,
    Ghost(value): Ghost<nat>,
) -> (f: (Term, Natural, u64))
    requires
        base >= 2,
        p@ == raised(base as nat, e as nat),
        a@ == value / p@,
        r@ == value % p@,
        value_bits as nat == bit_len(value),
    ensures
        (f.0@, f.1@) == fit_at(value, base, e as nat),
        f.2 as nat == bits_removed(value, f.1@),
{
    proof {
        lemma_raised(base as nat, e as nat);
    }
    let hi = p.minus(r);
    if r.bits() <= hi.bits() {
        let removed = value_bits.saturating_sub(r.bits());
        (Term { base, exp: e, coef: a.copy(), ceil: false }, r.copy(), removed)
    } else {
        let removed = value_bits.saturating_sub(hi.bits());
        let one = Natural::from_u64(1);
        (Term { base, exp: e, coef: a.plus(&one), ceil: true }, hi, removed)
    }
}

/// How many base digits a coefficient of `coef_bits` bits may have beyond the first.
pub fn coefficient_window(base: u64, coef_bits: u32) -> (w: u32)
    requires
        base >= 2,
    ensures
        w as nat == window(base as nat, coef_bits as nat),
{
    let one = Natural::from_u64(1);
    let limit = one.shifted(coef_bits as u64);
    let n = Natural::from_u64(base);
    let mut w: u32 = 0;
    let mut next = n.copy();
    proof {
        lemma_pow2(coef_bits as nat);
        lemma_pow2_pos(coef_bits as nat);
        lemma_raised(base as nat, 0);
        assert(1 * pow(2, coef_bits as nat) == pow(2, coef_bits as nat)) by (nonlinear_arith);
        assert(1 * base as nat == base as nat) by (nonlinear_arith);
        lemma_window_bound(base as nat, coef_bits as nat, 0);
    }
    while next.at_most(&limit)
        invariant
            base >= 2,
            n@ == base,
            limit@ == pow2(coef_bits as nat),
            next@ == raised(base as nat, (w + 1) as nat),
            raised(base as nat, w as nat) <= limit@,
            w <= coef_bits,
        decreases coef_bits - w,
    {
        proof {
            lemma_window_bound(base as nat, coef_bits as nat, (w + 1) as nat);
            lemma_raised(base as nat, (w + 1) as nat);
        }
        w = w + 1;
        next = next.times(&n);
    }
    proof {
        lemma_top(pow2(coef_bits as nat), base as nat, w as nat);
    }
    w
}

proof fn lemma_window_bound(base: nat, coef_bits: nat, w: nat)
    requires
        base >= 2,
    ensures
        raised(base, w) <= pow2(coef_bits) ==> w <= coef_bits,
{
    if raised(base, w) <= pow2(coef_bits) && w > coef_bits {
        lemma_pow2_at_most(base, w);
        lemma_pow2_strictly_increases(coef_bits, w);
    }
}

/// One base digit further down: the coefficient takes up the next digit of what is left.
proof fn lemma_next_digit(value: nat, base: nat, p: nat, q: nat)
    requires
        base > 0,
        q > 0,
        p == q * base,
    ensures
        value / q == (value / p) * base + (value % p) / q,
        value % q == (value % p) % q,
{
    let a = value / p;
    let r = value % p;
    let k = r / q;
    let s = r % q;
    assert(p > 0) by (nonlinear_arith)
        requires
            p == q * base,
            q > 0,
            base > 0,
    ;
    vstd::arithmetic::div_mod::lemma_fundamental_div_mod(value as int, p as int);
    vstd::arithmetic::div_mod::lemma_fundamental_div_mod(r as int, q as int);
    assert(value == (a * base + k) * q + s) by (nonlinear_arith)
        requires
            value == p * a + r,
            p == q * base,
            r == q * k + s,
    ;
    vstd::arithmetic::div_mod::lemma_fundamental_div_mod_converse(
        value as int,
        q as int,
        (a * base + k) as int,
        s as int,
    );
}

/// The best fit for `value` with this base, and what is left. The cache is moved to `value`.
pub fn best_fit_cached(
    value: &Natural,
    base: u64,
    cache: &mut PowCache,
    coef_bits: u32,
) -> (r: (Term, Natural))
    requires
        base >= 2,
        old(cache).wf(),
        old(cache).base == base,
        value@ >= 1,
        bit_len(value@) <= u32::MAX,
    ensures
        (r.0@, r.1@) == best_fit(value@, base, coef_bits as nat),
        r.1@ < value@,
        r.1@ == (if r.0@.ceil {
            r.0@.amount() - value@
        } else {
            value@ - r.0@.amount()
        }),
        r.0@.ceil <==> r.0@.amount() > value@,
        r.0@.base == base,
        bit_len(r.0@.coef) <= coef_bits + bit_len(base as nat),
        final(cache).fits(value@),
        final(cache).base == base,
        final(cache).seeded,
{
    proof {
        lemma_best_fit(value@, base, coef_bits as nat);
        lemma_coefficient_bits(value@, base, coef_bits as nat);
    }
    if cache.seeded {
        cache.sync(value);
    } else {
        cache.seed(value);
    }
    let w = coefficient_window(base, coef_bits);
    let top = cache.e;
    let depth = if w < top {
        w
    } else {
        top
    };
    let n = Natural::from_u64(base);
    let value_bits = value.bits();
    let mut p = cache.p.copy();
    let mut e = cache.e;
    proof {
        lemma_top(value@, base as nat, top as nat);
        lemma_raised(base as nat, e as nat);
        vstd::arithmetic::div_mod::lemma_fundamental_div_mod(value@ as int, p@ as int);
        assert((value@ / p@) * p@ == p@ * (value@ / p@)) by (nonlinear_arith);
        assert((value@ / p@) * p@ <= value@);
    }
    let mut a = value.divided_by(&p);
    let product = a.times(&p);
    let mut r = value.minus(&product);
    let (mut best_term, mut best_gap, mut best_score) = build_fit(
        base,
        e,
        &a,
        &p,
        &r,
        value_bits,
        Ghost(value@),
    );
    let mut k: u32 = 0;
    while k < depth
        invariant
            k <= depth <= top,
            e == top - k,
            base >= 2,
            n@ == base,
            p@ == raised(base as nat, e as nat),
            a@ == value@ / p@,
            r@ == value@ % p@,
            value_bits as nat == bit_len(value@),
            (best_term@, best_gap@) == best_from(value@, base, top as nat, k as nat),
            best_score as nat == bits_removed(value@, best_gap@),
        decreases depth - k,
    {
        proof {
            lemma_raised(base as nat, (e - 1) as nat);
            let q = raised(base as nat, (e - 1) as nat);
            vstd::arithmetic::div_mod::lemma_div_by_multiple(q as int, base as int);
            lemma_next_digit(value@, base as nat, p@, q);
            vstd::arithmetic::div_mod::lemma_fundamental_div_mod(r@ as int, q as int);
            assert(q * (r@ / q) == (r@ / q) * q) by (nonlinear_arith);
        }
        let q = p.divided_by(&n);
        let digit = r.divided_by(&q);
        let part = digit.times(&q);
        r = r.minus(&part);
        a = a.times(&n).plus(&digit);
        p = q;
        e = e - 1;
        k = k + 1;
        let (t, gap, score) = build_fit(base, e, &a, &p, &r, value_bits, Ghost(value@));
        if score > best_score {
            best_term = t;
            best_gap = gap;
            best_score = score;
        }
    }
    (best_term, best_gap)
}

/// A fit at an exponent up to the top: the term and what is left make up the number, and less is
/// left than there was.
pub proof fn lemma_fit_at(value: nat, base: u64, e: nat)
    requires
        base >= 2,
        e <= u32::MAX,
        raised(base as nat, e) <= value,
    ensures
        ({
            let (t, gap) = fit_at(value, base, e);
            &&& gap < value
            &&& gap <= raised(base as nat, e)
            &&& t.ceil ==> gap > 0
            &&& t.ceil ==> value == t.amount() - gap
            &&& !t.ceil ==> value == t.amount() + gap
            &&& t.base == base
        }),
{
    let p = raised(base as nat, e);
    lemma_raised(base as nat, e);
    let a = value / p;
    let r = value % p;
    vstd::arithmetic::div_mod::lemma_fundamental_div_mod(value as int, p as int);
    assert(p * a == a * p) by (nonlinear_arith);
    assert((a + 1) * p == a * p + p) by (nonlinear_arith);
}

/// What `lemma_fit_at` says holds of the best of several fits, which removes at least as many bits
/// as the last of them.
pub proof fn lemma_best_from(value: nat, base: u64, top: nat, k: nat)
    requires
        base >= 2,
        k <= top <= u32::MAX,
        is_top(value, base as nat, top),
    ensures
        ({
            let (t, gap) = best_from(value, base, top, k);
            &&& gap < value
            &&& t.ceil ==> gap > 0
            &&& t.ceil ==> value == t.amount() - gap
            &&& !t.ceil ==> value == t.amount() + gap
            &&& t.base == base
            &&& bits_removed(value, gap) >= bits_removed(
                value,
                fit_at(value, base, (top - k) as nat).1,
            )
        }),
    decreases k,
{
    if k > 0 {
        lemma_best_from(value, base, top, (k - 1) as nat);
        lemma_raised_increases(base as nat, (top - k) as nat, top);
    }
    lemma_fit_at(value, base, (top - k) as nat);
}

/// The best fit and what is left make up the number, and less is left than there was.
pub proof fn lemma_best_fit(value: nat, base: u64, coef_bits: nat)
    requires
        base >= 2,
        value >= 1,
        bit_len(value) <= u32::MAX,
    ensures
        ({
            let (t, gap) = best_fit(value, base, coef_bits);
            &&& gap < value
            &&& t.ceil ==> gap > 0
            &&& t.ceil ==> value == t.amount() - gap
            &&& !t.ceil ==> value == t.amount() + gap
            &&& t.base == base
        }),
{
    let top = top_exponent(value, base as nat);
    let w = window(base as nat, coef_bits);
    lemma_top_is(value, base as nat);
    lemma_exponent_bound(value, base as nat, top);
    lemma_best_from(
        value,
        base,
        top,
        if w < top {
            w
        } else {
            top
        },
    );
}

/// With a base of at most 32 bits, the best fit leaves nothing, or removes all but 32 of the bits
/// that the coefficient may hold.
pub proof fn lemma_bits_removed(value: nat, base: u64, coef_bits: nat)
    requires
        2 <= base <= 0x1_0000_0000,
        value >= 1,
        bit_len(value) <= u32::MAX,
    ensures
        ({
            let gap = best_fit(value, base, coef_bits).1;
            gap == 0 || bit_len(gap) + coef_bits <= bit_len(value) + 32
        }),
{
    let b = base as nat;
    let top = top_exponent(value, b);
    let w = window(b, coef_bits);
    lemma_top_is(value, b);
    lemma_exponent_bound(value, b, top);
    lemma_pow2_pos(coef_bits);
    lemma_top_is(pow2(coef_bits), b);
    lemma_bit_len(value);
    let k = if w < top {
        w
    } else {
        top
    };
    lemma_best_from(value, base, top, k);
    let last = fit_at(value, base, (top - k) as nat).1;
    let gap = best_fit(value, base, coef_bits).1;
    if k > 0 {
        lemma_raised_increases(b, (top - k) as nat, top);
    }
    lemma_fit_at(value, base, (top - k) as nat);
    lemma_bit_len(gap);
    if w >= top {
        lemma_raised(b, 0);
        assert(value % 1 == 0);
        assert(bit_len(0) == 0);
        assert(last == 0);
    } else {
        let p = raised(b, (top - w) as nat);
        let q = raised(b, w);
        let c = pow2(coef_bits);
        lemma_raised(b, (top - w) as nat);
        lemma_raised(b, w);
        lemma_raised_adds(b, (top - w) as nat, w);
        assert(p * c <= value * b) by (nonlinear_arith)
            requires
                p * q <= value,
                c < q * b,
                p > 0,
        ;
        lemma2_to64();
        lemma_pow2_pos(32);
        assert(value * b <= value * pow2(32)) by (nonlinear_arith)
            requires
                b <= pow2(32),
        ;
        lemma_bit_len_shift(p, coef_bits);
        lemma_bit_len_shift(value, 32);
        lemma_bit_len_monotonic(p * c, value * pow2(32));
        lemma_bit_len_monotonic(last, p);
        assert(bit_len(last) + coef_bits <= bit_len(value) + 32);
        if coef_bits > 32 {
        } else {
            lemma_bit_len_monotonic(gap, value);
        }
    }
}

proof fn lemma_coefficient_at(value: nat, base: u64, top: nat, k: nat)
    requires
        base >= 2,
        k <= top,
        is_top(value, base as nat, top),
    ensures
        fit_at(value, base, (top - k) as nat).0.coef <= raised(base as nat, k + 1),
{
    let b = base as nat;
    let p = raised(b, (top - k) as nat);
    let q = raised(b, k + 1);
    lemma_raised(b, (top - k) as nat);
    lemma_raised(b, k + 1);
    lemma_raised_adds(b, (top - k) as nat, k + 1);
    assert(top - k + (k + 1) == top + 1);
    let a = value / p;
    vstd::arithmetic::div_mod::lemma_fundamental_div_mod(value as int, p as int);
    assert(a < q) by (nonlinear_arith)
        requires
            p * a <= value,
            value < p * q,
            p > 0,
    ;
}

proof fn lemma_coefficient_from(value: nat, base: u64, top: nat, k: nat)
    requires
        base >= 2,
        k <= top,
        is_top(value, base as nat, top),
    ensures
        best_from(value, base, top, k).0.coef <= raised(base as nat, k + 1),
    decreases k,
{
    lemma_coefficient_at(value, base, top, k);
    if k > 0 {
        lemma_coefficient_from(value, base, top, (k - 1) as nat);
        lemma_raised_increases(base as nat, k, k + 1);
    }
}

/// The coefficient of the best fit holds at most the bits that it may hold, and those of one more
/// base digit.
pub proof fn lemma_coefficient_bits(value: nat, base: u64, coef_bits: nat)
    requires
        base >= 2,
        value >= 1,
    ensures
        bit_len(best_fit(value, base, coef_bits).0.coef) <= coef_bits + bit_len(base as nat),
{
    let b = base as nat;
    let top = top_exponent(value, b);
    let w = window(b, coef_bits);
    let k = if w < top {
        w
    } else {
        top
    };
    lemma_top_is(value, b);
    lemma_pow2_pos(coef_bits);
    lemma_top_is(pow2(coef_bits), b);
    lemma_coefficient_from(value, base, top, k);
    if k < w {
        lemma_raised_increases(b, k + 1, w + 1);
    }
    lemma_raised(b, w);
    let q = raised(b, w);
    let c = pow2(coef_bits);
    assert(q * b <= b * c) by (nonlinear_arith)
        requires
            q <= c,
    ;
    lemma_bit_len_shift(b, coef_bits);
    lemma_bit_len_monotonic(best_fit(value, base, coef_bits).0.coef, b * c);
}

/// The fit with one exponent leaves the fewest bits: no other coefficient for that power comes closer
/// by the length of what is left, from below or from above.
pub proof fn lemma_fit_is_closest(value: nat, base: u64, e: nat, coef: nat)
    requires
        base >= 2,
        e <= u32::MAX,
    ensures
        ({
            let p = raised(base as nat, e);
            let (t, gap) = fit_at(value, base, e);
            &&& coef * p <= value ==> bit_len(gap) <= bit_len((value - coef * p) as nat)
            &&& coef * p > value ==> bit_len(gap) <= bit_len((coef * p - value) as nat)
            &&& t.exp == e
        }),
{
    let p = raised(base as nat, e);
    lemma_raised(base as nat, e);
    let a = value / p;
    let r = value % p;
    let hi = (p - r) as nat;
    vstd::arithmetic::div_mod::lemma_fundamental_div_mod(value as int, p as int);
    assert(p * a == a * p) by (nonlinear_arith);
    if coef * p <= value {
        assert(coef <= a) by (nonlinear_arith)
            requires
                coef * p <= value,
                value == p * a + r,
                r < p,
        ;
        assert(coef * p <= a * p) by (nonlinear_arith)
            requires
                coef <= a,
        ;
        lemma_bit_len_monotonic(r, (value - coef * p) as nat);
    } else {
        assert(coef >= a + 1) by (nonlinear_arith)
            requires
                coef * p > value,
                value >= p * a,
        ;
        assert(coef * p >= a * p + p) by (nonlinear_arith)
            requires
                coef >= a + 1,
        ;
        lemma_bit_len_monotonic(hi, (coef * p - value) as nat);
    }
}

proof fn lemma_best_beats(value: nat, base: u64, top: nat, k: nat, j: nat)
    requires
        j <= k <= top,
    ensures
        bits_removed(value, best_from(value, base, top, k).1) >= bits_removed(
            value,
            fit_at(value, base, (top - j) as nat).1,
        ),
        exists|i: nat|
            i <= k && best_from(value, base, top, k) == #[trigger] fit_at(value, base, (top - i) as nat)
                && forall|m: nat|
                m < i ==> bits_removed(value, #[trigger] fit_at(value, base, (top - m) as nat).1)
                    < bits_removed(value, best_from(value, base, top, k).1),
    decreases k,
{
    if k == 0 {
        assert(fit_at(value, base, (top - 0) as nat) == best_from(value, base, top, 0));
    } else {
        let b = (k - 1) as nat;
        lemma_best_beats(
            value,
            base,
            top,
            b,
            if j < k {
                j
            } else {
                0
            },
        );
        let before = best_from(value, base, top, b);
        let here = fit_at(value, base, (top - k) as nat);
        if bits_removed(value, here.1) > bits_removed(value, before.1) {
            assert forall|m: nat| m < k implies bits_removed(
                value,
                #[trigger] fit_at(value, base, (top - m) as nat).1,
            ) < bits_removed(value, here.1) by {
                lemma_best_beats(value, base, top, b, m);
            }
        }
    }
}

/// The best fit removes the most bits: none with the exponent of the largest power that fits, or one
/// that is lower by no more than the window allows, removes more.
pub proof fn lemma_best_fit_beats(value: nat, base: u64, coef_bits: nat, top: nat, w: nat, j: nat)
    requires
        base >= 2,
        raised(base as nat, top) <= value < raised(base as nat, top + 1),
        raised(base as nat, w) <= pow2(coef_bits) < raised(base as nat, w + 1),
        j <= top,
        j <= w,
    ensures
        bits_removed(value, best_fit(value, base, coef_bits).1) >= bits_removed(
            value,
            fit_at(value, base, (top - j) as nat).1,
        ),
{
    lemma_top(value, base as nat, top);
    lemma_top(pow2(coef_bits), base as nat, w);
    lemma_best_beats(
        value,
        base,
        top,
        if w < top {
            w
        } else {
            top
        },
        j,
    );
}

} // verus!
