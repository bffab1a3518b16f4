//! Quotients rounded to 53 significant bits, the way a double holds them.

use vstd::arithmetic::power2::{
    lemma2_to64, lemma2_to64_rest, lemma_pow2_adds, lemma_pow2_pos, lemma_pow2_strictly_increases,
    lemma_pow2_unfold, pow2,
};
use vstd::prelude::*;

verus! {

/// `num / den` rounded to the nearest integer, halves to the even one.
pub open spec fn round_half_even(num: nat, den: nat) -> nat {
    let q = num / den;
    let r = num % den;
    if 2 * r < den || (2 * r == den && q % 2 == 0) {
        q
    } else {
        q + 1
    }
}

/// With the least sufficient `e`, the scaled quotient `num * 2^e / den` has 53 bits or more.
pub open spec fn is_scale(num: nat, den: nat, e: nat) -> bool {
    &&& num * pow2(e) >= 0x10_0000_0000_0000 * den
    &&& e > 0 ==> num * pow2((e - 1) as nat) < 0x10_0000_0000_0000 * den
}

pub open spec fn scale_of(num: nat, den: nat) -> nat {
    choose|e: nat| is_scale(num, den, e)
}

/// The nearest 53-bit quotient of `num` and `den`, as a mantissa and the number of times it is to
/// be halved.
pub open spec fn nearest(num: nat, den: nat) -> (nat, nat) {
    let e = scale_of(num, den);
    (round_half_even(num * pow2(e), den), e)
}

proof fn lemma_scale_unique(num: nat, den: nat, a: nat, b: nat)
    requires
        is_scale(num, den, a),
        is_scale(num, den, b),
    ensures
        a >= b,
{
    if a < b {
        lemma_pow2_pos(a);
        if a < b - 1 {
            lemma_pow2_strictly_increases(a, (b - 1) as nat);
        }
        assert(num * pow2(a) <= num * pow2((b - 1) as nat)) by (nonlinear_arith)
            requires
                pow2(a) <= pow2((b - 1) as nat),
        ;
    }
}

proof fn lemma_scale_is(num: nat, den: nat, e: nat)
    requires
        is_scale(num, den, e),
    ensures
        scale_of(num, den) == e,
{
    let s = scale_of(num, den);
    lemma_scale_unique(num, den, s, e);
    lemma_scale_unique(num, den, e, s);
}

/// The nearest 53-bit quotient of `num` and `den`.
pub fn nearest_quotient(num: u64, den: u64) -> (r: (u64, u32))
    requires
        0 < num <= 0x20_0000_0000_0000,
        0 < den <= 0x20_0000_0000_0000,
        num < 0x20_0000_0000_0000 * den,
    ensures
        (r.0 as nat, r.1 as nat) == nearest(num as nat, den as nat),
        r.0 <= 0x20_0000_0000_0000,
        r.0 >= 0x10_0000_0000_0000,
        r.1 <= 106,
{
    let d = den as u128;
    let mut n: u128 = num as u128;
    let mut e: u32 = 0;
    proof {
        lemma2_to64();
        lemma2_to64_rest();
        assert(num * pow2(0) == num) by (nonlinear_arith)
            requires
                pow2(0) == 1,
        ;
    }
    while n < 0x10_0000_0000_0000 * d
        invariant
            d == den,
            0 < num,
            0 < den <= 0x20_0000_0000_0000,
            n as nat == num * pow2(e as nat),
            n < 0x20_0000_0000_0000 * d,
            n >= pow2(e as nat),
            e > 0 ==> num * pow2((e - 1) as nat) < 0x10_0000_0000_0000 * den,
            e <= 106,
        decreases 0x20_0000_0000_0000 * d - n,
    {
        proof {
            lemma_pow2_unfold((e + 1) as nat);
            assert(num * (2 * pow2(e as nat)) == 2 * (num * pow2(e as nat))) by (nonlinear_arith);
            lemma_pow2_pos(e as nat);
            if e >= 106 {
                lemma_pow2_adds(53, 53);
                lemma2_to64_rest();
                if e > 106 {
                    lemma_pow2_strictly_increases(106, e as nat);
                }
                assert(pow2(53) * pow2(53) == 0x20_0000_0000_0000 * 0x20_0000_0000_0000);
                assert(0x20_0000_0000_0000 * d <= 0x20_0000_0000_0000 * 0x20_0000_0000_0000);
            }
        }
        n = 2 * n;
        e = e + 1;
    }
    proof {
        lemma_scale_is(num as nat, den as nat, e as nat);
        assert(n / d >= 0x10_0000_0000_0000) by (nonlinear_arith)
            requires
                n >= 0x10_0000_0000_0000 * d,
                d > 0,
        ;
        assert(n / d < 0x20_0000_0000_0000) by (nonlinear_arith)
            requires
                n < 0x20_0000_0000_0000 * d,
                d > 0,
        ;
    }
    let q = n / d;
    let r = n % d;
    let m = if 2 * r < d || (2 * r == d && q % 2 == 0) {
        q
    } else {
        q + 1
    };
    (m as u64, e)
}

/// What a count of `total` in a sample of `sample` out of `len` bytes scales up to: the total
/// divided by the fraction that the sample is, both quotients rounded to 53 bits, and cut to an
/// integer.
pub open spec fn scaled_up(total: nat, sample: nat, len: nat) -> nat {
    let (m, k) = nearest(sample, len);
    let (n, e) = nearest(total, m);
    n * pow2(k) / pow2(e)
}

/// The scaled count; the largest number where it is larger.
pub fn scale_count(total: usize, sample: usize, len: usize) -> (r: usize)
    requires
        0 < total <= 0x20_0000_0000_0000,
        0 < sample < len <= 0x20_0000_0000_0000,
    ensures
        r as nat == if scaled_up(total as nat, sample as nat, len as nat) <= usize::MAX {
            scaled_up(total as nat, sample as nat, len as nat)
        } else {
            usize::MAX as nat
        },
{
    let (m, k) = nearest_quotient(sample as u64, len as u64);
    let (n, e) = nearest_quotient(total as u64, m);
    proof {
        lemma2_to64();
        lemma2_to64_rest();
        lemma_pow2_pos(e as nat);
        lemma_pow2_pos(k as nat);
    }
    if e >= k {
        let s = e - k;
        proof {
            lemma_pow2_adds(k as nat, s as nat);
            lemma_pow2_pos(s as nat);
            let a = n as nat;
            let p = pow2(k as nat);
            let q = pow2(s as nat);
            vstd::arithmetic::div_mod::lemma_div_denominator(
                (a * p) as int,
                p as int,
                q as int,
            );
            vstd::arithmetic::div_mod::lemma_div_by_multiple(a as int, p as int);
            assert(p * a == a * p) by (nonlinear_arith);
            assert(a * p / pow2(e as nat) == a / q);
            if s >= 64 {
                if s > 64 {
                    lemma_pow2_strictly_increases(64, s as nat);
                }
                vstd::arithmetic::div_mod::lemma_basic_div(a as int, q as int);
            } else {
                vstd::bits::lemma_u64_shr_is_div(n, s as u64);
            }
            assert(a / q <= a) by (nonlinear_arith)
                requires
                    q >= 1,
            ;
        }
        if s >= 64 {
            0
        } else {
            let v = n >> s;
            if v <= usize::MAX as u64 {
                v as usize
            } else {
                usize::MAX
            }
        }
    } else {
        let s = k - e;
        proof {
            lemma_pow2_adds(e as nat, s as nat);
            let a = n as nat;
            let p = pow2(e as nat);
            let q = pow2(s as nat);
            lemma_pow2_pos(s as nat);
            assert(a * (p * q) == p * (a * q)) by (nonlinear_arith);
            vstd::arithmetic::div_mod::lemma_div_by_multiple((a * q) as int, p as int);
            assert((a * q) * p == p * (a * q)) by (nonlinear_arith);
            assert(a * pow2(k as nat) / p == a * q);
            if s >= 64 {
                if s > 64 {
                    lemma_pow2_strictly_increases(64, s as nat);
                }
                assert(a * q >= q) by (nonlinear_arith)
                    requires
                        a >= 1,
                        q >= 0,
                ;
            } else {
                lemma_pow2_strictly_increases(s as nat, 64);
                assert(1u64 * q == q);
                vstd::bits::lemma_u64_shl_is_mul(1, s as u64);
                assert(a * q <= 0x20_0000_0000_0000 * 0x1_0000_0000_0000_0000)
                    by (nonlinear_arith)
                    requires
                        a <= 0x20_0000_0000_0000,
                        q <= 0x1_0000_0000_0000_0000,
                ;
            }
        }
        if s >= 64 {
            usize::MAX
        } else {
            let v = n as u128 * (1u64 << s) as u128;
            if v <= usize::MAX as u128 {
                v as usize
            } else {
                usize::MAX
            }
        }
    }
}

/// A rounded quotient is the nearest integer: it is off by half at most, and where it is off by half it
/// is even.
pub proof fn lemma_rounded_is_nearest(num: nat, den: nat)
    requires
        den > 0,
    ensures
        ({
            let r = round_half_even(num, den);
            &&& 2 * num <= 2 * (r * den) + den
            &&& 2 * (r * den) <= 2 * num + den
            &&& (2 * num == 2 * (r * den) + den || 2 * (r * den) == 2 * num + den) ==> r % 2 == 0
        }),
{
    let q = num / den;
    let r = num % den;
    vstd::arithmetic::div_mod::lemma_fundamental_div_mod(num as int, den as int);
    assert(den * q == q * den) by (nonlinear_arith);
    assert((q + 1) * den == q * den + den) by (nonlinear_arith);
}

/// The quotient of two numbers as a double holds it: off by half a unit at most, where a unit is what
/// scales the quotient to 53 bits.
pub proof fn lemma_quotient_close(num: nat, den: nat, e: nat)
    requires
        den > 0,
        num * pow2(e) >= 0x10_0000_0000_0000 * den,
        e > 0 ==> num * pow2((e - 1) as nat) < 0x10_0000_0000_0000 * den,
    ensures
        nearest(num, den).1 == e,
        2 * (nearest(num, den).0 * den) <= 2 * (num * pow2(e)) + den,
        2 * (num * pow2(e)) <= 2 * (nearest(num, den).0 * den) + den,
{
    lemma_scale_is(num, den, e);
    lemma_rounded_is_nearest(num * pow2(e), den);
}

} // verus!
