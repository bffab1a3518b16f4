//! Natural numbers of any size, computed by `num_bigint`.

use num_bigint::BigUint;
use vstd::arithmetic::power::pow;
use vstd::prelude::*;

verus! {

/// Numbers are not shifted further than this.
pub const MAX_SHIFT: u64 = 0x40_0000_0000;

/// Numbers with more digits are not raised to a power.
pub const MAX_POWER_DIGITS: usize = 64;

/// The number whose base-2^32 digits, least significant first, are `digits`.
pub open spec fn digits_value(digits: Seq<u32>) -> nat
    decreases digits.len(),
{
    if digits.len() == 0 {
        0
    } else {
        digits[0] as nat + 0x1_0000_0000 * digits_value(digits.skip(1))
    }
}

/// The number of binary digits of `n`; zero has none.
pub open spec fn bit_len(n: nat) -> nat
    decreases n,
{
    if n == 0 {
        0
    } else {
        1 + bit_len(n / 2)
    }
}

/// The decimal digit for `d`.
pub open spec fn digit_char(d: nat) -> char {
    ('0' as u8 + d) as char
}

/// The decimal notation of `n`.
pub open spec fn decimal(n: nat) -> Seq<char>
    decreases n,
{
    if n < 10 {
        seq![digit_char(n)]
    } else {
        decimal(n / 10).push(digit_char(n % 10))
    }
}

/// A natural number, as base-2^32 digits, least significant first.
#[derive(Debug)]
pub struct Natural {
    pub digits: Vec<u32>,
}

impl View for Natural {
    type V = nat;

    open spec fn view(&self) -> nat {
        digits_value(self.digits@)
    }
}

/// The sum, by `+` on `num_bigint::BigUint`, whose digits come and go by `from_slice` and
/// `to_u32_digits`. Claimed of it: the result's value is the sum of the values.
#[verifier::external_body]
fn sum_digits(a: &Vec<u32>, b: &Vec<u32>) -> (r: Vec<u32>)
    ensures
        digits_value(r@) == digits_value(a@) + digits_value(b@),
{
    (BigUint::from_slice(a) + BigUint::from_slice(b)).to_u32_digits()
}

/// The difference, by `-` on `num_bigint::BigUint`, which panics where it would be negative.
/// Claimed of it: the result's value is the difference of the values.
#[verifier::external_body]
fn difference_digits(a: &Vec<u32>, b: &Vec<u32>) -> (r: Vec<u32>)
    requires
        digits_value(b@) <= digits_value(a@),
    ensures
        digits_value(r@) == digits_value(a@) - digits_value(b@),
{
    (BigUint::from_slice(a) - BigUint::from_slice(b)).to_u32_digits()
}

/// The product, by `*` on `num_bigint::BigUint`. Claimed of it: the result's value is the product
/// of the values.
#[verifier::external_body]
fn product_digits(a: &Vec<u32>, b: &Vec<u32>) -> (r: Vec<u32>)
    ensures
        digits_value(r@) == digits_value(a@) * digits_value(b@),
{
    (BigUint::from_slice(a) * BigUint::from_slice(b)).to_u32_digits()
}

/// The quotient, by `/` on `num_bigint::BigUint`, which panics on a zero divisor. Claimed of it:
/// the result's value is the quotient of the values, rounded down.
#[verifier::external_body]
fn quotient_digits(a: &Vec<u32>, b: &Vec<u32>) -> (r: Vec<u32>)
    requires
        digits_value(b@) > 0,
    ensures
        digits_value(r@) == digits_value(a@) / digits_value(b@),
{
    (BigUint::from_slice(a) / BigUint::from_slice(b)).to_u32_digits()
}

/// The power, by `num_bigint::BigUint::pow`. Claimed of it: the result's value is the value to the
/// power of the exponent. The bound keeps the number of digits addressable.
#[verifier::external_body]
fn power_digits(a: &Vec<u32>, exponent: u32) -> (r: Vec<u32>)
    requires
        a@.len() <= MAX_POWER_DIGITS,
    ensures
        digits_value(r@) == pow(digits_value(a@) as int, exponent as nat),
{
    BigUint::from_slice(a).pow(exponent).to_u32_digits()
}

/// The shifted number, by `<<` on `num_bigint::BigUint`. Claimed of it: the result's value is the
/// value times two to the power of the shift. The bound keeps the number of digits addressable.
#[verifier::external_body]
fn shifted_digits(a: &Vec<u32>, shift: u64) -> (r: Vec<u32>)
    requires
        shift <= MAX_SHIFT,
    ensures
        digits_value(r@) == digits_value(a@) * pow(2, shift as nat),
{
    (BigUint::from_slice(a) << shift).to_u32_digits()
}

/// The comparison, by `<=` on `num_bigint::BigUint`. Claimed of it: the result says whether the
/// first value is at most the second.
#[verifier::external_body]
fn at_most_digits(a: &Vec<u32>, b: &Vec<u32>) -> (r: bool)
    ensures
        r == (digits_value(a@) <= digits_value(b@)),
{
    BigUint::from_slice(a) <= BigUint::from_slice(b)
}

/// The number of binary digits, by `num_bigint::BigUint::bits`. Claimed of it: the result is the
/// fewest bits that express the value. Digits that fit into memory have fewer than `2^64` bits.
#[verifier::external_body]
fn bits_of_digits(a: &Vec<u32>) -> (r: u64)
    ensures
        r as nat == bit_len(digits_value(a@)),
{
    BigUint::from_slice(a).bits()
}

/// The decimal notation, by `num_bigint::BigUint::to_str_radix`. Claimed of it: the result is the
/// decimal notation of the value.
#[verifier::external_body]
fn decimal_of_digits(a: &Vec<u32>) -> (r: String)
    ensures
        r@ == decimal(digits_value(a@)),
{
    BigUint::from_slice(a).to_str_radix(10)
}

impl Natural {
    /// Zero.
    pub fn zero() -> (r: Self)
        ensures
            r@ == 0,
    {
        Natural { digits: Vec::new() }
    }

    /// The number with these base-2^32 digits, least significant first.
    pub fn from_digits(digits: Vec<u32>) -> (r: Self)
        ensures
            r@ == digits_value(digits@),
    {
        Natural { digits }
    }

    /// The number `n`.
    pub fn from_u64(n: u64) -> (r: Self)
        ensures
            r@ == n,
            r.digits@.len() == 2,
    {
        let mut digits: Vec<u32> = Vec::with_capacity(2);
        let low = (n % 0x1_0000_0000) as u32;
        let high = (n / 0x1_0000_0000) as u32;
        digits.push(low);
        digits.push(high);
        proof {
            reveal_with_fuel(digits_value, 3);
            assert(digits@.skip(1) =~= seq![high]);
            assert(digits@.skip(1).skip(1) =~= seq![]);
        }
        Natural { digits }
    }

    /// The number `n`.
    pub fn from_u128(n: u128) -> (r: Self)
        ensures
            r@ == n,
    {
        let mut digits: Vec<u32> = Vec::with_capacity(4);
        let base: u128 = 0x1_0000_0000;
        let a = (n % base) as u32;
        let n1 = n / base;
        let b = (n1 % base) as u32;
        let n2 = n1 / base;
        let c = (n2 % base) as u32;
        let d = (n2 / base) as u32;
        digits.push(a);
        digits.push(b);
        digits.push(c);
        digits.push(d);
        proof {
            reveal_with_fuel(digits_value, 5);
            assert(digits@.skip(1) =~= seq![b, c, d]);
            assert(digits@.skip(1).skip(1) =~= seq![c, d]);
            assert(digits@.skip(1).skip(1).skip(1) =~= seq![d]);
            assert(digits@.skip(1).skip(1).skip(1).skip(1) =~= seq![]);
            assert(n2 / base < base);
        }
        Natural { digits }
    }

    /// A copy.
    pub fn copy(&self) -> (r: Self)
        ensures
            r@ == self@,
    {
        let mut digits: Vec<u32> = Vec::with_capacity(self.digits.len());
        digits.extend_from_slice(&self.digits);
        assert(digits@ =~= self.digits@);
        Natural { digits }
    }

    /// The sum.
    pub fn plus(&self, other: &Natural) -> (r: Self)
        ensures
            r@ == self@ + other@,
    {
        Natural { digits: sum_digits(&self.digits, &other.digits) }
    }

    /// The difference.
    pub fn minus(&self, other: &Natural) -> (r: Self)
        requires
            other@ <= self@,
        ensures
            r@ == self@ - other@,
    {
        Natural { digits: difference_digits(&self.digits, &other.digits) }
    }

    /// The product.
    pub fn times(&self, other: &Natural) -> (r: Self)
        ensures
            r@ == self@ * other@,
    {
        Natural { digits: product_digits(&self.digits, &other.digits) }
    }

    /// The quotient, rounded down.
    pub fn divided_by(&self, other: &Natural) -> (r: Self)
        requires
            other@ > 0,
        ensures
            r@ == self@ / other@,
    {
        Natural { digits: quotient_digits(&self.digits, &other.digits) }
    }

    /// The power.
    pub fn power(&self, exponent: u32) -> (r: Self)
        requires
            self.digits@.len() <= MAX_POWER_DIGITS,
        ensures
            r@ == pow(self@ as int, exponent as nat),
    {
        Natural { digits: power_digits(&self.digits, exponent) }
    }

    /// The product with a power of two.
    pub fn shifted(&self, shift: u64) -> (r: Self)
        requires
            shift <= MAX_SHIFT,
        ensures
            r@ == self@ * pow(2, shift as nat),
    {
        Natural { digits: shifted_digits(&self.digits, shift) }
    }

    /// Whether the number is at most the other.
    pub fn at_most(&self, other: &Natural) -> (r: bool)
        ensures
            r == (self@ <= other@),
    {
        at_most_digits(&self.digits, &other.digits)
    }

    /// Whether the two numbers are the same.
    pub fn equals(&self, other: &Natural) -> (r: bool)
        ensures
            r == (self@ == other@),
    {
        self.at_most(other) && other.at_most(self)
    }

    /// The number of binary digits; zero has none.
    pub fn bits(&self) -> (r: u64)
        ensures
            r as nat == bit_len(self@),
    {
        bits_of_digits(&self.digits)
    }

    /// Whether the number is zero.
    pub fn is_zero(&self) -> (r: bool)
        ensures
            r == (self@ == 0),
    {
        self.bits() == 0
    }

    /// The decimal notation.
    pub fn to_decimal(&self) -> (r: String)
        ensures
            r@ == decimal(self@),
    {
        decimal_of_digits(&self.digits)
    }
}

} // verus!
