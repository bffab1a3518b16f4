//! Distances between numbers, and lists of distances as single numbers.

use vstd::arithmetic::div_mod::{lemma_fundamental_div_mod, lemma_fundamental_div_mod_converse};
use vstd::prelude::*;

use crate::fitting::{lemma_raised, raised};
use crate::natural::Natural;

verus! {

/// A character that counts as white space.
pub open spec fn is_blank(c: char) -> bool {
    let n = c as u32;
    9 <= n <= 13 || n == 0x20 || n == 0x85 || n == 0xa0 || n == 0x1680 || 0x2000 <= n <= 0x200a || n
        == 0x2028 || n == 0x2029 || n == 0x202f || n == 0x205f || n == 0x3000
}

/// The text without white space at its front.
pub open spec fn trimmed_front(s: Seq<char>) -> Seq<char>
    decreases s.len(),
{
    if s.len() > 0 && is_blank(s[0]) {
        trimmed_front(s.skip(1))
    } else {
        s
    }
}

/// The text without white space at its end.
pub open spec fn trimmed_end(s: Seq<char>) -> Seq<char>
    decreases s.len(),
{
    if s.len() > 0 && is_blank(s.last()) {
        trimmed_end(s.drop_last())
    } else {
        s
    }
}

/// A decimal digit.
pub open spec fn is_digit(c: char) -> bool {
    '0' as u32 <= c as u32 <= '9' as u32
}

/// The number with these decimal digits.
pub open spec fn digits_number(s: Seq<char>) -> nat
    decreases s.len(),
{
    if s.len() == 0 {
        0
    } else {
        10 * digits_number(s.drop_last()) + (s.last() as u32 - '0' as u32) as nat
    }
}

/// Nothing but decimal digits, at least one.
pub open spec fn all_digits(s: Seq<char>) -> bool {
    s.len() > 0 && forall|i: int| 0 <= i < s.len() ==> is_digit(#[trigger] s[i])
}

/// The number on a line: digits behind an optional plus sign, between white space. Nothing where
/// the line holds anything else, or a number that is too large.
pub open spec fn line_number(line: Seq<char>) -> Option<u128> {
    let s = trimmed_end(trimmed_front(line));
    let body = if s.len() > 0 && s[0] == '+' {
        s.skip(1)
    } else {
        s
    };
    number_of(body)
}

/// The number that the digits stand for. Nothing where they are no digits or too large a number.
pub open spec fn number_of(body: Seq<char>) -> Option<u128> {
    if all_digits(body) && digits_number(body) <= u128::MAX {
        Some(digits_number(body) as u128)
    } else {
        None
    }
}

pub(crate) fn blank(c: char) -> (r: bool)
    ensures
        r == is_blank(c),
{
    let n = c as u32;
    (9 <= n && n <= 13) || n == 0x20 || n == 0x85 || n == 0xa0 || n == 0x1680 || (0x2000 <= n && n
        <= 0x200a) || n == 0x2028 || n == 0x2029 || n == 0x202f || n == 0x205f || n == 0x3000
}

proof fn lemma_digits_grow(s: Seq<char>, k: nat)
    requires
        k <= s.len(),
        forall|i: int| 0 <= i < s.len() ==> is_digit(#[trigger] s[i]),
    ensures
        digits_number(s.take(k as int)) <= digits_number(s),
    decreases s.len() - k,
{
    if k < s.len() {
        assert(s.take((k + 1) as int).drop_last() =~= s.take(k as int));
        assert(is_digit(s[k as int]));
        lemma_digits_grow(s, k + 1);
    } else {
        assert(s.take(k as int) =~= s);
    }
}

/// The place of the text between the white space.
fn trim(line: &[char]) -> (r: (usize, usize))
    ensures
        r.0 <= r.1 <= line@.len(),
        line@.subrange(r.0 as int, r.1 as int) == trimmed_end(trimmed_front(line@)),
{
    let mut lo: usize = 0;
    assert(line@.skip(0) =~= line@);
    while lo < line.len() && blank(line[lo])
        invariant
            lo <= line.len(),
            trimmed_front(line@.skip(lo as int)) == trimmed_front(line@),
        decreases line.len() - lo,
    {
        assert(line@.skip(lo as int).skip(1) =~= line@.skip(lo + 1));
        lo = lo + 1;
    }
    let ghost front = line@.skip(lo as int);
    let mut hi: usize = line.len();
    assert(front =~= line@.subrange(lo as int, hi as int));
    while hi > lo && blank(line[hi - 1])
        invariant
            lo <= hi <= line.len(),
            trimmed_end(line@.subrange(lo as int, hi as int)) == trimmed_end(front),
        decreases hi,
    {
        assert(line@.subrange(lo as int, hi as int).drop_last() =~= line@.subrange(
            lo as int,
            hi - 1,
        ));
        hi = hi - 1;
    }
    (lo, hi)
}

/// Reads the digits from `start` up to `hi`.
fn parse_digits(line: &[char], start: usize, hi: usize) -> (r: Option<u128>)
    requires
        start <= hi <= line@.len(),
    ensures
        r == number_of(line@.subrange(start as int, hi as int)),
{
    let ghost body = line@.subrange(start as int, hi as int);
    if start == hi {
        return None;
    }
    let mut n: u128 = 0;
    let mut i: usize = start;
    assert(body.take(0) =~= Seq::<char>::empty());
    while i < hi
        invariant
            start <= i <= hi <= line.len(),
            body == line@.subrange(start as int, hi as int),
            n == digits_number(body.take(i - start)),
            forall|j: int| 0 <= j < i - start ==> is_digit(#[trigger] body[j]),
            body.len() > 0,
        decreases hi - i,
    {
        let c = line[i];
        let code = c as u32;
        assert(body[i - start] == c);
        if code < 0x30 || code > 0x39 {
            assert(!is_digit(body[i - start]));
            return None;
        }
        let d = code - 0x30;
        proof {
            let now = body.take(i - start + 1);
            assert(now.drop_last() =~= body.take(i - start));
            assert(now.last() == c);
            if all_digits(body) {
                lemma_digits_grow(body, (i - start + 1) as nat);
            }
        }
        if n > (u128::MAX - d as u128) / 10 {
            return None;
        }
        n = n * 10 + d as u128;
        i = i + 1;
    }
    assert(body.take(i - start) =~= body);
    Some(n)
}

/// Reads the number on a line.
pub fn parse_number(line: &[char]) -> (r: Option<u128>)
    ensures
        r == line_number(line@),
{
    let (lo, hi) = trim(line);
    let ghost s = line@.subrange(lo as int, hi as int);
    let start: usize = if lo < hi && line[lo] == '+' {
        lo + 1
    } else {
        lo
    };
    proof {
        let body = line@.subrange(start as int, hi as int);
        assert(lo < hi ==> s[0] == line@[lo as int]);
        assert(if start > lo {
            s.skip(1) =~= body
        } else {
            s =~= body
        });
    }
    parse_digits(line, start, hi)
}

/// What a line holds that may hold a signed number.
#[derive(Clone, Copy, Debug, PartialEq, Eq)]
pub enum SignedLine {
    /// White space only.
    Blank,
    /// A number.
    Value(i64),
    /// Anything else, or a number that does not fit.
    Invalid,
}

/// What a line holds: nothing, or digits behind an optional sign, between white space.
pub open spec fn signed_line(line: Seq<char>) -> SignedLine {
    let s = trimmed_end(trimmed_front(line));
    if s.len() == 0 {
        SignedLine::Blank
    } else {
        let body = if s[0] == '+' || s[0] == '-' {
            s.skip(1)
        } else {
            s
        };
        let value = if s[0] == '-' {
            -digits_number(body)
        } else {
            digits_number(body) as int
        };
        if all_digits(body) && i64::MIN <= value <= i64::MAX {
            SignedLine::Value(value as i64)
        } else {
            SignedLine::Invalid
        }
    }
}

/// Reads the signed number on a line.
pub fn parse_signed(line: &[char]) -> (r: SignedLine)
    ensures
        r == signed_line(line@),
{
    let (lo, hi) = trim(line);
    if lo == hi {
        return SignedLine::Blank;
    }
    let ghost s = line@.subrange(lo as int, hi as int);
    let negative = line[lo] == '-';
    let start: usize = if negative || line[lo] == '+' {
        lo + 1
    } else {
        lo
    };
    proof {
        let body = line@.subrange(start as int, hi as int);
        assert(s[0] == line@[lo as int]);
        assert(if start > lo {
            s.skip(1) =~= body
        } else {
            s =~= body
        });
    }
    match parse_digits(line, start, hi) {
        Some(n) => if negative && n <= 0x8000_0000_0000_0000 {
            SignedLine::Value((-(n as i128)) as i64)
        } else if !negative && n <= 0x7fff_ffff_ffff_ffff {
            SignedLine::Value(n as i64)
        } else {
            SignedLine::Invalid
        },
        None => SignedLine::Invalid,
    }
}

/// The distance between two numbers.
pub open spec fn distance(a: u128, b: u128) -> u128 {
    if a < b {
        (b - a) as u128
    } else {
        (a - b) as u128
    }
}

/// The distances between neighbours.
pub open spec fn distances(data: Seq<u128>) -> Seq<u128> {
    Seq::new(
        if data.len() == 0 {
            0
        } else {
            (data.len() - 1) as nat
        },
        |i: int| distance(data[i], data[i + 1]),
    )
}

/// `low` and `high` are the least and the largest of the numbers. Where there are none, they are
/// the largest and the least number there is.
pub open spec fn is_range(s: Seq<u128>, low: u128, high: u128) -> bool {
    if s.len() == 0 {
        low == u128::MAX && high == 0
    } else {
        &&& s.contains(low)
        &&& s.contains(high)
        &&& forall|i: int| 0 <= i < s.len() ==> low <= #[trigger] s[i] <= high
    }
}

/// The range of the distances between neighbours, and how many numbers there are.
#[derive(Clone, Copy, Debug, PartialEq, Eq)]
pub struct Offsets {
    pub low: u128,
    pub high: u128,
    pub count: u128,
}

/// The distances between neighbours.
pub fn adjacent_offsets(data: &[u128]) -> (r: Vec<u128>)
    ensures
        r@ == distances(data@),
{
    let mut r: Vec<u128> = Vec::new();
    let mut i: usize = 1;
    while i < data.len()
        invariant
            1 <= i,
            data.len() > 0 ==> i <= data.len(),
            data.len() == 0 ==> i == 1,
            r.len() == i - 1,
            forall|j: int| 0 <= j < r.len() ==> r@[j] == distance(data@[j], data@[j + 1]),
        decreases data.len() - i,
    {
        let a = data[i - 1];
        let b = data[i];
        let d = if a < b {
            b - a
        } else {
            a - b
        };
        r.push(d);
        i = i + 1;
    }
    assert(r@ =~= distances(data@));
    r
}

/// The range of the distances between neighbours, and the number of numbers.
pub fn calculate_offsets(data: Vec<u128>) -> (r: Offsets)
    ensures
        is_range(distances(data@), r.low, r.high),
        r.count == data.len(),
{
    let offsets = adjacent_offsets(data.as_slice());
    let (low, high) = offset_range(&offsets);
    Offsets { low, high, count: data.len() as u128 }
}

/// The least and the largest of the numbers.
pub fn offset_range(offsets: &Vec<u128>) -> (r: (u128, u128))
    ensures
        is_range(offsets@, r.0, r.1),
{
    let mut low: u128 = u128::MAX;
    let mut high: u128 = 0;
    let mut i: usize = 0;
    while i < offsets.len()
        invariant
            i <= offsets.len(),
            is_range(offsets@.take(i as int), low, high),
        decreases offsets.len() - i,
    {
        let d = offsets[i];
        let ghost before = offsets@.take(i as int);
        let ghost now = offsets@.take(i + 1);
        let ghost was = (low, high);
        if d < low {
            low = d;
        }
        if d > high {
            high = d;
        }
        proof {
            assert(now[i as int] == d);
            assert(now.contains(d));
            assert forall|j: int| 0 <= j < now.len() implies low <= #[trigger] now[j] <= high by {
                if j < i {
                    assert(before[j] == now[j]);
                }
            }
            if i > 0 {
                assert(before.contains(was.0) && before.contains(was.1));
                let a = choose|a: int| 0 <= a < before.len() && before[a] == was.0;
                let b = choose|b: int| 0 <= b < before.len() && before[b] == was.1;
                assert(now[a] == was.0 && now[b] == was.1);
            }
        }
        i = i + 1;
    }
    assert(offsets@.take(i as int) =~= offsets@);
    (low, high)
}

/// Every number lies between `low` and the `base` numbers from there on.
pub open spec fn in_base(s: Seq<u128>, low: nat, base: nat) -> bool {
    forall|i: int| 0 <= i < s.len() ==> low <= (#[trigger] s[i]) < low + base
}

/// The list as one number: the distances from `low` are its digits, the first the highest.
pub open spec fn packed(s: Seq<u128>, low: nat, base: nat) -> nat
    decreases s.len(),
{
    if s.len() == 0 {
        0
    } else {
        packed(s.drop_last(), low, base) * base + (s.last() - low) as nat
    }
}

/// The list of `count` numbers that `seed` stands for.
pub open spec fn unpacked(seed: nat, low: nat, base: nat, count: nat) -> Seq<u128>
    decreases count,
{
    if count == 0 {
        Seq::empty()
    } else {
        unpacked(seed / base, low, base, (count - 1) as nat).push((seed % base + low) as u128)
    }
}

/// A list is unpacked from what it was packed to, which is less than the number of such lists.
pub proof fn lemma_unpack_packed(s: Seq<u128>, low: nat, base: nat)
    requires
        base > 0,
        in_base(s, low, base),
    ensures
        unpacked(packed(s, low, base), low, base, s.len()) == s,
        packed(s, low, base) < raised(base, s.len()),
    decreases s.len(),
{
    lemma_raised(base, 0);
    if s.len() > 0 {
        let front = s.drop_last();
        assert forall|i: int| 0 <= i < front.len() implies low <= (#[trigger] front[i]) < low
            + base by {
            assert(front[i] == s[i]);
        }
        lemma_unpack_packed(front, low, base);
        let q = packed(front, low, base);
        assert(low <= s[s.len() - 1] < low + base);
        let d = (s.last() - low) as nat;
        lemma_fundamental_div_mod_converse((q * base + d) as int, base as int, q as int, d as int);
        assert(front.push(s.last()) =~= s);
        lemma_raised(base, front.len());
        let p = raised(base, front.len());
        assert(q * base + d < p * base) by (nonlinear_arith)
            requires
                q + 1 <= p,
                d < base,
        ;
    }
}

/// Each number below the number of lists stands for a list in the range, and is what that list is
/// packed to.
pub proof fn lemma_pack_unpacked(seed: nat, low: nat, base: nat, count: nat)
    requires
        base > 0,
        seed < raised(base, count),
        low + base <= u128::MAX + 1,
    ensures
        unpacked(seed, low, base, count).len() == count,
        in_base(unpacked(seed, low, base, count), low, base),
        packed(unpacked(seed, low, base, count), low, base) == seed,
    decreases count,
{
    lemma_raised(base, 0);
    if count > 0 {
        let n = (count - 1) as nat;
        lemma_raised(base, n);
        lemma_fundamental_div_mod(seed as int, base as int);
        let q = seed / base;
        let p = raised(base, n);
        assert(q < p) by (nonlinear_arith)
            requires
                base * q <= seed,
                seed < p * base,
                base > 0,
        ;
        lemma_pack_unpacked(q, low, base, n);
        let front = unpacked(q, low, base, n);
        let s = unpacked(seed, low, base, count);
        assert(s.drop_last() =~= front);
        assert(q * base == base * q) by (nonlinear_arith);
        assert forall|i: int| 0 <= i < s.len() implies low <= (#[trigger] s[i]) < low + base by {
            if i < n {
                assert(s[i] == front[i]);
            }
        }
    }
}

/// The list of offsets as one number.
pub fn pack_offsets(offsets: &Vec<u128>, low: u128, high: u128) -> (seed: Natural)
    requires
        low <= high,
        high - low < u128::MAX,
        in_base(offsets@, low as nat, (high - low + 1) as nat),
    ensures
        seed@ == packed(offsets@, low as nat, (high - low + 1) as nat),
{
    let base = Natural::from_u128(high - low + 1);
    let mut seed = Natural::zero();
    let mut i: usize = 0;
    while i < offsets.len()
        invariant
            i <= offsets.len(),
            low <= high,
            base@ == high - low + 1,
            in_base(offsets@, low as nat, (high - low + 1) as nat),
            seed@ == packed(offsets@.take(i as int), low as nat, (high - low + 1) as nat),
        decreases offsets.len() - i,
    {
        let d = offsets[i];
        assert(low <= offsets@[i as int] < low + (high - low + 1));
        let digit = Natural::from_u128(d - low);
        proof {
            let now = offsets@.take(i + 1);
            assert(now.drop_last() =~= offsets@.take(i as int));
            assert(now.last() == d);
        }
        seed = seed.times(&base).plus(&digit);
        i = i + 1;
    }
    assert(offsets@.take(i as int) =~= offsets@);
    seed
}

/// There is a distance for each two neighbours, and added to the smaller one it gives the larger one.
pub proof fn lemma_distances(data: Seq<u128>, i: int)
    requires
        0 <= i < data.len() - 1,
    ensures
        distances(data).len() + 1 == data.len(),
        data[i] <= data[i + 1] ==> data[i] + distances(data)[i] == data[i + 1],
        data[i + 1] <= data[i] ==> data[i + 1] + distances(data)[i] == data[i],
{
}

/// The digits of a packed list have their places: those of the front count for the power of the base
/// with as many digits as follow, and one number alone is its distance from `low`.
pub proof fn lemma_packed_places(a: Seq<u128>, b: Seq<u128>, low: nat, base: nat)
    requires
        base > 0,
    ensures
        packed(a + b, low, base) == packed(a, low, base) * raised(base, b.len()) + packed(
            b,
            low,
            base,
        ),
        a.len() == 1 && a[0] >= low ==> packed(a, low, base) == a[0] - low,
    decreases b.len(),
{
    lemma_raised(base, 0);
    let p = packed(a, low, base);
    if b.len() == 0 {
        assert(a + b =~= a);
        assert(p * 1 == p);
    } else {
        let front = b.drop_last();
        lemma_packed_places(a, front, low, base);
        assert((a + b).drop_last() =~= a + front);
        lemma_raised(base, front.len());
        let q = packed(front, low, base);
        let r = raised(base, front.len());
        assert((p * r + q) * base == p * (r * base) + q * base) by (nonlinear_arith);
    }
    if a.len() == 1 {
        reveal_with_fuel(packed, 2);
        assert(0 * base == 0);
    }
}

} // verus!
