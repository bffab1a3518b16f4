//! Byte strings and sizes for the reader.

use vstd::arithmetic::power2::{lemma2_to64, lemma_pow2_unfold, pow2};
use vstd::prelude::*;
use vstd::string::*;

use crate::natural::decimal;
use crate::reading::{lemma_read_decimal, read_number};
use crate::rounding::{lemma_rounded_is_nearest, round_half_even};
use crate::text::push_decimal;

verus! {

/// A byte that shows as an ASCII character, or a space.
pub open spec fn is_printable(b: u8) -> bool {
    0x20 <= b <= 0x7e
}

/// The lower-case hexadecimal digit for `d`.
pub open spec fn hex_char(d: u8) -> char {
    if d < 10 {
        (0x30 + d) as char
    } else {
        (0x57 + d) as char
    }
}

/// Two hexadecimal digits for each byte.
pub open spec fn hex_text(s: Seq<u8>) -> Seq<char>
    decreases s.len(),
{
    if s.len() == 0 {
        Seq::empty()
    } else {
        hex_text(s.drop_last()).push(hex_char(s.last() / 16)).push(hex_char(s.last() % 16))
    }
}

/// The bytes as ASCII characters.
pub open spec fn ascii_text(s: Seq<u8>) -> Seq<char> {
    Seq::new(s.len(), |i: int| s[i] as char)
}

/// How a byte string is shown: as text where all of it is printable, else in hexadecimal digits,
/// of which 64 bytes' are shown.
pub open spec fn shown(s: Seq<u8>) -> Seq<char> {
    if s.len() == 0 {
        "<empty>"@
    } else if forall|i: int| 0 <= i < s.len() ==> is_printable(#[trigger] s[i]) {
        ascii_text(s)
    } else if s.len() > 64 {
        "0x"@ + hex_text(s.take(64)) + ".."@
    } else {
        "0x"@ + hex_text(s)
    }
}

fn hex_digit(d: u8) -> (c: char)
    requires
        d < 16,
    ensures
        c == hex_char(d),
{
    if d < 10 {
        (0x30 + d) as char
    } else {
        (0x57 + d) as char
    }
}

/// Shows a byte string.
pub fn hex_fmt(bytes: &[u8]) -> (out: String)
    ensures
        out@ == shown(bytes@),
{
    if bytes.len() == 0 {
        return String::from_str("<empty>");
    }
    let mut i: usize = 0;
    while i < bytes.len() && 0x20 <= bytes[i] && bytes[i] <= 0x7e
        invariant
            i <= bytes.len(),
            forall|j: int| 0 <= j < i ==> is_printable(#[trigger] bytes@[j]),
        decreases bytes.len() - i,
    {
        i = i + 1;
    }
    if i == bytes.len() {
        let mut out = String::new();
        let mut k: usize = 0;
        while k < bytes.len()
            invariant
                k <= bytes.len(),
                out@ =~= ascii_text(bytes@).take(k as int),
            decreases bytes.len() - k,
        {
            out.push(bytes[k] as char);
            k = k + 1;
        }
        assert(out@ =~= ascii_text(bytes@));
        return out;
    }
    assert(!is_printable(bytes@[i as int]));
    let max_show: usize = if bytes.len() < 64 {
        bytes.len()
    } else {
        64
    };
    let mut out = String::from_str("0x");
    let mut k: usize = 0;
    while k < max_show
        invariant
            k <= max_show <= bytes.len(),
            out@ =~= "0x"@ + hex_text(bytes@.take(k as int)),
        decreases max_show - k,
    {
        proof {
            assert(bytes@.take(k + 1).drop_last() =~= bytes@.take(k as int));
            assert(bytes@.take(k + 1).last() == bytes@[k as int]);
        }
        out.push(hex_digit(bytes[k] / 16));
        out.push(hex_digit(bytes[k] % 16));
        k = k + 1;
    }
    if bytes.len() > max_show {
        out.append("..");
    } else {
        assert(bytes@.take(k as int) =~= bytes@);
    }
    out
}

/// How many bits beyond 53 a number has.
pub open spec fn spare_bits(n: nat) -> nat
    decreases n,
{
    if n < 0x20_0000_0000_0000 {
        0
    } else {
        1 + spare_bits(n / 2)
    }
}

/// The number as a double holds it: rounded to 53 significant bits, halves to the even one.
pub open spec fn as_double(n: nat) -> nat {
    let unit = pow2(spare_bits(n));
    round_half_even(n, unit) * unit
}

proof fn lemma_spare_bits(n: nat, k: nat)
    requires
        n / pow2(k) < 0x20_0000_0000_0000,
        k > 0 ==> n / pow2((k - 1) as nat) >= 0x20_0000_0000_0000,
    ensures
        spare_bits(n) == k,
    decreases k,
{
    lemma2_to64();
    if k == 0 {
        assert(n / 1 == n);
    } else {
        lemma_pow2_unfold(k);
        let p = pow2((k - 1) as nat);
        vstd::arithmetic::power2::lemma_pow2_pos((k - 1) as nat);
        assert(n >= 0x20_0000_0000_0000) by {
            vstd::arithmetic::div_mod::lemma_div_is_ordered_by_denominator(n as int, 1, p as int);
        }
        vstd::arithmetic::div_mod::lemma_div_denominator(n as int, 2, p as int);
        if k > 1 {
            lemma_pow2_unfold((k - 1) as nat);
            let q = pow2((k - 2) as nat);
            vstd::arithmetic::power2::lemma_pow2_pos((k - 2) as nat);
            vstd::arithmetic::div_mod::lemma_div_denominator(n as int, 2, q as int);
        }
        lemma_spare_bits(n / 2, (k - 1) as nat);
    }
}

fn half_even(num: u128, den: u128) -> (r: u128)
    requires
        0 < den <= 0x1_0000_0000_0000_0000,
    ensures
        r as nat == round_half_even(num as nat, den as nat),
        r <= num,
{
    let q = num / den;
    let r = num % den;
    assert(q * den <= num) by (nonlinear_arith)
        requires
            q == num / den,
            den > 0,
    ;
    assert(q <= num) by (nonlinear_arith)
        requires
            q * den <= num,
            den >= 1,
    ;
    if 2 * r < den || (2 * r == den && q % 2 == 0) {
        q
    } else {
        assert(num == q * den + r) by (nonlinear_arith)
            requires
                q == num / den,
                r == num % den,
                den > 0,
        ;
        assert(q + 1 <= num) by (nonlinear_arith)
            requires
                num == q * den + r,
                2 * r >= den,
                den >= 1,
        ;
        q + 1
    }
}

fn to_double(n: usize) -> (r: u128)
    ensures
        r as nat == as_double(n as nat),
        r <= 2 * n,
{
    let wide = n as u128;
    let mut unit: u128 = 1;
    let ghost mut k: nat = 0;
    proof {
        lemma2_to64();
    }
    while wide / unit >= 0x20_0000_0000_0000
        invariant
            wide == n,
            unit as nat == pow2(k),
            1 <= unit <= 0x1_0000_0000_0000_0000,
            k > 0 ==> wide as nat / pow2((k - 1) as nat) >= 0x20_0000_0000_0000,
            unit == 1 || wide >= unit,
        decreases 0x1_0000_0000_0000_0000 - unit,
    {
        assert(unit < 0x1000) by (nonlinear_arith)
            requires
                wide / unit >= 0x20_0000_0000_0000,
                wide <= 0xffff_ffff_ffff_ffff,
                unit >= 1,
        ;
        assert(wide >= 2 * unit) by (nonlinear_arith)
            requires
                wide / unit >= 0x20_0000_0000_0000,
                unit >= 1,
        ;
        proof {
            lemma_pow2_unfold(k + 1);
            k = k + 1;
        }
        unit = unit * 2;
    }
    proof {
        lemma_spare_bits(n as nat, k);
        lemma_unit(wide, unit);
    }
    let q = half_even(wide, unit);
    q * unit
}

proof fn lemma_unit(n: u128, unit: u128)
    requires
        1 <= unit <= 0x1_0000_0000_0000_0000,
        n <= 0xffff_ffff_ffff_ffff,
        unit == 1 || n >= unit,
    ensures
        round_half_even(n as nat, unit as nat) * unit <= 2 * n,
{
    let q = n as nat / unit as nat;
    let r = n as nat % unit as nat;
    assert(n == q * unit + r && r < unit) by (nonlinear_arith)
        requires
            q == n as nat / unit as nat,
            r == n as nat % unit as nat,
            unit > 0,
    ;
    assert((q + 1) * unit == q * unit + unit) by (nonlinear_arith);
    if unit == 1 {
        assert(n as nat % 1 == 0);
        assert(q * 1 == q);
    } else {
        assert(q * unit >= unit) by (nonlinear_arith)
            requires
                n == q * unit + r,
                r < unit,
                n >= unit,
        ;
    }
}

/// The notation of a number of tenths, with one decimal.
pub open spec fn tenths_text(tenths: nat) -> Seq<char> {
    decimal(tenths / 10) + "."@ + decimal(tenths % 10)
}

/// How a size is shown: in bytes, and from a kilobyte on in kilobytes or megabytes too, rounded to
/// one decimal.
pub open spec fn size_text(b: nat) -> Seq<char> {
    if b < 1024 {
        decimal(b) + " B"@
    } else if b < 1048576 {
        decimal(b) + " ("@ + tenths_text(round_half_even(10 * b, 1024)) + " KB)"@
    } else {
        decimal(b) + " ("@ + tenths_text(round_half_even(10 * as_double(b), 1048576)) + " MB)"@
    }
}

/// Shows a size.
pub fn fmt_size(b: usize) -> (out: String)
    ensures
        out@ == size_text(b as nat),
{
    let mut out = String::new();
    push_decimal(&mut out, b as u128);
    assert(out@ =~= decimal(b as nat));
    if b < 1024 {
        out.append(" B");
        return out;
    }
    out.append(" (");
    let tenths = if b < 1048576 {
        half_even(10 * b as u128, 1024)
    } else {
        half_even(10 * to_double(b), 1048576)
    };
    let ghost before = out@;
    push_decimal(&mut out, tenths / 10);
    out.append(".");
    push_decimal(&mut out, tenths % 10);
    assert(out@ =~= before + tenths_text(tenths as nat));
    if b < 1048576 {
        out.append(" KB)");
    } else {
        out.append(" MB)");
    }
    out
}

/// The value of a lower-case hexadecimal digit.
pub open spec fn hex_value(c: char) -> int {
    if c as u32 <= '9' as u32 {
        c as u32 - '0' as u32
    } else {
        c as u32 - 'a' as u32 + 10
    }
}

/// Hexadecimal digits can be read back: there are two for each byte, and the two are its value.
pub proof fn lemma_hex_reads_back(s: Seq<u8>, i: int)
    requires
        0 <= i < s.len(),
    ensures
        hex_text(s).len() == 2 * s.len(),
        16 * hex_value(hex_text(s)[2 * i]) + hex_value(hex_text(s)[2 * i + 1]) == s[i],
    decreases s.len(),
{
    let front = s.drop_last();
    let b = s.last();
    if front.len() > 0 {
        lemma_hex_reads_back(
            front,
            if i < front.len() {
                i
            } else {
                0
            },
        );
    } else {
        assert(hex_text(front).len() == 0);
    }
    let t = hex_text(s);
    assert(t == hex_text(front).push(hex_char(b / 16)).push(hex_char(b % 16)));
    if i < front.len() {
        assert(t[2 * i] == hex_text(front)[2 * i]);
        assert(t[2 * i + 1] == hex_text(front)[2 * i + 1]);
    } else {
        assert(hex_value(hex_char(b / 16)) == b / 16);
        assert(hex_value(hex_char(b % 16)) == b % 16);
    }
}

/// A byte string of printable bytes is shown as it is. Another one is shown as `0x` and the digits of
/// its first 64 bytes, with two points behind where there are more.
pub proof fn lemma_shown(s: Seq<u8>)
    requires
        s.len() > 0,
    ensures
        (forall|i: int| 0 <= i < s.len() ==> 0x20 <= #[trigger] s[i] <= 0x7e) ==> shown(s).len()
            == s.len() && forall|i: int| 0 <= i < s.len() ==> #[trigger] shown(s)[i] as u32 == s[i],
        (exists|i: int| 0 <= i < s.len() && !(0x20 <= #[trigger] s[i] <= 0x7e)) ==> {
            let n = if s.len() <= 64 {
                s.len() as int
            } else {
                64
            };
            let tail: int = if s.len() <= 64 {
                0
            } else {
                2
            };
            &&& shown(s).len() == 2 + 2 * n + tail
            &&& shown(s)[0] == '0' && shown(s)[1] == 'x'
            &&& shown(s).subrange(2, 2 + 2 * n) == hex_text(s.take(n))
            &&& s.len() > 64 ==> shown(s)[130] == '.' && shown(s)[131] == '.'
        },
{
    reveal_strlit("0x");
    reveal_strlit("..");
    if forall|i: int| 0 <= i < s.len() ==> 0x20 <= #[trigger] s[i] <= 0x7e {
        assert forall|i: int| 0 <= i < s.len() implies is_printable(#[trigger] s[i]) by {}
    } else {
        let i = choose|i: int| 0 <= i < s.len() && !(0x20 <= #[trigger] s[i] <= 0x7e);
        assert(!is_printable(s[i]));
        let n = if s.len() <= 64 {
            s.len() as int
        } else {
            64
        };
        lemma_hex_reads_back(s.take(n), 0);
        if s.len() <= 64 {
            assert(s.take(n) =~= s);
        }
        assert(shown(s).subrange(2, 2 + 2 * n) =~= hex_text(s.take(n)));
    }
}

/// A size is shown with its bytes in front, and in brackets as tenths of a kilobyte below a megabyte:
/// the number of tenths is the nearest one.
pub proof fn lemma_size_shown(b: nat)
    ensures
        ({
            let n = decimal(b).len() as int;
            &&& size_text(b).len() > n
            &&& size_text(b).take(n) == decimal(b)
            &&& read_number(size_text(b).take(n)) == Some(b)
            &&& b < 1024 ==> size_text(b).skip(n) == " B"@
        }),
        1024 <= b < 1048576 ==> exists|tenths: nat|
            size_text(b) == decimal(b) + " ("@ + #[trigger] tenths_text(tenths) + " KB)"@ && 20 * b
                <= 1024 * (2 * tenths + 1) && 1024 * (2 * tenths - 1) <= 20 * b,
{
    reveal_strlit(" B");
    reveal_strlit(" (");
    reveal_strlit(" KB)");
    reveal_strlit(" MB)");
    lemma_read_decimal(b);
    let n = decimal(b).len() as int;
    assert(size_text(b).take(n) =~= decimal(b));
    if b < 1024 {
        assert(size_text(b).skip(n) =~= " B"@);
    } else if b < 1048576 {
        let tenths = round_half_even(10 * b, 1024);
        lemma_rounded_is_nearest(10 * b, 1024);
        assert(size_text(b) == decimal(b) + " ("@ + tenths_text(tenths) + " KB)"@);
    } else {
        assert(size_text(b).len() > n);
    }
}

/// From a megabyte on a size of up to 53 bits is shown as tenths of a megabyte: the nearest number of
/// them.
pub proof fn lemma_large_size_shown(b: nat)
    requires
        1048576 <= b < 0x20_0000_0000_0000,
    ensures
        exists|tenths: nat|
            size_text(b) == decimal(b) + " ("@ + #[trigger] tenths_text(tenths) + " MB)"@ && 20 * b
                <= 1048576 * (2 * tenths + 1) && 1048576 * (2 * tenths - 1) <= 20 * b,
{
    lemma2_to64();
    assert(as_double(b) == b) by {
        assert(spare_bits(b) == 0);
        assert(pow2(0) == 1);
        assert(round_half_even(b, 1) == b) by {
            assert(b % 1 == 0);
            assert(b / 1 == b);
        }
        assert(b * pow2(0) == b) by (nonlinear_arith)
            requires
                pow2(0) == 1,
        ;
    }
    let tenths = round_half_even(10 * b, 1048576);
    lemma_rounded_is_nearest(10 * b, 1048576);
    assert(size_text(b) == decimal(b) + " ("@ + tenths_text(tenths) + " MB)"@);
}

/// A number of tenths is shown as its whole part, a point and one digit.
pub proof fn lemma_tenths_shown(tenths: nat)
    ensures
        ({
            let s = tenths_text(tenths);
            let n = s.len() - 2;
            &&& n > 0
            &&& s[n] == '.'
            &&& read_number(s.take(n)) == Some(tenths / 10)
            &&& read_number(s.skip(n + 1)) == Some(tenths % 10)
        }),
{
    reveal_strlit(".");
    lemma_read_decimal(tenths / 10);
    lemma_read_decimal(tenths % 10);
    let s = tenths_text(tenths);
    assert(decimal(tenths % 10).len() == 1);
    assert(s.take(s.len() - 2) =~= decimal(tenths / 10));
    assert(s.skip(s.len() - 1) =~= decimal(tenths % 10));
}

} // verus!
