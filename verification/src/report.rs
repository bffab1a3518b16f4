//! A list of numbers as a seed, and the report on the equation for it.

use vstd::prelude::*;
use vstd::string::*;

use crate::natural::{decimal, Natural};
use crate::offsets::{
    adjacent_offsets, distances, in_base, is_range, lemma_unpack_packed, offset_range, pack_offsets,
    packed, unpacked,
};
use crate::reading::{lemma_read_decimal, read_number};
use crate::solver::SolverResult;
use crate::text::push_decimal;

verus! {

/// The range of the distances between neighbours, and those distances as one number.
#[derive(Debug)]
pub struct Folded {
    pub low: u128,
    pub high: u128,
    pub seed: Natural,
}

/// Why a list has no seed.
#[derive(Clone, Copy, Debug, PartialEq, Eq)]
pub enum FoldError {
    /// There are no two neighbours.
    TooFew,
    /// The distances cover the whole range of numbers.
    TooWide,
}

/// The distances hold both the least and the largest number there is.
pub open spec fn too_wide(s: Seq<u128>) -> bool {
    s.contains(0) && s.contains(u128::MAX)
}

/// The seed of a list of numbers: the distances between neighbours, as digits of a base that is
/// just large enough for them.
pub fn fold_numbers(data: &[u128]) -> (r: Result<Folded, FoldError>)
    ensures
        match r {
            Ok(f) => data.len() >= 2 && !too_wide(distances(data@)) && is_range(
                distances(data@),
                f.low,
                f.high,
            ) && f.low <= f.high && f.high - f.low < u128::MAX && f.seed@ == packed(
                distances(data@),
                f.low as nat,
                (f.high - f.low + 1) as nat,
            ),
            Err(FoldError::TooFew) => data.len() < 2,
            Err(FoldError::TooWide) => data.len() >= 2 && too_wide(distances(data@)),
        },
{
    if data.len() < 2 {
        return Err(FoldError::TooFew);
    }
    let offsets = adjacent_offsets(data);
    let (low, high) = offset_range(&offsets);
    proof {
        lemma_range(offsets@, low, high);
    }
    if high - low == u128::MAX {
        return Err(FoldError::TooWide);
    }
    let seed = pack_offsets(&offsets, low, high);
    Ok(Folded { low, high, seed })
}

proof fn lemma_range(s: Seq<u128>, low: u128, high: u128)
    requires
        s.len() > 0,
        is_range(s, low, high),
    ensures
        low <= high,
        in_base(s, low as nat, (high - low + 1) as nat),
        too_wide(s) <==> high - low == u128::MAX,
{
    assert(low <= s[0] <= high);
    assert forall|i: int| 0 <= i < s.len() implies low <= (#[trigger] s[i]) < low + (high - low
        + 1) by {}
    if too_wide(s) {
        let a = choose|a: int| 0 <= a < s.len() && s[a] == 0;
        let b = choose|b: int| 0 <= b < s.len() && s[b] == u128::MAX;
        assert(low <= s[a] && s[b] <= high);
    }
}

/// The seed holds the list of distances: unpacking it with the range and the number of distances
/// gives them back.
pub proof fn lemma_seed_unpacks(data: Seq<u128>, low: u128, high: u128)
    requires
        data.len() >= 2,
        is_range(distances(data), low, high),
    ensures
        ({
            let base = (high - low + 1) as nat;
            let seed = packed(distances(data), low as nat, base);
            unpacked(seed, low as nat, base, (data.len() - 1) as nat) == distances(data)
        }),
{
    lemma_range(distances(data), low, high);
    lemma_unpack_packed(distances(data), low as nat, (high - low + 1) as nat);
}

/// The line on the rest, which is left out where it is zero.
pub open spec fn magic_text(sign: i8, magic: nat) -> Seq<char> {
    if magic == 0 {
        Seq::empty()
    } else if sign < 0 {
        "Magic: -"@ + decimal(magic) + "\n"@
    } else {
        "Magic: "@ + decimal(magic) + "\n"@
    }
}

/// The notation of a truth value.
pub open spec fn bool_text(b: bool) -> Seq<char> {
    if b {
        "true"@
    } else {
        "false"@
    }
}

/// The report: range, number of numbers, seed, equation, rest, and whether the equation holds.
pub open spec fn report_text(
    low: u128,
    high: u128,
    count: nat,
    seed: nat,
    equation: Seq<char>,
    magic_sign: i8,
    magic: nat,
    ok: bool,
) -> Seq<char> {
    "Offset Low: "@ + decimal(low as nat) + "\nOffset High: "@ + decimal(high as nat)
        + "\nCount: "@ + decimal(count) + "\nSeed:\n"@ + decimal(seed) + "\nSolver Equation:\n"@
        + equation + "\n"@ + magic_text(magic_sign, magic) + "Verify: "@ + bool_text(ok) + "\n"@
}

/// The report on the equation for a folded list of `count` numbers.
pub fn report(folded: &Folded, count: usize, result: &SolverResult) -> (out: String)
    ensures
        out@ == report_text(
            folded.low,
            folded.high,
            count as nat,
            folded.seed@,
            result.equation@,
            result.magic_sign,
            result.magic@,
            result.ok,
        ),
{
    let mut out = String::from_str("Offset Low: ");
    push_decimal(&mut out, folded.low);
    out.append("\nOffset High: ");
    push_decimal(&mut out, folded.high);
    out.append("\nCount: ");
    push_decimal(&mut out, count as u128);
    out.append("\nSeed:\n");
    out.append(folded.seed.to_decimal().as_str());
    out.append("\nSolver Equation:\n");
    out.append(result.equation.as_str());
    out.append("\n");
    let ghost before = out@;
    if !result.magic.is_zero() {
        if result.magic_sign < 0 {
            out.append("Magic: -");
        } else {
            out.append("Magic: ");
        }
        out.append(result.magic.to_decimal().as_str());
        out.append("\n");
    }
    assert(out@ =~= before + magic_text(result.magic_sign, result.magic@));
    out.append("Verify: ");
    if result.ok {
        out.append("true");
    } else {
        out.append("false");
    }
    out.append("\n");
    out
}

/// The numbers of a report can be read back from it, each behind its label.
pub proof fn lemma_report_reads_back(
    low: u128,
    high: u128,
    count: nat,
    seed: nat,
    equation: Seq<char>,
    magic_sign: i8,
    magic: nat,
    ok: bool,
)
    ensures
        ({
            let r = report_text(low, high, count, seed, equation, magic_sign, magic, ok);
            let a = 12 + decimal(low as nat).len() as int;
            let b = a + 14 + decimal(high as nat).len();
            let c = b + 8 + decimal(count).len();
            let d = c + 7 + decimal(seed).len();
            &&& read_number(r.subrange(12, a)) == Some(low as nat)
            &&& read_number(r.subrange(a + 14, b)) == Some(high as nat)
            &&& read_number(r.subrange(b + 8, c)) == Some(count)
            &&& read_number(r.subrange(c + 7, d)) == Some(seed)
            &&& r.subrange(d + 18, d + 18 + equation.len()) == equation
        }),
{
    reveal_strlit("Offset Low: ");
    reveal_strlit("\nOffset High: ");
    reveal_strlit("\nCount: ");
    reveal_strlit("\nSeed:\n");
    reveal_strlit("\nSolver Equation:\n");
    lemma_read_decimal(low as nat);
    lemma_read_decimal(high as nat);
    lemma_read_decimal(count);
    lemma_read_decimal(seed);
    let r = report_text(low, high, count, seed, equation, magic_sign, magic, ok);
    let a = 12 + decimal(low as nat).len() as int;
    let b = a + 14 + decimal(high as nat).len();
    let c = b + 8 + decimal(count).len();
    let d = c + 7 + decimal(seed).len();
    assert(r.subrange(12, a) =~= decimal(low as nat));
    assert(r.subrange(a + 14, b) =~= decimal(high as nat));
    assert(r.subrange(b + 8, c) =~= decimal(count));
    assert(r.subrange(c + 7, d) =~= decimal(seed));
    assert(r.subrange(d + 18, d + 18 + equation.len()) =~= equation);
}

/// A rest of zero is not mentioned; another one is, with a minus sign where it is taken away.
pub proof fn lemma_magic_reads_back(sign: i8, magic: nat)
    ensures
        magic == 0 ==> magic_text(sign, magic).len() == 0,
        magic > 0 ==> {
            let s = magic_text(sign, magic);
            let from: int = if sign < 0 {
                8
            } else {
                7
            };
            &&& s.len() > from
            &&& read_number(s.subrange(from, s.len() - 1)) == Some(magic)
            &&& sign < 0 ==> s[7] == '-'
        },
{
    reveal_strlit("Magic: -");
    reveal_strlit("Magic: ");
    reveal_strlit("\n");
    lemma_read_decimal(magic);
    let s = magic_text(sign, magic);
    if magic > 0 {
        let from: int = if sign < 0 {
            8
        } else {
            7
        };
        assert(s.subrange(from, s.len() - 1) =~= decimal(magic));
    }
}

} // verus!
