//! Little-endian integers, byte counts and copies of byte slices.

use vstd::arithmetic::div_mod::lemma_div_denominator;
use vstd::arithmetic::power::{lemma_pow_positive, pow};
use vstd::prelude::*;

verus! {

/// `256^n`.
pub open spec fn pow256(n: nat) -> nat
    decreases n,
{
    if n == 0 {
        1
    } else {
        256 * pow256((n - 1) as nat)
    }
}

/// The low `n` bytes of `v`, least significant first.
pub open spec fn le_bytes(v: nat, n: nat) -> Seq<u8>
    decreases n,
{
    if n == 0 {
        seq![]
    } else {
        seq![(v % 256) as u8] + le_bytes(v / 256, (n - 1) as nat)
    }
}

/// The number whose base-256 digits, least significant first, are `s`.
pub open spec fn le_value(s: Seq<u8>) -> nat
    decreases s.len(),
{
    if s.len() == 0 {
        0
    } else {
        s[0] as nat + 256 * le_value(s.skip(1))
    }
}

pub proof fn lemma_le_bytes_len(v: nat, n: nat)
    ensures
        le_bytes(v, n).len() == n,
    decreases n,
{
    if n > 0 {
        lemma_le_bytes_len(v / 256, (n - 1) as nat);
    }
}

pub proof fn lemma_le_value_bound(s: Seq<u8>)
    ensures
        le_value(s) < pow256(s.len()),
    decreases s.len(),
{
    if s.len() > 0 {
        lemma_le_value_bound(s.skip(1));
    }
}

/// Writing a number in little-endian order and reading it back gives the number,
/// whenever it fits in the bytes that it was given.
pub proof fn lemma_le_roundtrip(v: nat, n: nat)
    requires
        v < pow256(n),
    ensures
        le_value(le_bytes(v, n)) == v,
    decreases n,
{
    lemma_le_bytes_len(v, n);
    if n > 0 {
        let rest = le_bytes(v / 256, (n - 1) as nat);
        lemma_le_roundtrip(v / 256, (n - 1) as nat);
        assert(le_bytes(v, n).skip(1) =~= rest);
    }
}

pub proof fn lemma_pow256_values()
    ensures
        pow256(1) == 0x100,
        pow256(2) == 0x1_0000,
        pow256(4) == 0x1_0000_0000,
        pow256(8) == 0x1_0000_0000_0000_0000,
{
    reveal_with_fuel(pow256, 9);
}

/// Appends the low `n` bytes of `v`, least significant first.
pub fn push_le(out: &mut Vec<u8>, v: u64, n: usize)
    ensures
        final(out)@ == old(out)@ + le_bytes(v as nat, n as nat),
{
    let ghost before = out@;
    let mut rest: u64 = v;
    let mut i: usize = 0;
    while i < n
        invariant
            i <= n,
            before + le_bytes(v as nat, n as nat) == out@ + le_bytes(rest as nat, (n - i) as nat),
        decreases n - i,
    {
        let ghost now = out@;
        out.push((rest % 256) as u8);
        assert(out@ + le_bytes((rest / 256) as nat, (n - i - 1) as nat) =~= now + le_bytes(
            rest as nat,
            (n - i) as nat,
        ));
        rest = rest / 256;
        i += 1;
    }
}

/// The number held, least significant byte first, in the `n` bytes of `data` from `at` on.
pub fn read_le(data: &[u8], at: usize, n: usize) -> (v: u64)
    requires
        at + n <= data.len(),
        n <= 8,
    ensures
        v as nat == le_value(data@.subrange(at as int, at + n)),
{
    let mut v: u64 = 0;
    let mut i: usize = n;
    proof {
        assert(data@.subrange(at + n, at + n) =~= seq![]);
        lemma_le_value_bound(data@.subrange(at + n, at + n));
    }
    while i > 0
        invariant
            i <= n,
            n <= 8,
            at + n <= data.len(),
            v as nat == le_value(data@.subrange(at + i, at + n)),
        decreases i,
    {
        let ghost tail = data@.subrange(at + i, at + n);
        i -= 1;
        proof {
            let s = data@.subrange(at + i, at + n);
            assert(s.skip(1) =~= tail);
            lemma_le_value_bound(s);
            lemma_pow256_monotonic((n - i) as nat, 8);
            lemma_pow256_values();
        }
        v = v * 256 + data[at + i] as u64;
    }
    v
}

pub proof fn lemma_pow256_monotonic(a: nat, b: nat)
    requires
        a <= b,
    ensures
        0 < pow256(a) <= pow256(b),
    decreases b,
{
    if b > 0 {
        if a < b {
            lemma_pow256_monotonic(a, (b - 1) as nat);
        } else {
            lemma_pow256_monotonic((a - 1) as nat, (b - 1) as nat);
        }
    }
}

/// An owned copy of `s`.
pub fn copy_of(s: &[u8]) -> (v: Vec<u8>)
    ensures
        v@ == s@,
{
    let mut v: Vec<u8> = Vec::with_capacity(s.len());
    v.extend_from_slice(s);
    v
}

/// `s` back to front.
pub fn reversed(s: &[u8]) -> (v: Vec<u8>)
    ensures
        v@ == s@.reverse(),
{
    let mut v: Vec<u8> = Vec::with_capacity(s.len());
    let mut i: usize = s.len();
    while i > 0
        invariant
            i <= s.len(),
            v@.len() == s.len() - i,
            forall|j: int| 0 <= j < v@.len() ==> v@[j] == s@[s.len() - 1 - j],
        decreases i,
    {
        i -= 1;
        v.push(s[i]);
    }
    assert(v@ =~= s@.reverse());
    v
}

/// Whether `a` and `b` hold the same bytes.
pub fn same_bytes(a: &[u8], b: &[u8]) -> (r: bool)
    ensures
        r == (a@ == b@),
{
    if a.len() != b.len() {
        return false;
    }
    let mut i: usize = 0;
    while i < a.len()
        invariant
            i <= a.len(),
            a.len() == b.len(),
            forall|j: int| 0 <= j < i ==> a@[j] == b@[j],
        decreases a.len() - i,
    {
        if a[i] != b[i] {
            return false;
        }
        i += 1;
    }
    assert(a@ =~= b@);
    true
}

/// How often `b` occurs in `s`.
pub open spec fn count_of(s: Seq<u8>, b: u8) -> nat
    decreases s.len(),
{
    if s.len() == 0 {
        0
    } else {
        count_of(s.drop_last(), b) + if s.last() == b {
            1nat
        } else {
            0
        }
    }
}

pub proof fn lemma_count_of_bound(s: Seq<u8>, b: u8)
    ensures
        count_of(s, b) <= s.len(),
        count_of(s, b) > 0 <==> s.contains(b),
    decreases s.len(),
{
    if s.len() > 0 {
        lemma_count_of_bound(s.drop_last(), b);
        if s.drop_last().contains(b) {
            let i = choose|i: int| 0 <= i < s.drop_last().len() && s.drop_last()[i] == b;
            assert(s[i] == b);
        }
        if s.contains(b) && s.last() != b {
            let i = choose|i: int| 0 <= i < s.len() && s[i] == b;
            assert(s.drop_last()[i] == b);
        }
        if s.last() == b {
            assert(s[s.len() - 1] == b);
        }
    }
}

/// How often each byte value occurs in `data`.
pub fn byte_counts(data: &[u8]) -> (counts: [u64; 256])
    ensures
        forall|b: u8| (#[trigger] counts@[b as int]) as nat == count_of(data@, b),
{
    let mut counts: [u64; 256] = [0u64; 256];
    let mut i: usize = 0;
    assert(data@.take(0) =~= seq![]);
    while i < data.len()
        invariant
            i <= data.len(),
            forall|b: u8| (#[trigger] counts@[b as int]) as nat == count_of(data@.take(i as int), b),
        decreases data.len() - i,
    {
        let b = data[i];
        let ghost old_counts = counts@;
        proof {
            assert(data@.take(i + 1).drop_last() =~= data@.take(i as int));
            lemma_count_of_bound(data@.take(i as int), b);
            assert(old_counts[b as int] as nat == count_of(data@.take(i as int), b));
        }
        counts[b as usize] = counts[b as usize] + 1;
        proof {
            assert forall|c: u8| (#[trigger] counts@[c as int]) as nat == count_of(
                data@.take(i + 1),
                c,
            ) by {
                assert(old_counts[c as int] as nat == count_of(data@.take(i as int), c));
            }
        }
        i += 1;
    }
    assert(data@.take(data.len() as int) =~= data@);
    counts
}

/// The count of a byte value is the number of places that it has, in whatever order the bytes stand.
pub proof fn lemma_count_is_multiplicity(s: Seq<u8>, b: u8)
    ensures
        count_of(s, b) == s.to_multiset().count(b),
    decreases s.len(),
{
    broadcast use vstd::seq_lib::group_to_multiset_ensures;

    if s.len() > 0 {
        lemma_count_is_multiplicity(s.drop_last(), b);
        assert(s.drop_last().push(s.last()) =~= s);
    }
}

/// Byte `i` of a number is what is left of it, in the last eight bits, without the `i` bytes below:
/// the lowest byte comes first.
pub proof fn lemma_le_digits(v: nat, n: nat, i: nat)
    requires
        i < n,
    ensures
        le_bytes(v, n).len() == n,
        le_bytes(v, n)[i as int] == (v / pow(256, i) as nat) % 256,
    decreases n,
{
    reveal(pow);
    lemma_le_bytes_len(v, n);
    let rest = le_bytes(v / 256, (n - 1) as nat);
    lemma_le_bytes_len(v / 256, (n - 1) as nat);
    if i == 0 {
        assert(v / 1 == v);
    } else {
        let k = (i - 1) as nat;
        lemma_le_digits(v / 256, (n - 1) as nat, k);
        lemma_pow_positive(256, k);
        assert(le_bytes(v, n)[i as int] == rest[k as int]);
        lemma_div_denominator(v as int, 256, pow(256, k));
    }
}

} // verus!
