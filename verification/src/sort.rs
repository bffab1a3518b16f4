//! Stable orders of indices, by a merge sort.

use vstd::prelude::*;
use vstd::relations::{sorted_by, total_ordering};

verus! {

/// The indices from `lo` up to `hi`.
pub open spec fn index_range(lo: int, hi: int) -> Seq<usize> {
    Seq::new((hi - lo) as nat, |i: int| (lo + i) as usize)
}

/// The indices below `n` in the order `leq`.
pub open spec fn ordered(n: nat, leq: spec_fn(usize, usize) -> bool) -> Seq<usize> {
    index_range(0, n as int).sort_by(leq)
}

/// What `f` returns is what `leq` says.
pub open spec fn decides<F: Fn(usize, usize) -> bool>(
    f: F,
    n: nat,
    leq: spec_fn(usize, usize) -> bool,
) -> bool {
    &&& forall|a: usize, b: usize| a < n && b < n ==> #[trigger] call_requires(f, (a, b))
    &&& forall|a: usize, b: usize, r: bool| #[trigger]
        call_ensures(f, (a, b), r) ==> r == leq(a, b)
}

/// An order lists each index once.
pub proof fn lemma_ordered(n: nat, leq: spec_fn(usize, usize) -> bool)
    requires
        n <= usize::MAX,
        total_ordering(leq),
    ensures
        ordered(n, leq).len() == n,
        forall|i: int| 0 <= i < n ==> (#[trigger] ordered(n, leq)[i]) < n,
        forall|i: int, j: int|
            0 <= i < j < n ==> (#[trigger] ordered(n, leq)[i]) != (#[trigger] ordered(n, leq)[j])
                && leq(ordered(n, leq)[i], ordered(n, leq)[j]),
{
    broadcast use vstd::seq_lib::group_to_multiset_ensures;

    let base = index_range(0, n as int);
    let out = ordered(n, leq);
    base.lemma_sort_by_ensures(leq);
    assert(out.to_multiset().len() == out.len());
    assert(base.to_multiset().len() == base.len());
    assert(base.no_duplicates());
    base.lemma_multiset_has_no_duplicates();
    out.lemma_multiset_has_no_duplicates_conv();
    assert forall|i: int| 0 <= i < n implies (#[trigger] out[i]) < n by {
        assert(out.contains(out[i]));
        assert(base.contains(out[i]));
    }
    assert forall|i: int, j: int| 0 <= i < j < n implies (#[trigger] out[i]) != (
    #[trigger] out[j]) && leq(out[i], out[j]) by {
        assert(sorted_by(out, leq));
    }
}

proof fn lemma_push_multiset(s: Seq<usize>, x: usize)
    ensures
        s.push(x).to_multiset() == s.to_multiset().insert(x),
{
    broadcast use vstd::seq_lib::group_to_multiset_ensures;

}

/// A list of `n` different indices below `n` holds each of them.
pub proof fn lemma_holds_all(order: Seq<usize>, n: nat, i: int)
    requires
        order.len() == n,
        forall|m: int| 0 <= m < n ==> (#[trigger] order[m]) < n,
        forall|m: int, l: int| 0 <= m < l < n ==> (#[trigger] order[m]) != (#[trigger] order[l]),
        0 <= i < n,
    ensures
        exists|m: int| 0 <= m < n && #[trigger] order[m] == i,
{
    let all = vstd::set_lib::set_int_range(0, n as int);
    let ints = order.map_values(|x: usize| x as int);
    let s = ints.to_set();
    vstd::set_lib::lemma_int_range(0, n as int);
    assert(ints.no_duplicates());
    ints.unique_seq_to_set();
    assert(s.subset_of(all));
    vstd::set_lib::lemma_subset_equality(s, all);
    assert(s.contains(i));
    let m = choose|m: int| 0 <= m < ints.len() && ints[m] == i;
    assert(order[m] == i);
}

fn merge<F: Fn(usize, usize) -> bool>(
    f: &F,
    a: Vec<usize>,
    b: Vec<usize>,
    Ghost(n): Ghost<nat>,
    Ghost(leq): Ghost<spec_fn(usize, usize) -> bool>,
) -> (out: Vec<usize>)
    requires
        total_ordering(leq),
        decides(*f, n, leq),
        sorted_by(a@, leq),
        sorted_by(b@, leq),
        forall|i: int| 0 <= i < a@.len() ==> (#[trigger] a@[i]) < n,
        forall|i: int| 0 <= i < b@.len() ==> (#[trigger] b@[i]) < n,
    ensures
        sorted_by(out@, leq),
        out@.to_multiset() == a@.to_multiset().add(b@.to_multiset()),
        forall|i: int| 0 <= i < out@.len() ==> (#[trigger] out@[i]) < n,
{
    broadcast use vstd::seq_lib::group_to_multiset_ensures;
    broadcast use vstd::multiset::group_multiset_axioms;

    let mut out: Vec<usize> = Vec::with_capacity(a.len());
    let mut i: usize = 0;
    let mut j: usize = 0;
    proof {
        assert(a@.take(0) =~= seq![]);
        assert(b@.take(0) =~= seq![]);
        assert(out@.to_multiset() =~= a@.take(0).to_multiset().add(b@.take(0).to_multiset()));
    }
    while i < a.len() || j < b.len()
        invariant
            i <= a.len(),
            j <= b.len(),
            total_ordering(leq),
            decides(*f, n, leq),
            sorted_by(a@, leq),
            sorted_by(b@, leq),
            sorted_by(out@, leq),
            forall|k: int| 0 <= k < a@.len() ==> (#[trigger] a@[k]) < n,
            forall|k: int| 0 <= k < b@.len() ==> (#[trigger] b@[k]) < n,
            forall|k: int| 0 <= k < out@.len() ==> (#[trigger] out@[k]) < n,
            out@.to_multiset() == a@.take(i as int).to_multiset().add(
                b@.take(j as int).to_multiset(),
            ),
            forall|k: int, l: int|
                0 <= k < out@.len() && i <= l < a@.len() ==> leq(
                    #[trigger] out@[k],
                    #[trigger] a@[l],
                ),
            forall|k: int, l: int|
                0 <= k < out@.len() && j <= l < b@.len() ==> leq(
                    #[trigger] out@[k],
                    #[trigger] b@[l],
                ),
        decreases a.len() - i + b.len() - j,
    {
        let from_a = if i == a.len() {
            false
        } else if j == b.len() {
            true
        } else {
            f(a[i], b[j])
        };
        let ghost before = out@;
        let ghost taken_a = a@.take(i as int);
        let ghost taken_b = b@.take(j as int);
        if from_a {
            proof {
                assert(a@.take(i + 1) =~= a@.take(i as int).push(a@[i as int]));
                assert forall|l: int| j <= l < b@.len() implies leq(a@[i as int], #[trigger] b@[l])
                    by {
                    assert(leq(a@[i as int], b@[j as int]));
                    if l > j {
                        assert(leq(b@[j as int], b@[l]));
                    }
                }
            }
            out.push(a[i]);
            i += 1;
        } else {
            proof {
                assert(b@.take(j + 1) =~= b@.take(j as int).push(b@[j as int]));
                assert forall|l: int| i <= l < a@.len() implies leq(b@[j as int], #[trigger] a@[l])
                    by {
                    assert(leq(b@[j as int], a@[i as int]));
                    if l > i {
                        assert(leq(a@[i as int], a@[l]));
                    }
                }
            }
            out.push(b[j]);
            j += 1;
        }
        proof {
            let x = out@.last();
            assert(out@ =~= before.push(x));
            lemma_push_multiset(before, x);
            lemma_push_multiset(taken_a, x);
            lemma_push_multiset(taken_b, x);
            assert(out@.to_multiset() =~= a@.take(i as int).to_multiset().add(
                b@.take(j as int).to_multiset(),
            ));
        }
    }
    proof {
        assert(a@.take(i as int) =~= a@);
        assert(b@.take(j as int) =~= b@);
    }
    out
}

fn sort_range<F: Fn(usize, usize) -> bool>(
    f: &F,
    lo: usize,
    hi: usize,
    Ghost(n): Ghost<nat>,
    Ghost(leq): Ghost<spec_fn(usize, usize) -> bool>,
) -> (out: Vec<usize>)
    requires
        total_ordering(leq),
        decides(*f, n, leq),
        lo < hi <= n,
    ensures
        sorted_by(out@, leq),
        out@.to_multiset() == index_range(lo as int, hi as int).to_multiset(),
        forall|i: int| 0 <= i < out@.len() ==> (#[trigger] out@[i]) < n,
    decreases hi - lo,
{
    if hi - lo == 1 {
        let mut out: Vec<usize> = Vec::with_capacity(1);
        out.push(lo);
        assert(out@ =~= index_range(lo as int, hi as int));
        assert(leq(lo, lo));
        return out;
    }
    let mid = lo + (hi - lo) / 2;
    let a = sort_range(f, lo, mid, Ghost(n), Ghost(leq));
    let b = sort_range(f, mid, hi, Ghost(n), Ghost(leq));
    proof {
        let x = index_range(lo as int, mid as int);
        let y = index_range(mid as int, hi as int);
        assert(x + y =~= index_range(lo as int, hi as int));
        vstd::seq_lib::lemma_multiset_commutative(x, y);
    }
    merge(f, a, b, Ghost(n), Ghost(leq))
}

/// The indices below `n` in the order that `f` decides.
pub(crate) fn sort_indices<F: Fn(usize, usize) -> bool>(
    n: usize,
    f: &F,
    Ghost(leq): Ghost<spec_fn(usize, usize) -> bool>,
) -> (out: Vec<usize>)
    requires
        total_ordering(leq),
        decides(*f, n as nat, leq),
    ensures
        out@ == ordered(n as nat, leq),
{
    if n == 0 {
        let out: Vec<usize> = Vec::new();
        proof {
            lemma_ordered(0, leq);
            assert(out@ =~= ordered(0, leq));
        }
        return out;
    }
    let out = sort_range(f, 0, n, Ghost(n as nat), Ghost(leq));
    proof {
        let base = index_range(0, n as int);
        base.lemma_sort_by_ensures(leq);
        vstd::seq_lib::lemma_sorted_unique(out@, ordered(n as nat, leq), leq);
    }
    out
}

/// Whether index `a` comes no later than `b`: by the keys, larger first, and by the index where
/// the keys are equal.
pub open spec fn key_leq(keys: Seq<u128>, a: usize, b: usize) -> bool {
    let x = keys[a as int];
    let y = keys[b as int];
    x > y || (x == y && a <= b)
}

pub open spec fn key_order(keys: Seq<u128>) -> spec_fn(usize, usize) -> bool {
    |a: usize, b: usize| key_leq(keys, a, b)
}

/// The indices of `keys`, those with the larger keys first and otherwise in order.
pub open spec fn order_desc(keys: Seq<u128>) -> Seq<usize> {
    ordered(keys.len(), key_order(keys))
}

/// The order lists each index once.
pub proof fn lemma_order_desc(keys: Seq<u128>)
    requires
        keys.len() <= usize::MAX,
    ensures
        order_desc(keys).len() == keys.len(),
        forall|i: int| 0 <= i < keys.len() ==> (#[trigger] order_desc(keys)[i]) < keys.len(),
        forall|i: int, j: int|
            0 <= i < j < keys.len() ==> (#[trigger] order_desc(keys)[i]) != (
            #[trigger] order_desc(keys)[j]) && key_leq(
                keys,
                order_desc(keys)[i],
                order_desc(keys)[j],
            ),
{
    assert(total_ordering(key_order(keys)));
    lemma_ordered(keys.len(), key_order(keys));
    let out = order_desc(keys);
    assert forall|i: int, j: int| 0 <= i < j < keys.len() implies (#[trigger] out[i]) != (
    #[trigger] out[j]) && key_leq(keys, out[i], out[j]) by {
        assert(key_order(keys)(out[i], out[j]));
    }
}

/// The indices of `keys`, those with the larger keys first and otherwise in order.
pub fn sort_desc(keys: &[u128]) -> (out: Vec<usize>)
    ensures
        out@ == order_desc(keys@),
{
    let f = |a: usize, b: usize| -> (r: bool)
        requires
            a < keys@.len() && b < keys@.len(),
        ensures
            r == key_leq(keys@, a, b),
        {
            keys[a] > keys[b] || (keys[a] == keys[b] && a <= b)
        };
    assert(total_ordering(key_order(keys@)));
    sort_indices(keys.len(), &f, Ghost(key_order(keys@)))
}

/// Whether the byte string `a` comes no later than `b` in the order of a dictionary.
pub open spec fn bytes_leq(a: Seq<u8>, b: Seq<u8>) -> bool
    decreases a.len(),
{
    if a.len() == 0 {
        true
    } else if b.len() == 0 {
        false
    } else if a[0] != b[0] {
        a[0] < b[0]
    } else {
        bytes_leq(a.skip(1), b.skip(1))
    }
}

pub(crate) proof fn lemma_bytes_leq_reflexive(a: Seq<u8>)
    ensures
        bytes_leq(a, a),
    decreases a.len(),
{
    if a.len() > 0 {
        lemma_bytes_leq_reflexive(a.skip(1));
    }
}

proof fn lemma_bytes_leq_antisymmetric(a: Seq<u8>, b: Seq<u8>)
    requires
        bytes_leq(a, b),
        bytes_leq(b, a),
    ensures
        a == b,
    decreases a.len(),
{
    if a.len() == 0 {
        assert(a =~= b);
    } else if b.len() > 0 {
        lemma_bytes_leq_antisymmetric(a.skip(1), b.skip(1));
        assert(a =~= seq![a[0]] + a.skip(1));
        assert(b =~= seq![b[0]] + b.skip(1));
    }
}

proof fn lemma_bytes_leq_transitive(a: Seq<u8>, b: Seq<u8>, c: Seq<u8>)
    requires
        bytes_leq(a, b),
        bytes_leq(b, c),
    ensures
        bytes_leq(a, c),
    decreases a.len(),
{
    if a.len() > 0 && b.len() > 0 && c.len() > 0 && a[0] == b[0] && b[0] == c[0] {
        lemma_bytes_leq_transitive(a.skip(1), b.skip(1), c.skip(1));
    }
}

proof fn lemma_bytes_leq_total(a: Seq<u8>, b: Seq<u8>)
    ensures
        bytes_leq(a, b) || bytes_leq(b, a),
    decreases a.len(),
{
    if a.len() > 0 && b.len() > 0 && a[0] == b[0] {
        lemma_bytes_leq_total(a.skip(1), b.skip(1));
    }
}

/// Whether the byte string `a` comes no later than `b` in the order of a dictionary.
pub fn is_bytes_leq(a: &[u8], b: &[u8]) -> (r: bool)
    ensures
        r == bytes_leq(a@, b@),
{
    let mut i: usize = 0;
    proof {
        assert(a@.skip(0) =~= a@);
        assert(b@.skip(0) =~= b@);
    }
    while i < a.len() && i < b.len()
        invariant
            i <= a@.len(),
            i <= b@.len(),
            bytes_leq(a@, b@) == bytes_leq(a@.skip(i as int), b@.skip(i as int)),
        decreases a@.len() - i,
    {
        proof {
            assert(a@.skip(i as int).skip(1) =~= a@.skip(i + 1));
            assert(b@.skip(i as int).skip(1) =~= b@.skip(i + 1));
        }
        if a[i] != b[i] {
            return a[i] < b[i];
        }
        i += 1;
    }
    i == a.len()
}

/// What byte strings are ranked by: two numbers and the string itself.
pub struct Ranked {
    pub first: u128,
    pub second: usize,
    pub bytes: Seq<u8>,
}

/// Whether entry `a` comes no later than `b`: the larger first number, then the larger second
/// number, then the string that is first in the order of a dictionary, then the lower index.
pub open spec fn rank_leq(items: Seq<Ranked>, a: usize, b: usize) -> bool {
    let x = items[a as int];
    let y = items[b as int];
    if x.first != y.first {
        x.first > y.first
    } else if x.second != y.second {
        x.second > y.second
    } else if x.bytes != y.bytes {
        bytes_leq(x.bytes, y.bytes)
    } else {
        a <= b
    }
}

pub open spec fn rank_order(items: Seq<Ranked>) -> spec_fn(usize, usize) -> bool {
    |a: usize, b: usize| rank_leq(items, a, b)
}

/// The indices of `items` in rank order.
pub open spec fn order_ranked(items: Seq<Ranked>) -> Seq<usize> {
    ordered(items.len(), rank_order(items))
}

pub proof fn lemma_rank_order_total(items: Seq<Ranked>)
    ensures
        total_ordering(rank_order(items)),
{
    let leq = rank_order(items);
    assert forall|a: usize, b: usize| #[trigger] leq(a, b) && #[trigger] leq(b, a) implies a
        == b by {
        let x = items[a as int].bytes;
        let y = items[b as int].bytes;
        if x != y && items[a as int].first == items[b as int].first && items[a as int].second
            == items[b as int].second {
            lemma_bytes_leq_antisymmetric(x, y);
        }
    }
    assert forall|a: usize, b: usize, c: usize| #[trigger]
        leq(a, b) && #[trigger] leq(b, c) implies leq(a, c) by {
        let x = items[a as int].bytes;
        let y = items[b as int].bytes;
        let z = items[c as int].bytes;
        if items[a as int].first == items[b as int].first && items[a as int].second
            == items[b as int].second && items[b as int].first == items[c as int].first
            && items[b as int].second == items[c as int].second {
            if x != y && y != z {
                lemma_bytes_leq_transitive(x, y, z);
                if x == z {
                    lemma_bytes_leq_antisymmetric(x, y);
                }
            }
        }
    }
    assert forall|a: usize, b: usize| #[trigger] leq(a, b) || #[trigger] leq(b, a) by {
        lemma_bytes_leq_total(items[a as int].bytes, items[b as int].bytes);
    }
}

/// The entry of a ranking that three values make.
pub open spec fn ranked_entries(
    first: Seq<u128>,
    second: Seq<usize>,
    bytes: Seq<Vec<u8>>,
) -> Seq<Ranked> {
    Seq::new(
        first.len(),
        |i: int| Ranked { first: first[i], second: second[i], bytes: bytes[i]@ },
    )
}

/// The indices of the strings in `bytes` in rank order, by the numbers in `first` and `second`.
pub fn sort_ranked(first: &[u128], second: &[usize], bytes: &[Vec<u8>]) -> (out: Vec<usize>)
    requires
        first@.len() == second@.len(),
        first@.len() == bytes@.len(),
    ensures
        out@ == order_ranked(ranked_entries(first@, second@, bytes@)),
{
    let ghost items = ranked_entries(first@, second@, bytes@);
    let f = |a: usize, b: usize| -> (r: bool)
        requires
            a < first@.len() && b < first@.len(),
            first@.len() == second@.len() && first@.len() == bytes@.len(),
        ensures
            r == rank_leq(ranked_entries(first@, second@, bytes@), a, b),
        {
            if first[a] != first[b] {
                first[a] > first[b]
            } else if second[a] != second[b] {
                second[a] > second[b]
            } else {
                let forward = is_bytes_leq(&bytes[a], &bytes[b]);
                let backward = is_bytes_leq(&bytes[b], &bytes[a]);
                proof {
                    if forward && backward {
                        lemma_bytes_leq_antisymmetric(bytes@[a as int]@, bytes@[b as int]@);
                    }
                    lemma_bytes_leq_reflexive(bytes@[a as int]@);
                }
                if forward && backward {
                    a <= b
                } else {
                    forward
                }
            }
        };
    proof {
        lemma_rank_order_total(items);
    }
    sort_indices(first.len(), &f, Ghost(rank_order(items)))
}

/// The strings agree in front of `k` and differ there.
pub open spec fn differ_first(a: Seq<u8>, b: Seq<u8>, k: int) -> bool {
    &&& 0 <= k < a.len()
    &&& k < b.len()
    &&& a.take(k) == b.take(k)
    &&& a[k] != b[k]
}

/// In the order of a dictionary a string comes before another if it is the start of it, or if it has
/// the lower byte where the two first differ.
pub proof fn lemma_dictionary_order(a: Seq<u8>, b: Seq<u8>)
    ensures
        bytes_leq(a, b) <==> (a.len() <= b.len() && b.take(a.len() as int) == a) || exists|k: int|
            #[trigger] differ_first(a, b, k) && a[k] < b[k],
    decreases a.len(),
{
    if a.len() == 0 {
        assert(b.take(0) =~= a);
    } else if b.len() > 0 && a[0] == b[0] {
        let x = a.skip(1);
        let y = b.skip(1);
        lemma_dictionary_order(x, y);
        if x.len() <= y.len() && y.take(x.len() as int) == x {
            assert forall|i: int| 0 <= i < a.len() implies #[trigger] b[i] == a[i] by {
                if i > 0 {
                    assert(y.take(x.len() as int)[i - 1] == x[i - 1]);
                }
            }
            assert(b.take(a.len() as int) =~= a);
        }
        if exists|k: int| #[trigger] differ_first(x, y, k) && x[k] < y[k] {
            let k = choose|k: int| #[trigger] differ_first(x, y, k) && x[k] < y[k];
            assert forall|i: int| 0 <= i < k + 1 implies #[trigger] a[i] == b[i] by {
                if i > 0 {
                    assert(x.take(k)[i - 1] == y.take(k)[i - 1]);
                }
            }
            assert(a.take(k + 1) =~= b.take(k + 1));
            assert(differ_first(a, b, k + 1));
        }
        if a.len() <= b.len() && b.take(a.len() as int) == a {
            assert forall|i: int| 0 <= i < x.len() implies #[trigger] y[i] == x[i] by {
                assert(b.take(a.len() as int)[i + 1] == a[i + 1]);
            }
            assert(y.take(x.len() as int) =~= x);
        }
        if exists|k: int| #[trigger] differ_first(a, b, k) && a[k] < b[k] {
            let k = choose|k: int| #[trigger] differ_first(a, b, k) && a[k] < b[k];
            assert forall|i: int| 0 <= i < k - 1 implies #[trigger] x[i] == y[i] by {
                assert(a.take(k)[i + 1] == b.take(k)[i + 1]);
            }
            assert(x.take(k - 1) =~= y.take(k - 1));
            assert(differ_first(x, y, k - 1));
        }
    } else if b.len() > 0 {
        assert(a.take(0) =~= b.take(0));
        assert(differ_first(a, b, 0));
        if a.len() <= b.len() && b.take(a.len() as int) == a {
            assert(b.take(a.len() as int)[0] == a[0]);
        }
        assert forall|k: int| #[trigger] differ_first(a, b, k) implies k == 0 by {
            if k > 0 {
                assert(a.take(k)[0] == b.take(k)[0]);
            }
        }
    }
}

/// In the order of keys a larger key is never behind a smaller one, and equal keys keep their order.
pub proof fn lemma_larger_first(keys: Seq<u128>, i: int, j: int)
    requires
        keys.len() <= usize::MAX,
        0 <= i < j < keys.len(),
    ensures
        ({
            let a = order_desc(keys)[i];
            let b = order_desc(keys)[j];
            keys[a as int] > keys[b as int] || (keys[a as int] == keys[b as int] && a < b)
        }),
{
    lemma_order_desc(keys);
    assert(key_leq(keys, order_desc(keys)[i], order_desc(keys)[j]));
}

/// No key is left out of their order.
pub proof fn lemma_order_has(keys: Seq<u128>, k: int)
    requires
        keys.len() <= usize::MAX,
        0 <= k < keys.len(),
    ensures
        exists|i: int| 0 <= i < keys.len() && #[trigger] order_desc(keys)[i] == k,
{
    lemma_order_desc(keys);
    lemma_holds_all(order_desc(keys), keys.len(), k);
}

/// In the order of ranks the first number decides, the larger one first, then the second number, the
/// larger one first, then the order of a dictionary.
pub proof fn lemma_rank_decides(items: Seq<Ranked>, i: int, j: int)
    requires
        items.len() <= usize::MAX,
        0 <= i < j < items.len(),
    ensures
        ({
            let x = items[order_ranked(items)[i] as int];
            let y = items[order_ranked(items)[j] as int];
            &&& order_ranked(items)[i] != order_ranked(items)[j]
            &&& x.first >= y.first
            &&& x.first == y.first ==> x.second >= y.second
            &&& x.first == y.first && x.second == y.second ==> x.bytes == y.bytes || (x.bytes.len()
                <= y.bytes.len() && y.bytes.take(x.bytes.len() as int) == x.bytes) || exists|k: int|
                #[trigger] differ_first(x.bytes, y.bytes, k) && x.bytes[k] < y.bytes[k]
        }),
{
    lemma_rank_order_total(items);
    lemma_ordered(items.len(), rank_order(items));
    let a = order_ranked(items)[i];
    let b = order_ranked(items)[j];
    assert(rank_order(items)(a, b));
    lemma_dictionary_order(items[a as int].bytes, items[b as int].bytes);
}

} // verus!
