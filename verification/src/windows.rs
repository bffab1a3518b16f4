//! Counting the windows of a byte string in a hash map.

use ahash::AHashMap;
use vstd::prelude::*;

use crate::bytes::copy_of;

verus! {

/// The hash map of `ahash`, as an opaque type.
#[verifier::external_type_specification]
#[verifier::external_body]
#[verifier::reject_recursive_types(K)]
#[verifier::reject_recursive_types(V)]
#[verifier::reject_recursive_types(S)]
pub struct ExAHashMap<K, V, S>(AHashMap<K, V, S>);

/// The hasher of `ahash`, as an opaque type.
#[verifier::external_type_specification]
#[verifier::external_body]
pub struct ExRandomState(ahash::RandomState);

/// The counts that a map holds.
pub uninterp spec fn counts_in(m: AHashMap<Vec<u8>, usize>) -> Map<Seq<u8>, usize>;

/// No counts at all.
pub open spec fn no_counts() -> Map<Seq<u8>, usize> {
    Map::empty()
}

/// An empty map, by `ahash::AHashMap::new`. Claimed of it: it holds nothing.
#[verifier::external_body]
pub(crate) fn new_counts() -> (m: AHashMap<Vec<u8>, usize>)
    ensures
        counts_in(m) == no_counts(),
{
    AHashMap::new()
}

/// The count for a byte string, by `ahash::AHashMap::get`. Claimed of it: the value that the map
/// holds for the key, and `None` if it holds none.
#[verifier::external_body]
pub(crate) fn get_count(m: &AHashMap<Vec<u8>, usize>, key: &[u8]) -> (r: Option<usize>)
    ensures
        r == if counts_in(*m).contains_key(key@) {
            Some(counts_in(*m)[key@])
        } else {
            None
        },
{
    m.get(key).copied()
}

/// Sets the count for a byte string, by `ahash::AHashMap::insert`. Claimed of it: afterwards the
/// map holds the value for the key, and otherwise what it held.
#[verifier::external_body]
pub(crate) fn set_count(m: &mut AHashMap<Vec<u8>, usize>, key: Vec<u8>, count: usize)
    ensures
        counts_in(*final(m)) == counts_in(*old(m)).insert(key@, count),
{
    m.insert(key, count);
}

/// The window of `size` bytes at `p`.
pub open spec fn window(data: Seq<u8>, size: nat, p: int) -> Seq<u8> {
    data.subrange(p, p + size)
}

/// How many windows of `size` bytes `data` has.
pub open spec fn window_total(data: Seq<u8>, size: nat) -> nat {
    if data.len() < size {
        0
    } else {
        (data.len() - size + 1) as nat
    }
}

/// How many of the first `n` windows are `w`.
pub open spec fn window_count(data: Seq<u8>, size: nat, w: Seq<u8>, n: nat) -> nat
    decreases n,
{
    if n == 0 {
        0
    } else {
        window_count(data, size, w, (n - 1) as nat) + if window(data, size, n - 1) == w {
            1nat
        } else {
            0
        }
    }
}

/// How often the byte string `w` stands in `data`.
pub open spec fn occurrences(data: Seq<u8>, w: Seq<u8>) -> nat {
    window_count(data, w.len(), w, window_total(data, w.len()))
}

pub proof fn lemma_window_count(data: Seq<u8>, size: nat, w: Seq<u8>, n: nat)
    ensures
        window_count(data, size, w, n) <= n,
        window_count(data, size, w, n) > 0 <==> exists|q: int|
            0 <= q < n && #[trigger] window(data, size, q) == w,
    decreases n,
{
    if n > 0 {
        lemma_window_count(data, size, w, (n - 1) as nat);
        if window(data, size, n - 1) == w {
            assert(0 <= n - 1 < n && window(data, size, n - 1) == w);
        }
        if exists|q: int| 0 <= q < n && #[trigger] window(data, size, q) == w {
            let q = choose|q: int| 0 <= q < n && #[trigger] window(data, size, q) == w;
            if q < n - 1 {
                assert(0 <= q < n - 1 && window(data, size, q) == w);
            }
        }
    }
}

/// No window before `p` is the same as the one at `p`.
pub open spec fn is_first(data: Seq<u8>, size: nat, p: int) -> bool {
    forall|q: int| 0 <= q < p ==> #[trigger] window(data, size, q) != window(data, size, p)
}

/// A window of the data with how often it occurs.
#[derive(Debug)]
pub struct WindowCount {
    pub chunk: Vec<u8>,
    pub count: usize,
}

/// What a `WindowCount` says.
pub struct Counted {
    pub chunk: Seq<u8>,
    pub count: nat,
}

impl View for WindowCount {
    type V = Counted;

    open spec fn view(&self) -> Counted {
        Counted { chunk: self.chunk@, count: self.count as nat }
    }
}

pub open spec fn counted_views(v: Seq<WindowCount>) -> Seq<Counted> {
    Seq::new(v.len(), |i: int| v[i]@)
}

/// The different windows of `size` bytes among the first `n`, in the order in which they first
/// occur, that occur at least `threshold` times in all of `data`.
pub open spec fn frequent(data: Seq<u8>, size: nat, threshold: nat, n: nat) -> Seq<Counted>
    decreases n,
{
    if n == 0 {
        seq![]
    } else {
        let before = frequent(data, size, threshold, (n - 1) as nat);
        let w = window(data, size, n - 1);
        let c = window_count(data, size, w, window_total(data, size));
        if is_first(data, size, n - 1) && c >= threshold {
            before.push(Counted { chunk: w, count: c })
        } else {
            before
        }
    }
}

/// The windows of `size` bytes that occur at least `threshold` times, in the order in which they
/// first occur.
pub open spec fn frequent_windows(data: Seq<u8>, size: nat, threshold: nat) -> Seq<Counted> {
    frequent(data, size, threshold, window_total(data, size))
}

proof fn lemma_frequent(data: Seq<u8>, size: nat, threshold: nat, n: nat)
    requires
        n <= window_total(data, size),
    ensures
        forall|i: int|
            0 <= i < frequent(data, size, threshold, n).len() ==> {
                let c = #[trigger] frequent(data, size, threshold, n)[i];
                &&& c.chunk.len() == size
                &&& c.count == occurrences(data, c.chunk)
                &&& c.count >= threshold
                &&& 0 < c.count <= data.len() + 1
                &&& exists|q: int| 0 <= q < n && #[trigger] window(data, size, q) == c.chunk
            },
        forall|i: int, j: int|
            0 <= i < j < frequent(data, size, threshold, n).len() ==> (#[trigger] frequent(
                data,
                size,
                threshold,
                n,
            )[i]).chunk != (#[trigger] frequent(data, size, threshold, n)[j]).chunk,
    decreases n,
{
    if n > 0 {
        lemma_frequent(data, size, threshold, (n - 1) as nat);
        let before = frequent(data, size, threshold, (n - 1) as nat);
        let all = frequent(data, size, threshold, n);
        let w = window(data, size, n - 1);
        let total = window_total(data, size);
        lemma_window_count(data, size, w, total);
        assert(0 <= n - 1 < total && window(data, size, n - 1) == w);
        assert forall|i: int| 0 <= i < all.len() implies {
            let c = #[trigger] all[i];
            &&& c.chunk.len() == size
            &&& c.count == occurrences(data, c.chunk)
            &&& c.count >= threshold
            &&& 0 < c.count <= data.len() + 1
            &&& exists|q: int| 0 <= q < n && #[trigger] window(data, size, q) == c.chunk
        } by {
            if i < before.len() {
                assert(all[i] == before[i]);
                let q = choose|q: int|
                    0 <= q < n - 1 && #[trigger] window(data, size, q) == before[i].chunk;
                assert(0 <= q < n && window(data, size, q) == all[i].chunk);
            }
        }
        assert forall|i: int, j: int| 0 <= i < j < all.len() implies (#[trigger] all[i]).chunk != (
        #[trigger] all[j]).chunk by {
            assert(all[i] == before[i]);
            if j < before.len() {
                assert(all[j] == before[j]);
            } else {
                let q = choose|q: int|
                    0 <= q < n - 1 && #[trigger] window(data, size, q) == before[i].chunk;
                assert(window(data, size, q) != w);
            }
        }
    }
}

/// The frequent windows are different byte strings of the size asked for, each with its number of
/// occurrences.
pub proof fn lemma_frequent_windows(data: Seq<u8>, size: nat, threshold: nat)
    ensures
        forall|i: int|
            0 <= i < frequent_windows(data, size, threshold).len() ==> {
                let c = #[trigger] frequent_windows(data, size, threshold)[i];
                &&& c.chunk.len() == size
                &&& c.count == occurrences(data, c.chunk)
                &&& c.count >= threshold
                &&& 0 < c.count <= data.len() + 1
            },
        forall|i: int, j: int|
            0 <= i < j < frequent_windows(data, size, threshold).len() ==> (
            #[trigger] frequent_windows(data, size, threshold)[i]).chunk != (
            #[trigger] frequent_windows(data, size, threshold)[j]).chunk,
{
    lemma_frequent(data, size, threshold, window_total(data, size));
}

/// There are no more frequent windows than windows.
pub proof fn lemma_frequent_bound(data: Seq<u8>, size: nat, threshold: nat, n: nat)
    ensures
        frequent(data, size, threshold, n).len() <= n,
    decreases n,
{
    if n > 0 {
        lemma_frequent_bound(data, size, threshold, (n - 1) as nat);
    }
}

proof fn lemma_first_before(data: Seq<u8>, size: nat, p: int) -> (q: int)
    requires
        0 <= p,
    ensures
        0 <= q <= p,
        is_first(data, size, q),
        window(data, size, q) == window(data, size, p),
    decreases p,
{
    if is_first(data, size, p) {
        p
    } else {
        let r = choose|r: int|
            0 <= r < p && #[trigger] window(data, size, r) == window(data, size, p);
        lemma_first_before(data, size, r)
    }
}

proof fn lemma_frequent_has(data: Seq<u8>, size: nat, threshold: nat, n: nat, p: int)
    requires
        0 <= p < n,
        is_first(data, size, p),
        window_count(data, size, window(data, size, p), window_total(data, size)) >= threshold,
    ensures
        exists|j: int|
            0 <= j < frequent(data, size, threshold, n).len() && (#[trigger] frequent(
                data,
                size,
                threshold,
                n,
            )[j]).chunk == window(data, size, p),
    decreases n,
{
    let all = frequent(data, size, threshold, n);
    let before = frequent(data, size, threshold, (n - 1) as nat);
    if p == n - 1 {
        assert(all[all.len() - 1].chunk == window(data, size, p));
    } else {
        lemma_frequent_has(data, size, threshold, (n - 1) as nat, p);
        let j = choose|j: int|
            0 <= j < before.len() && (#[trigger] before[j]).chunk == window(data, size, p);
        assert(all[j] == before[j]);
    }
}

/// Every string that occurs often enough is among the frequent windows.
pub proof fn lemma_frequent_complete(data: Seq<u8>, size: nat, threshold: nat)
    ensures
        forall|w: Seq<u8>|
            w.len() == size && #[trigger] occurrences(data, w) > 0 && occurrences(data, w)
                >= threshold ==> exists|j: int|
                0 <= j < frequent_windows(data, size, threshold).len() && (
                #[trigger] frequent_windows(data, size, threshold)[j]).chunk == w,
{
    let total = window_total(data, size);
    assert forall|w: Seq<u8>|
        w.len() == size && #[trigger] occurrences(data, w) > 0 && occurrences(data, w)
            >= threshold implies exists|j: int|
        0 <= j < frequent_windows(data, size, threshold).len() && (#[trigger] frequent_windows(
            data,
            size,
            threshold,
        )[j]).chunk == w by {
        lemma_window_count(data, size, w, total);
        let p = choose|p: int| 0 <= p < total && #[trigger] window(data, size, p) == w;
        let q = lemma_first_before(data, size, p);
        lemma_frequent_has(data, size, threshold, total, q);
        let all = frequent(data, size, threshold, total);
        let j = choose|j: int|
            0 <= j < all.len() && (#[trigger] all[j]).chunk == window(data, size, q);
        assert(frequent_windows(data, size, threshold)[j].chunk == w);
    }
}

/// Counts the windows of `size` bytes.
fn count_windows(data: &[u8], size: usize) -> (m: AHashMap<Vec<u8>, usize>)
    requires
        size > 0,
    ensures
        forall|w: Seq<u8>|
            (#[trigger] counts_in(m).contains_key(w)) <==> window_count(
                data@,
                size as nat,
                w,
                window_total(data@, size as nat),
            ) > 0,
        forall|w: Seq<u8>| #[trigger]
            counts_in(m).contains_key(w) ==> counts_in(m)[w] as nat == window_count(
                data@,
                size as nat,
                w,
                window_total(data@, size as nat),
            ),
{
    let mut m = new_counts();
    let total: usize = if data.len() < size {
        0
    } else {
        data.len() - size + 1
    };
    let mut p: usize = 0;
    while p < total
        invariant
            p <= total,
            0 < size,
            total as nat == window_total(data@, size as nat),
            total <= data.len(),
            forall|w: Seq<u8>|
                (#[trigger] counts_in(m).contains_key(w)) <==> window_count(
                    data@,
                    size as nat,
                    w,
                    p as nat,
                ) > 0,
            forall|w: Seq<u8>| #[trigger]
                counts_in(m).contains_key(w) ==> counts_in(m)[w] as nat == window_count(
                    data@,
                    size as nat,
                    w,
                    p as nat,
                ),
        decreases total - p,
    {
        let w = &data[p..p + size];
        let ghost before = counts_in(m);
        assert(w@ == window(data@, size as nat, p as int));
        proof {
            lemma_window_count(data@, size as nat, w@, p as nat);
        }
        let c = match get_count(&m, w) {
            Some(c) => c + 1,
            None => 1,
        };
        let key = copy_of(w);
        set_count(&mut m, key, c);
        proof {
            assert forall|v: Seq<u8>|
                (#[trigger] counts_in(m).contains_key(v)) <==> window_count(
                    data@,
                    size as nat,
                    v,
                    (p + 1) as nat,
                ) > 0 by {
                assert(before.contains_key(v) <==> window_count(
                    data@,
                    size as nat,
                    v,
                    p as nat,
                ) > 0);
            }
            assert forall|v: Seq<u8>| #[trigger] counts_in(m).contains_key(v) implies counts_in(
                m,
            )[v] as nat == window_count(data@, size as nat, v, (p + 1) as nat) by {
                assert(before.contains_key(v) <==> window_count(
                    data@,
                    size as nat,
                    v,
                    p as nat,
                ) > 0);
            }
        }
        p += 1;
    }
    m
}

/// The windows of `size` bytes that occur at least `threshold` times, in the order in which they
/// first occur.
pub fn list_frequent_windows(data: &[u8], size: usize, threshold: usize) -> (out: Vec<WindowCount>)
    requires
        size > 0,
    ensures
        counted_views(out@) == frequent_windows(data@, size as nat, threshold as nat),
{
    let mut m = count_windows(data, size);
    let total: usize = if data.len() < size {
        0
    } else {
        data.len() - size + 1
    };
    let mut out: Vec<WindowCount> = Vec::new();
    let mut p: usize = 0;
    assert(counted_views(out@) =~= seq![]);
    while p < total
        invariant
            p <= total,
            0 < size,
            total as nat == window_total(data@, size as nat),
            total <= data.len(),
            counted_views(out@) == frequent(data@, size as nat, threshold as nat, p as nat),
            forall|w: Seq<u8>|
                (#[trigger] counts_in(m).contains_key(w)) <==> window_count(
                    data@,
                    size as nat,
                    w,
                    total as nat,
                ) > 0,
            forall|w: Seq<u8>| #[trigger]
                counts_in(m).contains_key(w) ==> counts_in(m)[w] as nat == (if window_count(
                    data@,
                    size as nat,
                    w,
                    p as nat,
                ) > 0 {
                    0
                } else {
                    window_count(data@, size as nat, w, total as nat)
                }),
        decreases total - p,
    {
        let w = &data[p..p + size];
        let ghost before = counts_in(m);
        let ghost listed = counted_views(out@);
        assert(w@ == window(data@, size as nat, p as int));
        proof {
            lemma_window_count(data@, size as nat, w@, p as nat);
            lemma_window_count(data@, size as nat, w@, total as nat);
            assert(0 <= p < total && window(data@, size as nat, p as int) == w@);
            assert(before.contains_key(w@));
        }
        let c = match get_count(&m, w) {
            Some(c) => c,
            None => 0,
        };
        assert(is_first(data@, size as nat, p as int) <==> c > 0) by {
            if !is_first(data@, size as nat, p as int) {
                let q = choose|q: int|
                    0 <= q < p && #[trigger] window(data@, size as nat, q) == window(
                        data@,
                        size as nat,
                        p as int,
                    );
                assert(0 <= q < p && window(data@, size as nat, q) == w@);
            }
        }
        if c > 0 {
            let key = copy_of(w);
            set_count(&mut m, key, 0);
            if c >= threshold {
                let chunk = copy_of(w);
                let entry = WindowCount { chunk, count: c };
                let ghost view = entry@;
                out.push(entry);
                assert(counted_views(out@) =~= listed.push(view));
            }
        }
        proof {
            assert forall|v: Seq<u8>|
                (#[trigger] counts_in(m).contains_key(v)) <==> window_count(
                    data@,
                    size as nat,
                    v,
                    total as nat,
                ) > 0 by {
                assert(before.contains_key(v) <==> window_count(
                    data@,
                    size as nat,
                    v,
                    total as nat,
                ) > 0);
            }
            assert forall|v: Seq<u8>| #[trigger] counts_in(m).contains_key(v) implies counts_in(
                m,
            )[v] as nat == (if window_count(data@, size as nat, v, (p + 1) as nat) > 0 {
                0
            } else {
                window_count(data@, size as nat, v, total as nat)
            }) by {
                assert(before.contains_key(v) <==> window_count(
                    data@,
                    size as nat,
                    v,
                    total as nat,
                ) > 0);
                assert(before.contains_key(v));
            }
            assert(counted_views(out@) == frequent(
                data@,
                size as nat,
                threshold as nat,
                (p + 1) as nat,
            ));
        }
        p += 1;
    }
    out
}

/// The strings in the order of `list` without those that have come before.
pub open spec fn first_of_each(list: Seq<Seq<u8>>, i: int) -> bool {
    forall|j: int| 0 <= j < i ==> #[trigger] list[j] != list[i]
}

/// Which of the strings have not come before in the list.
pub fn mark_first(list: &[Vec<u8>]) -> (marks: Vec<bool>)
    ensures
        marks@.len() == list@.len(),
        forall|i: int|
            0 <= i < list@.len() ==> #[trigger] marks@[i] == first_of_each(
                crate::dict::strings(list@),
                i,
            ),
{
    let ghost all = crate::dict::strings(list@);
    let mut m = new_counts();
    let mut marks: Vec<bool> = Vec::with_capacity(list.len());
    let mut i: usize = 0;
    while i < list.len()
        invariant
            i <= list@.len(),
            all == crate::dict::strings(list@),
            marks@.len() == i,
            forall|k: int| 0 <= k < i ==> #[trigger] marks@[k] == first_of_each(all, k),
            forall|k: int| 0 <= k < i ==> counts_in(m).contains_key(#[trigger] all[k]),
            forall|w: Seq<u8>| #[trigger]
                counts_in(m).contains_key(w) ==> exists|k: int| 0 <= k < i && #[trigger] all[k]
                    == w,
        decreases list@.len() - i,
    {
        assert(all[i as int] == list@[i as int]@);
        let ghost before = counts_in(m);
        match get_count(&m, &list[i]) {
            Some(_) => {
                proof {
                    let k = choose|k: int| 0 <= k < i && #[trigger] all[k] == all[i as int];
                    assert(!first_of_each(all, i as int));
                }
                marks.push(false);
            },
            None => {
                let key = copy_of(&list[i]);
                set_count(&mut m, key, 1);
                proof {
                    assert forall|j: int| 0 <= j < i implies #[trigger] all[j] != all[i as int] by {
                        assert(before.contains_key(all[j]));
                    }
                    assert(first_of_each(all, i as int));
                }
                marks.push(true);
            },
        }
        proof {
            assert forall|w: Seq<u8>| #[trigger] counts_in(m).contains_key(w) implies exists|k: int|
                0 <= k < i + 1 && #[trigger] all[k] == w by {
                if before.contains_key(w) {
                    let k = choose|k: int| 0 <= k < i && #[trigger] all[k] == w;
                    assert(0 <= k < i + 1 && all[k] == w);
                } else {
                    assert(all[i as int] == w);
                }
            }
            assert forall|k: int| 0 <= k < i + 1 implies counts_in(m).contains_key(
                #[trigger] all[k],
            ) by {
                if k < i {
                    assert(before.contains_key(all[k]));
                }
            }
        }
        i += 1;
    }
    marks
}

/// The places among the first `n` where `w` stands.
pub open spec fn places_of(data: Seq<u8>, w: Seq<u8>, n: nat) -> Set<int> {
    Set::new(|q: int| 0 <= q < n && q + w.len() <= data.len() && data.subrange(q, q + w.len()) == w)
}

/// The occurrences of a byte string are its places, overlapping ones too: as many as there are.
pub proof fn lemma_occurrences_are_places(data: Seq<u8>, w: Seq<u8>, n: nat)
    requires
        n <= window_total(data, w.len()),
    ensures
        places_of(data, w, n).finite(),
        places_of(data, w, n).len() == window_count(data, w.len(), w, n),
    decreases n,
{
    if n == 0 {
        assert(places_of(data, w, n) =~= Set::empty());
    } else {
        let b = (n - 1) as nat;
        lemma_occurrences_are_places(data, w, b);
        let before = places_of(data, w, b);
        assert(data.subrange(n - 1, n - 1 + w.len()) == window(data, w.len(), n - 1));
        if window(data, w.len(), n - 1) == w {
            assert(places_of(data, w, n) =~= before.insert(n - 1));
        } else {
            assert(places_of(data, w, n) =~= before);
        }
    }
}

/// Every place that has room for the byte string is looked at.
pub proof fn lemma_windows_reach(data: Seq<u8>, size: nat, p: int)
    ensures
        0 <= p < window_total(data, size) <==> 0 <= p && p + size <= data.len(),
{
}

/// How many different windows there are among the first `n`.
pub open spec fn different_windows(data: Seq<u8>, size: nat, n: nat) -> nat
    decreases n,
{
    if n == 0 {
        0
    } else {
        different_windows(data, size, (n - 1) as nat) + if is_first(data, size, n - 1) {
            1nat
        } else {
            0
        }
    }
}

/// How often the different windows among the first `n` occur among the first `m`, added up.
spec fn first_counts(data: Seq<u8>, size: nat, n: nat, m: nat) -> nat
    decreases n,
{
    if n == 0 {
        0
    } else {
        first_counts(data, size, (n - 1) as nat, m) + if is_first(data, size, n - 1) {
            window_count(data, size, window(data, size, n - 1), m)
        } else {
            0
        }
    }
}

proof fn lemma_first_counts_grow(data: Seq<u8>, size: nat, n: nat, m: nat, q: int)
    requires
        0 <= q <= m,
        is_first(data, size, q),
        window(data, size, q) == window(data, size, m as int),
    ensures
        first_counts(data, size, n, m + 1) == first_counts(data, size, n, m) + if q < n {
            1nat
        } else {
            0
        },
    decreases n,
{
    if n > 0 {
        let b = (n - 1) as nat;
        lemma_first_counts_grow(data, size, b, m, q);
        if is_first(data, size, b as int) {
            let w = window(data, size, b as int);
            if w == window(data, size, m as int) && b != q {
                if b < q {
                    assert(window(data, size, b as int) != window(data, size, q));
                } else {
                    assert(window(data, size, q) != window(data, size, b as int));
                }
            }
        }
    }
}

proof fn lemma_first_counts_total(data: Seq<u8>, size: nat, n: nat, m: nat)
    requires
        m <= n,
    ensures
        first_counts(data, size, n, m) == m,
    decreases m,
{
    if m == 0 {
        lemma_first_counts_none(data, size, n);
    } else {
        let b = (m - 1) as nat;
        lemma_first_counts_total(data, size, n, b);
        let q = lemma_first_before(data, size, b as int);
        lemma_first_counts_grow(data, size, n, b, q);
    }
}

proof fn lemma_first_counts_none(data: Seq<u8>, size: nat, n: nat)
    ensures
        first_counts(data, size, n, 0) == 0,
    decreases n,
{
    if n > 0 {
        lemma_first_counts_none(data, size, (n - 1) as nat);
    }
}

/// The counts of the first `k` of a list, less one each, added up.
pub open spec fn surplus(list: Seq<Counted>, k: nat) -> int
    decreases k,
{
    if k == 0 {
        0
    } else {
        surplus(list, (k - 1) as nat) + list[k - 1].count - 1
    }
}

proof fn lemma_surplus_front(a: Seq<Counted>, c: Counted, k: nat)
    requires
        k <= a.len(),
    ensures
        surplus(a.push(c), k) == surplus(a, k),
    decreases k,
{
    if k > 0 {
        lemma_surplus_front(a, c, (k - 1) as nat);
    }
}

proof fn lemma_surplus_of_firsts(data: Seq<u8>, size: nat, n: nat)
    requires
        n <= window_total(data, size),
    ensures
        surplus(frequent(data, size, 2, n), frequent(data, size, 2, n).len()) == first_counts(
            data,
            size,
            n,
            window_total(data, size),
        ) - different_windows(data, size, n),
    decreases n,
{
    if n > 0 {
        let b = (n - 1) as nat;
        let total = window_total(data, size);
        lemma_surplus_of_firsts(data, size, b);
        let before = frequent(data, size, 2, b);
        let w = window(data, size, n - 1);
        let c = window_count(data, size, w, total);
        lemma_window_count(data, size, w, total);
        assert(window(data, size, n - 1) == w);
        lemma_surplus_front(before, Counted { chunk: w, count: c }, before.len());
    }
}

/// The windows that repeat an earlier one are all but the different ones: the occurrences of those that
/// occur twice or more, beyond the first of each, are as many.
pub proof fn lemma_repeats_counted(data: Seq<u8>, size: nat)
    ensures
        surplus(frequent_windows(data, size, 2), frequent_windows(data, size, 2).len())
            + different_windows(data, size, window_total(data, size)) == window_total(data, size),
{
    let total = window_total(data, size);
    lemma_surplus_of_firsts(data, size, total);
    lemma_first_counts_total(data, size, total, total);
}

} // verus!
