//! Counting byte strings as they come.

use ahash::AHashMap;
use vstd::prelude::*;

use crate::bytes::copy_of;
use crate::windows::{
    counted_views, counts_in, get_count, new_counts, set_count, Counted, WindowCount,
};

verus! {

/// How often `key` is in the list.
pub open spec fn times(list: Seq<Seq<u8>>, key: Seq<u8>) -> nat
    decreases list.len(),
{
    if list.len() == 0 {
        0
    } else {
        times(list.drop_last(), key) + if list.last() == key {
            1nat
        } else {
            0
        }
    }
}

/// The byte strings of the list, each once, in the order in which they first come.
pub open spec fn firsts(list: Seq<Seq<u8>>) -> Seq<Seq<u8>>
    decreases list.len(),
{
    if list.len() == 0 {
        Seq::empty()
    } else {
        let before = firsts(list.drop_last());
        if times(list.drop_last(), list.last()) == 0 {
            before.push(list.last())
        } else {
            before
        }
    }
}

/// The byte strings of the list, each once, with how often it is there.
pub open spec fn tallied(list: Seq<Seq<u8>>) -> Seq<Counted> {
    Seq::new(
        firsts(list).len(),
        |i: int| Counted { chunk: firsts(list)[i], count: times(list, firsts(list)[i]) },
    )
}

pub proof fn lemma_times(list: Seq<Seq<u8>>, key: Seq<u8>)
    ensures
        times(list, key) <= list.len(),
        times(list, key) > 0 <==> list.contains(key),
    decreases list.len(),
{
    if list.len() > 0 {
        let front = list.drop_last();
        lemma_times(front, key);
        if list.last() == key {
            assert(list[list.len() - 1] == key);
        }
        if front.contains(key) {
            let i = choose|i: int| 0 <= i < front.len() && front[i] == key;
            assert(list[i] == key);
        }
        if list.contains(key) && list.last() != key {
            let i = choose|i: int| 0 <= i < list.len() && list[i] == key;
            assert(front[i] == key);
        }
    }
}

/// Each byte string of the list is tallied once, and nothing else is.
pub proof fn lemma_firsts(list: Seq<Seq<u8>>)
    ensures
        forall|key: Seq<u8>| #[trigger] firsts(list).contains(key) <==> times(list, key) > 0,
        firsts(list).no_duplicates(),
    decreases list.len(),
{
    if list.len() > 0 {
        let front = list.drop_last();
        let before = firsts(front);
        let now = firsts(list);
        lemma_firsts(front);
        assert forall|key: Seq<u8>| #[trigger] now.contains(key) <==> times(list, key) > 0 by {
            assert(before.contains(key) <==> times(front, key) > 0);
            if before.contains(key) {
                let i = choose|i: int| 0 <= i < before.len() && before[i] == key;
                assert(now[i] == key);
            }
            if now.contains(key) && !before.contains(key) {
                let i = choose|i: int| 0 <= i < now.len() && now[i] == key;
                if i < before.len() {
                    assert(before[i] == key);
                }
            }
            if key == list.last() && times(front, key) == 0 {
                assert(now[before.len() as int] == key);
            }
        }
        if times(front, list.last()) == 0 {
            assert(!before.contains(list.last()));
        }
    }
}

/// Counts of byte strings. Its view is the list of those that have been added.
pub struct Tally {
    counts: AHashMap<Vec<u8>, usize>,
    keys: Vec<Vec<u8>>,
    total: usize,
    added: Ghost<Seq<Seq<u8>>>,
}

impl View for Tally {
    type V = Seq<Seq<u8>>;

    closed spec fn view(&self) -> Seq<Seq<u8>> {
        self.added@
    }
}

impl Tally {
    pub closed spec fn wf(&self) -> bool {
        &&& self.total == self@.len()
        &&& self.keys@.len() == firsts(self@).len()
        &&& forall|i: int| 0 <= i < self.keys@.len() ==> (#[trigger] self.keys@[i])@ == firsts(self@)[i]
        &&& forall|key: Seq<u8>| #[trigger]
            counts_in(self.counts).contains_key(key) <==> times(self@, key) > 0
        &&& forall|key: Seq<u8>|
            times(self@, key) > 0 ==> (#[trigger] counts_in(self.counts)[key]) == times(self@, key)
    }

    /// Nothing has been added.
    pub fn new() -> (t: Self)
        ensures
            t.wf(),
            t@ == Seq::<Seq<u8>>::empty(),
    {
        let counts = new_counts();
        Tally { counts, keys: Vec::new(), total: 0, added: Ghost(Seq::empty()) }
    }

    /// How many byte strings have been added.
    pub fn added_count(&self) -> (n: usize)
        requires
            self.wf(),
        ensures
            n == self@.len(),
    {
        self.total
    }

    /// Adds a byte string.
    pub fn add(&mut self, key: &[u8])
        requires
            old(self).wf(),
            old(self)@.len() < usize::MAX,
        ensures
            final(self).wf(),
            final(self)@ == old(self)@.push(key@),
    {
        let ghost before = self@;
        let ghost now = before.push(key@);
        proof {
            assert(now.drop_last() =~= before);
            lemma_times(before, key@);
            assert forall|k: Seq<u8>| #[trigger] times(now, k) == times(before, k) + if key@ == k {
                1nat
            } else {
                0
            } by {}
        }
        match get_count(&self.counts, key) {
            Some(n) => {
                assert(n == times(before, key@));
                set_count(&mut self.counts, copy_of(key), n + 1);
            },
            None => {
                set_count(&mut self.counts, copy_of(key), 1);
                self.keys.push(copy_of(key));
            },
        }
        self.total = self.total + 1;
        self.added = Ghost(now);
        proof {
            assert forall|i: int| 0 <= i < self.keys@.len() implies (#[trigger] self.keys@[i])@
                == firsts(now)[i] by {}
        }
    }

    /// The byte strings, each once, in the order in which they first came, with their counts.
    pub fn entries(&self) -> (v: Vec<WindowCount>)
        requires
            self.wf(),
        ensures
            counted_views(v@) == tallied(self@),
    {
        let mut v: Vec<WindowCount> = Vec::with_capacity(self.keys.len());
        let mut i: usize = 0;
        while i < self.keys.len()
            invariant
                i <= self.keys.len(),
                self.wf(),
                v.len() == i,
                forall|j: int| 0 <= j < i ==> (#[trigger] v@[j])@ == tallied(self@)[j],
            decreases self.keys.len() - i,
        {
            let ghost key = firsts(self@)[i as int];
            proof {
                lemma_firsts(self@);
                assert(self.keys@[i as int]@ == key);
                assert(firsts(self@).contains(key));
                assert(counts_in(self.counts).contains_key(key));
            }
            let n: usize = match get_count(&self.counts, self.keys[i].as_slice()) {
                Some(n) => n,
                None => 0,
            };
            v.push(WindowCount { chunk: copy_of(self.keys[i].as_slice()), count: n });
            i = i + 1;
        }
        assert(counted_views(v@) =~= tallied(self@));
        v
    }
}

/// A byte string is counted as often as it stands in the list, in whatever order.
pub proof fn lemma_times_is_multiplicity(list: Seq<Seq<u8>>, key: Seq<u8>)
    ensures
        times(list, key) == list.to_multiset().count(key),
    decreases list.len(),
{
    broadcast use vstd::seq_lib::group_to_multiset_ensures;

    if list.len() > 0 {
        lemma_times_is_multiplicity(list.drop_last(), key);
        assert(list.drop_last().push(list.last()) =~= list);
    }
}

} // verus!
