//! Reading a file in pieces: sampling byte strings, and counting and locating them.

use vstd::prelude::*;

use crate::bytes::copy_of;
use crate::dict::{strings, strings_size};
use crate::tally::Tally;

verus! {

/// The length of the shortest byte strings that are sampled.
pub const MIN_SUBSTR_LEN: usize = 14;

/// The length of the longest byte strings that are sampled.
pub const MAX_SUBSTR_LEN: usize = 16;

/// The distance between samples.
pub const SAMPLING_RATE: usize = 100;

/// How much is read at once.
pub const CHUNK_SIZE: usize = 67108864;

/// The states of an automaton, and the matches at all of its states, are no more than this.
pub const MAX_AUTOMATON: usize = 0x7f00_0000;

/// The byte strings that are sampled at `i`.
pub open spec fn samples_at(data: Seq<u8>, i: int) -> Seq<Seq<u8>> {
    let longest = if data.len() - i < MAX_SUBSTR_LEN {
        data.len() - i
    } else {
        MAX_SUBSTR_LEN as int
    };
    Seq::new(
        (longest - MIN_SUBSTR_LEN + 1) as nat,
        |l: int| data.subrange(i, i + MIN_SUBSTR_LEN + l),
    )
}

/// The byte strings that are sampled at the first `k` places.
pub open spec fn samples_upto(data: Seq<u8>, k: nat) -> Seq<Seq<u8>>
    decreases k,
{
    if k == 0 {
        Seq::empty()
    } else {
        samples_upto(data, (k - 1) as nat) + samples_at(data, SAMPLING_RATE * (k - 1))
    }
}

/// At how many places samples are taken: every hundredth that more than a shortest byte string
/// follows.
pub open spec fn sample_places(len: nat) -> nat {
    if len <= MIN_SUBSTR_LEN {
        0
    } else {
        ((len - MIN_SUBSTR_LEN - 1) / SAMPLING_RATE as int + 1) as nat
    }
}

/// The byte strings that are sampled from a file: at each hundredth place that more than a shortest
/// byte string follows, the byte strings of all lengths that are sampled.
pub open spec fn file_samples(file: Seq<u8>) -> Seq<Seq<u8>> {
    samples_upto(file, sample_places(file.len()))
}

proof fn lemma_samples_extend(before: Seq<u8>, read: Seq<u8>, k: nat)
    requires
        k > 0 ==> SAMPLING_RATE * (k - 1) + MAX_SUBSTR_LEN <= before.len(),
    ensures
        samples_upto(before + read, k) == samples_upto(before, k),
    decreases k,
{
    if k > 0 {
        lemma_samples_extend(before, read, (k - 1) as nat);
        let i = SAMPLING_RATE * (k - 1);
        let a = samples_at(before, i);
        let b = samples_at(before + read, i);
        assert forall|l: int| 0 <= l < a.len() implies a[l] == b[l] by {
            assert(before.subrange(i, i + MIN_SUBSTR_LEN + l) =~= (before + read).subrange(
                i,
                i + MIN_SUBSTR_LEN + l,
            ));
        }
        assert(a =~= b);
    }
}

proof fn lemma_samples_len(data: Seq<u8>, k: nat)
    requires
        k > 0 ==> SAMPLING_RATE * (k - 1) + MIN_SUBSTR_LEN <= data.len(),
    ensures
        samples_upto(data, k).len() <= 3 * k,
    decreases k,
{
    if k > 0 {
        lemma_samples_len(data, (k - 1) as nat);
    }
}

/// A file that is sampled piece by piece. The bytes from `pos` on are kept; the next sample is
/// taken at `next`.
pub struct Sampler {
    pub next: usize,
    pub pos: usize,
    pub carry: Vec<u8>,
    pub tally: Tally,
    pub seen: Ghost<Seq<u8>>,
}

impl View for Sampler {
    type V = Seq<u8>;

    /// What has been read.
    open spec fn view(&self) -> Seq<u8> {
        self.seen@
    }
}

impl Sampler {
    /// All samples that can no longer change have been taken.
    pub open spec fn wf(&self) -> bool {
        &&& self.tally.wf()
        &&& self.next % SAMPLING_RATE == 0
        &&& self.next > 0 ==> self.next - SAMPLING_RATE + MAX_SUBSTR_LEN <= self@.len()
        &&& self.next + MAX_SUBSTR_LEN > self@.len()
        &&& self.pos == (if self.next <= self@.len() {
            self.next as int
        } else {
            self@.len() as int
        })
        &&& self.carry@ == self@.skip(self.pos as int)
        &&& self.tally@ == samples_upto(self@, (self.next / SAMPLING_RATE) as nat)
    }

    /// Nothing has been read.
    pub fn begin() -> (s: Self)
        ensures
            s.wf(),
            s@ == Seq::<u8>::empty(),
    {
        let s = Sampler {
            next: 0,
            pos: 0,
            carry: Vec::new(),
            tally: Tally::new(),
            seen: Ghost(Seq::empty()),
        };
        assert(s.carry@ =~= s@.skip(0));
        s
    }

    /// Reads on.
    pub fn feed(&mut self, read: &[u8])
        requires
            old(self).wf(),
            old(self)@.len() + read@.len() + SAMPLING_RATE <= usize::MAX,
        ensures
            final(self).wf(),
            final(self)@ == old(self)@ + read@,
    {
        let ghost file = self@ + read@;
        let mut data = copy_of(self.carry.as_slice());
        data.extend_from_slice(read);
        let pos = self.pos;
        proof {
            assert(data@ =~= file.skip(pos as int));
            let k = (self.next / SAMPLING_RATE) as nat;
            lemma_samples_extend(self@, read@, k);
            self.seen@ = file;
        }
        let end = pos + data.len();
        while self.next + MAX_SUBSTR_LEN <= end
            invariant
                self.tally.wf(),
                self@ == file,
                self.next % SAMPLING_RATE == 0,
                self.next > 0 ==> self.next - SAMPLING_RATE + MAX_SUBSTR_LEN <= file.len(),
                pos <= self.next || self.next + MAX_SUBSTR_LEN > end,
                pos <= self.next,
                end == file.len(),
                end == pos + data@.len(),
                end + SAMPLING_RATE <= usize::MAX,
                data@ == file.skip(pos as int),
                self.tally@ == samples_upto(file, (self.next / SAMPLING_RATE) as nat),
            decreases end + SAMPLING_RATE - self.next,
        {
            let at = self.next - pos;
            let ghost k = (self.next / SAMPLING_RATE) as nat;
            proof {
                lemma_samples_len(file, k);
            }
            sample_at(&data, at, MAX_SUBSTR_LEN, &mut self.tally);
            proof {
                assert(samples_at(data@, at as int) =~= samples_at(file, self.next as int)) by {
                    let a = samples_at(data@, at as int);
                    let b = samples_at(file, self.next as int);
                    assert forall|l: int| 0 <= l < a.len() implies a[l] == b[l] by {
                        assert(data@.subrange(at as int, at + MIN_SUBSTR_LEN + l)
                            =~= file.subrange(
                            self.next as int,
                            self.next + MIN_SUBSTR_LEN + l,
                        ));
                    }
                }
                assert(SAMPLING_RATE * k == self.next);
            }
            self.next = self.next + SAMPLING_RATE;
        }
        let keep: usize = if self.next <= end {
            self.next - pos
        } else {
            end - pos
        };
        let tail = &data[keep..data.len()];
        self.carry = copy_of(tail);
        self.pos = pos + keep;
        assert(self.carry@ =~= file.skip(self.pos as int));
    }

    /// The samples, once the whole file has been read.
    pub fn finish(self) -> (tally: Tally)
        requires
            self.wf(),
        ensures
            tally.wf(),
            tally@ == file_samples(self@),
    {
        let next = self.next;
        let pos = self.pos;
        let carry = self.carry;
        let mut tally = self.tally;
        let ghost file = self.seen@;
        let ghost k = (next / SAMPLING_RATE) as nat;
        if next > pos || carry.len() <= MIN_SUBSTR_LEN {
            proof {
                assert(SAMPLING_RATE * k == next);
                assert(sample_places(file.len()) == k);
            }
            return tally;
        }
        proof {
            lemma_samples_len(file, k);
            assert(SAMPLING_RATE * k == next);
            let a = samples_at(carry@, 0);
            let b = samples_at(file, next as int);
            assert forall|l: int| 0 <= l < a.len() implies a[l] == b[l] by {
                assert(carry@.subrange(0, MIN_SUBSTR_LEN + l) =~= file.subrange(
                    next as int,
                    next + MIN_SUBSTR_LEN + l,
                ));
            }
            assert(a =~= b);
            assert(sample_places(file.len()) == k + 1);
        }
        sample_at(&carry, 0, carry.len(), &mut tally);
        tally
    }
}

/// Takes the samples at a place.
fn sample_at(data: &Vec<u8>, at: usize, longest: usize, tally: &mut Tally)
    requires
        old(tally).wf(),
        at + MIN_SUBSTR_LEN <= data@.len(),
        at + longest <= data@.len(),
        longest == (if data@.len() - at < MAX_SUBSTR_LEN {
            data@.len() - at
        } else {
            MAX_SUBSTR_LEN as int
        }),
        old(tally)@.len() + 3 <= usize::MAX,
    ensures
        final(tally).wf(),
        final(tally)@ == old(tally)@ + samples_at(data@, at as int),
{
    let ghost here = samples_at(data@, at as int);
    let ghost sofar = tally@;
    let n = data.len();
    let mut len: usize = MIN_SUBSTR_LEN;
    assert(sofar + here.take(0) =~= sofar);
    while len <= longest
        invariant
            tally.wf(),
            MIN_SUBSTR_LEN <= len <= longest + 1,
            n == data@.len(),
            at + longest <= n,
            longest <= MAX_SUBSTR_LEN,
            here == samples_at(data@, at as int),
            here.len() == longest - MIN_SUBSTR_LEN + 1,
            tally@ == sofar + here.take(len - MIN_SUBSTR_LEN),
            sofar.len() + 3 <= usize::MAX,
        decreases longest + 1 - len,
    {
        let key = &data[at..at + len];
        proof {
            assert(here[len - MIN_SUBSTR_LEN] =~= key@);
            assert(sofar + here.take(len + 1 - MIN_SUBSTR_LEN) =~= (sofar + here.take(
                len - MIN_SUBSTR_LEN,
            )).push(key@));
        }
        tally.add(key);
        len = len + 1;
    }
    assert(here.take(longest + 1 - MIN_SUBSTR_LEN) =~= here);
}

/// Pattern `p` stands in the data from `start` to `end`.
pub open spec fn is_match(
    patterns: Seq<Seq<u8>>,
    data: Seq<u8>,
    p: int,
    start: int,
    end: int,
) -> bool {
    &&& 0 <= p < patterns.len()
    &&& 0 <= start <= end <= data.len()
    &&& data.subrange(start, end) == patterns[p]
}

/// Of the matches that start at `from` or later, the one that ends first; of several, the one that
/// starts first; of several, the one of the first pattern.
pub open spec fn is_next(
    patterns: Seq<Seq<u8>>,
    data: Seq<u8>,
    from: int,
    m: (usize, usize, usize),
) -> bool {
    &&& is_match(patterns, data, m.0 as int, m.1 as int, m.2 as int)
    &&& from <= m.1
    &&& forall|p: int, start: int, end: int|
        from <= start && #[trigger] is_match(patterns, data, p, start, end) ==> m.2 < end || (m.2
            == end && (m.1 < start || (m.1 == start && m.0 <= p)))
}

/// Where the search for match `i` starts.
pub open spec fn search_start(found: Seq<(usize, usize, usize)>, i: int) -> int {
    if i == 0 {
        0
    } else {
        found[i - 1].2 as int
    }
}

/// Each match is the next one behind the one before, and none is left behind the last.
#[verifier::opaque]
pub open spec fn is_scan(
    patterns: Seq<Seq<u8>>,
    data: Seq<u8>,
    found: Seq<(usize, usize, usize)>,
) -> bool {
    &&& forall|i: int|
        0 <= i < found.len() ==> is_next(
            patterns,
            data,
            search_start(found, i),
            #[trigger] found[i],
        )
    &&& forall|p: int, start: int, end: int|
        search_start(found, found.len() as int) <= start ==> !(#[trigger] is_match(
            patterns,
            data,
            p,
            start,
            end,
        ))
}
/// No pattern is empty, and the automaton has room for what can match at its states.
pub open spec fn can_scan(patterns: Seq<Seq<u8>>) -> bool {
    &&& strings_size(patterns) <= MAX_AUTOMATON
    &&& patterns.len() * strings_size(patterns) <= MAX_AUTOMATON
    &&& forall|k: int| 0 <= k < patterns.len() ==> (#[trigger] patterns[k]).len() > 0
}

/// The matches of `patterns` in `data`, as pattern index, start and end, by
/// `aho_corasick::AhoCorasick::find_iter` on the automaton of `aho_corasick::AhoCorasick::new`,
/// whose match kind is the standard one. Claimed of it: each match is the one that ends first
/// behind the one before it, of those that end there the longest, and of equal patterns the first;
/// the search goes on until there is no further match. The automaton can be built whenever its
/// states, its transitions and the matches at its states can be numbered below 2^31 - 1: it has
/// hardly more states than the patterns have bytes, and at each no more matches than there are
/// patterns.
#[verifier::external_body]
fn find_earliest(patterns: &Vec<Vec<u8>>, data: &[u8]) -> (found: Vec<(usize, usize, usize)>)
    requires
        can_scan(strings(patterns@)),
    ensures
        is_scan(strings(patterns@), data@, found@),
{
    aho_corasick::AhoCorasick::new(patterns)
        .expect("the patterns are within the automaton's limits")
        .find_iter(data)
        .map(|m| (m.pattern().as_usize(), m.start(), m.end()))
        .collect()
}

/// How many of the first `n` matches are of pattern `p`.
pub open spec fn matches_of(found: Seq<(usize, usize, usize)>, p: int, n: nat) -> nat
    decreases n,
{
    if n == 0 {
        0
    } else {
        matches_of(found, p, (n - 1) as nat) + if found[n - 1].0 == p {
            1nat
        } else {
            0
        }
    }
}

/// Where the first `n` matches of pattern `p` start, in a file in which the data starts at `pos`.
pub open spec fn starts_of(
    found: Seq<(usize, usize, usize)>,
    p: int,
    pos: nat,
    n: nat,
) -> Seq<usize>
    decreases n,
{
    if n == 0 {
        Seq::empty()
    } else {
        let before = starts_of(found, p, pos, (n - 1) as nat);
        if found[n - 1].0 == p {
            before.push((pos + found[n - 1].1) as usize)
        } else {
            before
        }
    }
}
/// Counts of patterns, and where those start whose places are kept.
#[derive(Debug)]
pub struct Hits {
    pub counts: Vec<usize>,
    pub offsets: Vec<Vec<usize>>,
}

impl Hits {
    pub open spec fn wf(&self, n: nat) -> bool {
        self.counts@.len() == n && self.offsets@.len() == n
    }

    /// No hits of `n` patterns.
    pub fn begin(n: usize) -> (h: Self)
        ensures
            h.wf(n as nat),
            forall|p: int| 0 <= p < n ==> (#[trigger] h.counts@[p]) == 0,
            forall|p: int| 0 <= p < n ==> (#[trigger] h.offsets@[p])@ == Seq::<usize>::empty(),
    {
        let mut counts: Vec<usize> = Vec::with_capacity(n);
        let mut offsets: Vec<Vec<usize>> = Vec::with_capacity(n);
        let mut i: usize = 0;
        while i < n
            invariant
                i <= n,
                counts.len() == i,
                offsets.len() == i,
                forall|p: int| 0 <= p < i ==> (#[trigger] counts@[p]) == 0,
                forall|p: int| 0 <= p < i ==> (#[trigger] offsets@[p])@ == Seq::<usize>::empty(),
            decreases n - i,
        {
            counts.push(0);
            offsets.push(Vec::new());
            i = i + 1;
        }
        Hits { counts, offsets }
    }

    /// The hits after a scan found the matches in data that starts at `pos` in a file: the counts
    /// grow by the matches, and where a pattern's places are kept, they grow by where those start.
    pub open spec fn grew(
        &self,
        before: Self,
        found: Seq<(usize, usize, usize)>,
        store: Seq<bool>,
        pos: nat,
        n: nat,
    ) -> bool {
        &&& self.wf(before.counts@.len())
        &&& forall|p: int|
            0 <= p < self.counts@.len() ==> (#[trigger] self.counts@[p]) == before.counts@[p]
                + matches_of(found, p, n)
        &&& forall|p: int|
            0 <= p < self.offsets@.len() ==> (#[trigger] self.offsets@[p])@
                == before.offsets@[p]@ + (if store[p] {
                starts_of(found, p, pos, n)
            } else {
                Seq::empty()
            })
    }

    /// Takes up one match of pattern `p` at `at`.
    fn record(&mut self, p: usize, at: usize, keep: bool)
        requires
            p < old(self).counts@.len(),
            old(self).wf(old(self).counts@.len()),
            old(self).counts@[p as int] < usize::MAX,
        ensures
            final(self).counts@ == old(self).counts@.update(
                p as int,
                (old(self).counts@[p as int] + 1) as usize,
            ),
            final(self).offsets@.len() == old(self).offsets@.len(),
            forall|q: int|
                0 <= q < old(self).offsets@.len() ==> (#[trigger] final(self).offsets@[q])@ == (if q
                    == p && keep {
                    old(self).offsets@[q]@.push(at)
                } else {
                    old(self).offsets@[q]@
                }),
    {
        let n = self.counts[p];
        self.counts.set(p, n + 1);
        if keep {
            let mut list: Vec<usize> = Vec::new();
            std::mem::swap(&mut list, &mut self.offsets[p]);
            list.push(at);
            self.offsets.set(p, list);
        }
    }
    /// Takes up matches that were found in data that starts at `pos` in a file.
    fn take_up(
        &mut self,
        found: &Vec<(usize, usize, usize)>,
        store: &Vec<bool>,
        pos: usize,
        Ghost(len): Ghost<nat>,
    )
        requires
            old(self).wf(store@.len()),
            pos + len <= usize::MAX,
            found@.len() <= len,
            forall|k: int|
                0 <= k < found@.len() ==> (#[trigger] found@[k]).0 < store@.len() && found@[k].1
                    <= len,
            forall|p: int|
                0 <= p < store@.len() ==> (#[trigger] old(self).counts@[p]) <= pos,
        ensures
            final(self).grew(*old(self), found@, store@, pos as nat, found@.len()),
    {
        let ghost before = *self;
        let ghost count = store@.len();
        let mut i: usize = 0;
        proof {
            lemma_grew_none(before, found@, store@, pos as nat);
        }
        while i < found.len()
            invariant
                i <= found.len() <= len,
                count == store@.len(),
                before.wf(count),
                pos + len <= usize::MAX,
                forall|k: int|
                    0 <= k < found@.len() ==> (#[trigger] found@[k]).0 < count && found@[k].1
                        <= len,
                forall|p: int| 0 <= p < count ==> (#[trigger] before.counts@[p]) <= pos,
                self.grew(before, found@, store@, pos as nat, i as nat),
            decreases found.len() - i,
        {
            let p = found[i].0;
            let start = found[i].1;
            let ghost was = *self;
            proof {
                assert(found@[i as int].0 == p && found@[i as int].1 == start);
                lemma_matches_of(found@, p as int, i as nat);
                assert(self.counts@[p as int] == before.counts@[p as int] + matches_of(
                    found@,
                    p as int,
                    i as nat,
                ));
                assert(before.counts@[p as int] <= pos);
            }
            self.record(p, pos + start, store[p]);
            proof {
                lemma_grew_step(before, was, *self, found@, store@, pos as nat, i as nat);
            }
            i = i + 1;
        }
    }

    /// These are the counts and places of the matches in a file.
    pub open spec fn tells(&self, found: Seq<(usize, usize, usize)>, store: Seq<bool>) -> bool {
        &&& self.wf(store.len())
        &&& forall|p: int|
            0 <= p < store.len() ==> (#[trigger] self.counts@[p]) == matches_of(
                found,
                p,
                found.len(),
            )
        &&& forall|p: int|
            0 <= p < store.len() ==> (#[trigger] self.offsets@[p])@ == (if store[p] {
                starts_of(found, p, 0, found.len())
            } else {
                Seq::empty()
            })
    }
}

proof fn lemma_grew_none(
    before: Hits,
    found: Seq<(usize, usize, usize)>,
    store: Seq<bool>,
    pos: nat,
)
    requires
        before.wf(before.counts@.len()),
    ensures
        before.grew(before, found, store, pos, 0),
{
    assert forall|p: int| 0 <= p < before.offsets@.len() implies (#[trigger] before.offsets@[p])@
        == before.offsets@[p]@ + (if store[p] {
        starts_of(found, p, pos, 0)
    } else {
        Seq::empty()
    }) by {
        assert(before.offsets@[p]@ =~= before.offsets@[p]@ + Seq::<usize>::empty());
    }
}

proof fn lemma_grew_step(
    before: Hits,
    was: Hits,
    now: Hits,
    found: Seq<(usize, usize, usize)>,
    store: Seq<bool>,
    pos: nat,
    i: nat,
)
    requires
        i < found.len(),
        found[i as int].0 < was.counts@.len(),
        was.grew(before, found, store, pos, i),
        pos + found[i as int].1 <= usize::MAX,
        now.counts@ == was.counts@.update(
            found[i as int].0 as int,
            (was.counts@[found[i as int].0 as int] + 1) as usize,
        ),
        was.counts@[found[i as int].0 as int] < usize::MAX,
        now.offsets@.len() == was.offsets@.len(),
        forall|q: int|
            0 <= q < was.offsets@.len() ==> (#[trigger] now.offsets@[q])@ == (if q
                == found[i as int].0 && store[found[i as int].0 as int] {
                was.offsets@[q]@.push((pos + found[i as int].1) as usize)
            } else {
                was.offsets@[q]@
            }),
    ensures
        now.grew(before, found, store, pos, i + 1),
{
    let p = found[i as int].0 as int;
    assert forall|q: int| 0 <= q < now.counts@.len() implies (#[trigger] now.counts@[q])
        == before.counts@[q] + matches_of(found, q, i + 1) by {
        assert(was.counts@[q] == before.counts@[q] + matches_of(found, q, i));
    }
    assert forall|q: int| 0 <= q < now.offsets@.len() implies (#[trigger] now.offsets@[q])@
        == before.offsets@[q]@ + (if store[q] {
        starts_of(found, q, pos, i + 1)
    } else {
        Seq::empty()
    }) by {
        let part = if store[q] {
            starts_of(found, q, pos, i)
        } else {
            Seq::empty()
        };
        assert(was.offsets@[q]@ == before.offsets@[q]@ + part);
        if q == p && store[q] {
            let at = (pos + found[i as int].1) as usize;
            assert(was.offsets@[q]@.push(at) =~= before.offsets@[q]@ + part.push(at));
        }
    }
}

proof fn lemma_scan_prefix(
    patterns: Seq<Seq<u8>>,
    data: Seq<u8>,
    found: Seq<(usize, usize, usize)>,
    n: nat,
)
    requires
        can_scan(patterns),
        is_scan(patterns, data, found),
        n <= found.len(),
    ensures
        n <= search_start(found, n as int) <= data.len(),
        forall|k: int|
            0 <= k < n ==> (#[trigger] found[k]).0 < patterns.len() && found[k].1 <= data.len(),
    decreases n,
{
    if n > 0 {
        reveal(is_scan);
        lemma_scan_prefix(patterns, data, found, (n - 1) as nat);
        let m = found[n - 1];
        assert(is_next(patterns, data, search_start(found, n - 1), found[n - 1]));
        assert(patterns[m.0 as int].len() > 0);
        assert(data.subrange(m.1 as int, m.2 as int).len() == m.2 - m.1);
    }
}

proof fn lemma_scan_bounds(
    patterns: Seq<Seq<u8>>,
    data: Seq<u8>,
    found: Seq<(usize, usize, usize)>,
)
    requires
        can_scan(patterns),
        is_scan(patterns, data, found),
    ensures
        found.len() <= data.len(),
        forall|k: int|
            0 <= k < found.len() ==> (#[trigger] found[k]).0 < patterns.len() && found[k].1
                <= data.len(),
{
    lemma_scan_prefix(patterns, data, found, found.len());
}

proof fn lemma_matches_of(found: Seq<(usize, usize, usize)>, p: int, n: nat)
    ensures
        matches_of(found, p, n) <= n,
    decreases n,
{
    if n > 0 {
        lemma_matches_of(found, p, (n - 1) as nat);
    }
}
/// Matches in data that starts at `pos` in a file, as matches in the file.
pub open spec fn moved(found: Seq<(usize, usize, usize)>, pos: nat) -> Seq<(usize, usize, usize)> {
    Seq::new(
        found.len(),
        |i: int| (found[i].0, (pos + found[i].1) as usize, (pos + found[i].2) as usize),
    )
}

proof fn lemma_tells_grow(
    before: Hits,
    now: Hits,
    a: Seq<(usize, usize, usize)>,
    b: Seq<(usize, usize, usize)>,
    store: Seq<bool>,
    pos: nat,
)
    requires
        before.tells(a, store),
        now.grew(before, b, store, pos, b.len()),
    ensures
        now.tells(a + moved(b, pos), store),
{
    let all = a + moved(b, pos);
    assert forall|p: int| 0 <= p < store.len() implies (#[trigger] now.counts@[p]) == matches_of(
        all,
        p,
        all.len(),
    ) by {
        lemma_count_joined(a, b, p, pos, b.len());
    }
    assert forall|p: int| 0 <= p < store.len() implies (#[trigger] now.offsets@[p])@ == (
    if store[p] {
        starts_of(all, p, 0, all.len())
    } else {
        Seq::empty()
    }) by {
        assert(before.offsets@[p]@ == (if store[p] {
            starts_of(a, p, 0, a.len())
        } else {
            Seq::empty()
        }));
        lemma_count_joined(a, b, p, pos, b.len());
        assert(Seq::<usize>::empty() + Seq::<usize>::empty() =~= Seq::<usize>::empty());
    }
}

proof fn lemma_count_joined(
    a: Seq<(usize, usize, usize)>,
    b: Seq<(usize, usize, usize)>,
    p: int,
    pos: nat,
    n: nat,
)
    requires
        n <= b.len(),
    ensures
        matches_of(a + moved(b, pos), p, a.len() + n) == matches_of(a, p, a.len()) + matches_of(
            b,
            p,
            n,
        ),
        starts_of(a + moved(b, pos), p, 0, a.len() + n) == starts_of(a, p, 0, a.len())
            + starts_of(b, p, pos, n),
    decreases n,
{
    let all = a + moved(b, pos);
    if n > 0 {
        lemma_count_joined(a, b, p, pos, (n - 1) as nat);
        assert(all[a.len() + n - 1] == moved(b, pos)[n - 1]);
        assert(starts_of(all, p, 0, a.len() + n) =~= starts_of(a, p, 0, a.len()) + starts_of(
            b,
            p,
            pos,
            n,
        ));
    } else {
        lemma_count_front(a, all, p, a.len());
        assert(starts_of(a, p, 0, a.len()) + Seq::<usize>::empty() =~= starts_of(
            a,
            p,
            0,
            a.len(),
        ));
    }
}

proof fn lemma_count_front(
    a: Seq<(usize, usize, usize)>,
    all: Seq<(usize, usize, usize)>,
    p: int,
    n: nat,
)
    requires
        n <= a.len() <= all.len(),
        forall|i: int| 0 <= i < a.len() ==> a[i] == all[i],
    ensures
        matches_of(all, p, n) == matches_of(a, p, n),
        starts_of(all, p, 0, n) == starts_of(a, p, 0, n),
    decreases n,
{
    if n > 0 {
        lemma_count_front(a, all, p, (n - 1) as nat);
        assert(a[n - 1] == all[n - 1]);
    }
}

/// A match in the data is one in a file in which the data starts at `pos`, and the other way round.
proof fn lemma_match_moves(
    patterns: Seq<Seq<u8>>,
    file: Seq<u8>,
    pos: nat,
    p: int,
    start: int,
    end: int,
)
    requires
        pos <= file.len(),
        start >= pos,
    ensures
        is_match(patterns, file, p, start, end) == is_match(
            patterns,
            file.skip(pos as int),
            p,
            start - pos,
            end - pos,
        ),
{
    if start <= end <= file.len() {
        assert(file.skip(pos as int).subrange(start - pos, end - pos) =~= file.subrange(start, end));
    }
}

proof fn lemma_match_extends(
    patterns: Seq<Seq<u8>>,
    before: Seq<u8>,
    read: Seq<u8>,
    p: int,
    start: int,
    end: int,
)
    requires
        end <= before.len(),
    ensures
        is_match(patterns, before + read, p, start, end) == is_match(
            patterns,
            before,
            p,
            start,
            end,
        ),
{
    if 0 <= start <= end {
        assert((before + read).subrange(start, end) =~= before.subrange(start, end));
    }
}

/// Where the rest of the file may be searched from: no match that is still to come starts before.
pub open spec fn may_resume(
    found: Seq<(usize, usize, usize)>,
    len: nat,
    longest: nat,
    pos: nat,
) -> bool {
    &&& search_start(found, found.len() as int) <= pos <= len
    &&& pos == search_start(found, found.len() as int) || pos - 1 + longest <= len
}

proof fn lemma_scan_at(
    patterns: Seq<Seq<u8>>,
    data: Seq<u8>,
    found: Seq<(usize, usize, usize)>,
    i: int,
)
    requires
        is_scan(patterns, data, found),
        0 <= i < found.len(),
    ensures
        is_next(patterns, data, search_start(found, i), found[i]),
{
    reveal(is_scan);
}

proof fn lemma_scan_done(
    patterns: Seq<Seq<u8>>,
    data: Seq<u8>,
    found: Seq<(usize, usize, usize)>,
    p: int,
    start: int,
    end: int,
)
    requires
        is_scan(patterns, data, found),
        search_start(found, found.len() as int) <= start,
    ensures
        !is_match(patterns, data, p, start, end),
{
    reveal(is_scan);
}

/// A match that starts before `pos` and has not been found is no match.
proof fn lemma_none_between(
    patterns: Seq<Seq<u8>>,
    before: Seq<u8>,
    read: Seq<u8>,
    a: Seq<(usize, usize, usize)>,
    longest: nat,
    pos: nat,
    p: int,
    start: int,
    end: int,
)
    requires
        forall|k: int| 0 <= k < patterns.len() ==> (#[trigger] patterns[k]).len() <= longest,
        is_scan(patterns, before, a),
        may_resume(a, before.len(), longest, pos),
        search_start(a, a.len() as int) <= start < pos,
    ensures
        !is_match(patterns, before + read, p, start, end),
{
    let file = before + read;
    if is_match(patterns, file, p, start, end) {
        assert(file.subrange(start, end).len() == end - start);
        assert(patterns[p].len() <= longest);
        lemma_match_extends(patterns, before, read, p, start, end);
        lemma_scan_done(patterns, before, a, p, start, end);
    }
}

proof fn lemma_next_stays(
    patterns: Seq<Seq<u8>>,
    before: Seq<u8>,
    read: Seq<u8>,
    from: int,
    m: (usize, usize, usize),
)
    requires
        is_next(patterns, before, from, m),
    ensures
        is_next(patterns, before + read, from, m),
{
    lemma_match_extends(patterns, before, read, m.0 as int, m.1 as int, m.2 as int);
    assert forall|p: int, start: int, end: int|
        from <= start && #[trigger] is_match(
            patterns,
            before + read,
            p,
            start,
            end,
        ) implies m.2 < end || (m.2 == end && (m.1 < start || (m.1 == start && m.0 <= p))) by {
        if end <= before.len() {
            lemma_match_extends(patterns, before, read, p, start, end);
            assert(is_match(patterns, before, p, start, end));
        }
    }
}

proof fn lemma_next_moves(
    patterns: Seq<Seq<u8>>,
    file: Seq<u8>,
    pos: nat,
    from: int,
    here: int,
    q: (usize, usize, usize),
    m: (usize, usize, usize),
)
    requires
        pos <= file.len(),
        is_next(patterns, file.skip(pos as int), here, q),
        0 <= here,
        from <= pos + here,
        m.0 == q.0,
        m.1 == pos + q.1,
        m.2 == pos + q.2,
        forall|p: int, start: int, end: int|
            from <= start < pos + here ==> !(#[trigger] is_match(patterns, file, p, start, end)),
    ensures
        is_next(patterns, file, from, m),
{
    let data = file.skip(pos as int);
    lemma_match_moves(patterns, file, pos, m.0 as int, m.1 as int, m.2 as int);
    assert forall|p: int, start: int, end: int|
        from <= start && #[trigger] is_match(patterns, file, p, start, end) implies m.2 < end || (
    m.2 == end && (m.1 < start || (m.1 == start && m.0 <= p))) by {
        assert(start >= pos + here);
        lemma_match_moves(patterns, file, pos, p, start, end);
        assert(is_match(patterns, data, p, start - pos, end - pos));
    }
}

proof fn lemma_scan_goes_on(
    patterns: Seq<Seq<u8>>,
    before: Seq<u8>,
    read: Seq<u8>,
    a: Seq<(usize, usize, usize)>,
    b: Seq<(usize, usize, usize)>,
    longest: nat,
    pos: nat,
)
    requires
        can_scan(patterns),
        forall|k: int| 0 <= k < patterns.len() ==> (#[trigger] patterns[k]).len() <= longest,
        before.len() + read.len() <= usize::MAX,
        is_scan(patterns, before, a),
        may_resume(a, before.len(), longest, pos),
        is_scan(patterns, (before + read).skip(pos as int), b),
    ensures
        is_scan(patterns, before + read, a + moved(b, pos)),
{
    let file = before + read;
    let data = file.skip(pos as int);
    let all = a + moved(b, pos);
    let ss = search_start(a, a.len() as int);
    lemma_scan_ends(patterns, data, b);
    assert forall|i: int| 0 <= i < all.len() implies is_next(
        patterns,
        file,
        search_start(all, i),
        #[trigger] all[i],
    ) by {
        if i < a.len() {
            assert(all[i] == a[i]);
            assert(i > 0 ==> all[i - 1] == a[i - 1]);
            lemma_scan_at(patterns, before, a, i);
            lemma_next_stays(patterns, before, read, search_start(a, i), a[i]);
        } else {
            let j = i - a.len();
            assert(all[i] == moved(b, pos)[j]);
            lemma_scan_at(patterns, data, b, j);
            let from = search_start(all, i);
            let here = search_start(b, j);
            if j > 0 {
                assert(all[i - 1] == moved(b, pos)[j - 1]);
                assert(b[j - 1].2 <= data.len());
            } else {
                assert(i > 0 ==> all[i - 1] == a[i - 1]);
                assert(from == ss);
            }
            assert forall|p: int, start: int, end: int| from <= start < pos + here implies !(
            #[trigger] is_match(patterns, file, p, start, end)) by {
                lemma_none_between(patterns, before, read, a, longest, pos, p, start, end);
            }
            lemma_next_moves(patterns, file, pos, from, here, b[j], all[i]);
        }
    }
    let last = search_start(all, all.len() as int);
    if b.len() > 0 {
        assert(all[all.len() - 1] == moved(b, pos)[b.len() - 1]);
        assert(b[b.len() - 1].2 <= data.len());
    } else {
        assert(all =~= a);
    }
    assert forall|p: int, start: int, end: int| last <= start implies !(#[trigger] is_match(
        patterns,
        file,
        p,
        start,
        end,
    )) by {
        if start >= pos {
            lemma_match_moves(patterns, file, pos, p, start, end);
            lemma_scan_done(patterns, data, b, p, start - pos, end - pos);
        } else {
            lemma_none_between(patterns, before, read, a, longest, pos, p, start, end);
        }
    }
    reveal(is_scan);
}

proof fn lemma_scan_ends(
    patterns: Seq<Seq<u8>>,
    data: Seq<u8>,
    found: Seq<(usize, usize, usize)>,
)
    requires
        is_scan(patterns, data, found),
    ensures
        forall|k: int|
            0 <= k < found.len() ==> (#[trigger] found[k]).1 <= found[k].2 <= data.len()
                && search_start(found, k) <= found[k].1,
{
    reveal(is_scan);
    assert forall|k: int| 0 <= k < found.len() implies (#[trigger] found[k]).1 <= found[k].2
        <= data.len() && search_start(found, k) <= found[k].1 by {
        assert(is_next(patterns, data, search_start(found, k), found[k]));
    }
}

/// The hits are those in the whole file: those of a scan of it, with their places where those are
/// kept.
pub open spec fn hits_in(
    patterns: Seq<Seq<u8>>,
    store: Seq<bool>,
    file: Seq<u8>,
    hits: Hits,
) -> bool {
    exists|found: Seq<(usize, usize, usize)>|
        #[trigger] is_scan(patterns, file, found) && hits.tells(found, store)
}

/// A file that is scanned piece by piece. The bytes from `pos` on are kept: those in which a match
/// can begin that has not ended yet.
pub struct Scanner {
    pub patterns: Vec<Vec<u8>>,
    pub store: Vec<bool>,
    pub longest: usize,
    pub pos: usize,
    pub carry: Vec<u8>,
    pub hits: Hits,
    pub seen: Ghost<Seq<u8>>,
}

impl View for Scanner {
    type V = Seq<u8>;

    /// What has been read.
    open spec fn view(&self) -> Seq<u8> {
        self.seen@
    }
}

impl Scanner {
    /// The matches that the hits tell of.
    pub open spec fn told(&self, found: Seq<(usize, usize, usize)>) -> bool {
        &&& is_scan(strings(self.patterns@), self@, found)
        &&& self.hits.tells(found, self.store@)
        &&& may_resume(found, self@.len(), self.longest as nat, self.pos as nat)
    }

    /// The hits are those in what has been read.
    pub open spec fn wf(&self) -> bool {
        &&& can_scan(strings(self.patterns@))
        &&& self.store@.len() == self.patterns@.len()
        &&& forall|k: int|
            0 <= k < self.patterns@.len() ==> (#[trigger] strings(self.patterns@)[k]).len()
                <= self.longest
        &&& self.longest > 0
        &&& self@.len() <= usize::MAX
        &&& self.pos <= self@.len()
        &&& self.carry@ == self@.skip(self.pos as int)
        &&& exists|found: Seq<(usize, usize, usize)>| #[trigger] self.told(found)
    }

    /// Nothing has been read.
    pub fn begin(patterns: Vec<Vec<u8>>, store: Vec<bool>) -> (s: Self)
        requires
            can_scan(strings(patterns@)),
            store@.len() == patterns@.len(),
        ensures
            s.wf(),
            s@ == Seq::<u8>::empty(),
            s.patterns == patterns,
            s.store == store,
    {
        let mut longest: usize = 1;
        let mut i: usize = 0;
        while i < patterns.len()
            invariant
                i <= patterns.len(),
                longest > 0,
                forall|k: int| 0 <= k < i ==> (#[trigger] strings(patterns@)[k]).len() <= longest,
            decreases patterns.len() - i,
        {
            assert(strings(patterns@)[i as int] == patterns@[i as int]@);
            if patterns[i].len() > longest {
                longest = patterns[i].len();
            }
            i = i + 1;
        }
        let hits = Hits::begin(patterns.len());
        let s = Scanner {
            patterns,
            store,
            longest,
            pos: 0,
            carry: Vec::new(),
            hits,
            seen: Ghost(Seq::empty()),
        };
        proof {
            let none = Seq::<(usize, usize, usize)>::empty();
            assert(s.carry@ =~= s@.skip(0));
            reveal(is_scan);
            let pats = strings(s.patterns@);
            assert forall|p: int, start: int, end: int| 0 <= start implies !(#[trigger] is_match(
                pats,
                s@,
                p,
                start,
                end,
            )) by {
                if is_match(pats, s@, p, start, end) {
                    assert(s@.subrange(start, end).len() == 0);
                    assert(pats[p].len() > 0);
                }
            }
            assert(s.told(none));
        }
        s
    }

    /// Reads on.
    pub fn feed(&mut self, read: &[u8])
        requires
            old(self).wf(),
            old(self)@.len() + read@.len() <= usize::MAX,
        ensures
            final(self).wf(),
            final(self)@ == old(self)@ + read@,
            final(self).patterns == old(self).patterns,
            final(self).store == old(self).store,
    {
        let ghost before = self@;
        let ghost file = before + read@;
        let ghost pats = strings(self.patterns@);
        let ghost a = choose|found: Seq<(usize, usize, usize)>| #[trigger] self.told(found);
        let pos = self.pos;
        let mut data = copy_of(self.carry.as_slice());
        data.extend_from_slice(read);
        assert(data@ =~= file.skip(pos as int));
        let found = find_earliest(&self.patterns, &data);
        let ghost was = self.hits;
        proof {
            lemma_scan_bounds(pats, data@, found@);
            lemma_scan_ends(pats, data@, found@);
            lemma_scan_prefix(pats, before, a, a.len());
            assert forall|p: int| 0 <= p < self.store@.len() implies (
            #[trigger] self.hits.counts@[p]) <= pos by {
                lemma_matches_of(a, p, a.len());
            }
        }
        self.hits.take_up(&found, &self.store, pos, Ghost(data@.len()));
        let ghost all = a + moved(found@, pos as nat);
        proof {
            lemma_tells_grow(was, self.hits, a, found@, self.store@, pos as nat);
            lemma_scan_goes_on(pats, before, read@, a, found@, self.longest as nat, pos as nat);
        }
        let last: usize = if found.len() > 0 {
            found[found.len() - 1].2
        } else {
            0
        };
        let keep: usize = if data.len() - last >= self.longest {
            data.len() - (self.longest - 1)
        } else {
            last
        };
        let tail = &data[keep..data.len()];
        self.carry = copy_of(tail);
        self.pos = pos + keep;
        proof {
            self.seen@ = file;
            assert(self.carry@ =~= file.skip(self.pos as int));
            if found@.len() > 0 {
                assert(all[all.len() - 1] == moved(found@, pos as nat)[found@.len() - 1]);
            } else {
                assert(all =~= a);
            }
            assert(self.told(all));
        }
    }

    /// The hits, once the whole file has been read.
    pub fn finish(self) -> (hits: Hits)
        requires
            self.wf(),
        ensures
            hits_in(strings(self.patterns@), self.store@, self@, hits),
            hits.wf(self.patterns@.len()),
    {
        proof {
            let a = choose|found: Seq<(usize, usize, usize)>| #[trigger] self.told(found);
            assert(is_scan(strings(self.patterns@), self@, a));
        }
        self.hits
    }
}

/// A file has only one scan.
pub proof fn lemma_scan_unique(
    patterns: Seq<Seq<u8>>,
    file: Seq<u8>,
    a: Seq<(usize, usize, usize)>,
    b: Seq<(usize, usize, usize)>,
)
    requires
        is_scan(patterns, file, a),
        is_scan(patterns, file, b),
    ensures
        a == b,
{
    lemma_scan_agrees(patterns, file, a, b, a.len());
    lemma_scan_agrees(patterns, file, b, a, b.len());
    assert(a =~= b);
}

proof fn lemma_scan_agrees(
    patterns: Seq<Seq<u8>>,
    file: Seq<u8>,
    a: Seq<(usize, usize, usize)>,
    b: Seq<(usize, usize, usize)>,
    n: nat,
)
    requires
        is_scan(patterns, file, a),
        is_scan(patterns, file, b),
        n <= a.len(),
    ensures
        n <= b.len(),
        forall|i: int| 0 <= i < n ==> a[i] == b[i],
    decreases n,
{
    if n > 0 {
        lemma_scan_agrees(patterns, file, a, b, (n - 1) as nat);
        let i = n - 1;
        let m = a[i];
        assert(i > 0 ==> a[i - 1] == b[i - 1]);
        lemma_scan_at(patterns, file, a, i);
        if b.len() == i {
            lemma_scan_done(patterns, file, b, m.0 as int, m.1 as int, m.2 as int);
        }
        let q = b[i];
        lemma_scan_at(patterns, file, b, i);
        assert(is_match(patterns, file, m.0 as int, m.1 as int, m.2 as int));
        assert(is_match(patterns, file, q.0 as int, q.1 as int, q.2 as int));
    }
}

/// Every hundredth place that more than 14 bytes follow is sampled, with every byte string of 14 to 16
/// bytes that there is room for.
pub proof fn lemma_samples_complete(file: Seq<u8>, k: nat, place: int, len: int)
    requires
        place % 100 == 0,
        0 <= place < 100 * k,
        place + 14 < file.len(),
        14 <= len <= 16,
        place + len <= file.len(),
    ensures
        samples_upto(file, k).contains(file.subrange(place, place + len)),
    decreases k,
{
    let before = samples_upto(file, (k - 1) as nat);
    let all = samples_upto(file, k);
    let x = file.subrange(place, place + len);
    if place == 100 * (k - 1) {
        let new = samples_at(file, place);
        assert(new[len - 14] == x);
        assert(all[before.len() + len - 14] == x);
    } else {
        lemma_samples_complete(file, (k - 1) as nat, place, len);
        let i = choose|i: int| 0 <= i < before.len() && before[i] == x;
        assert(all[i] == x);
    }
}

/// As many places are sampled as there are multiples of a hundred that more than 14 bytes follow.
pub proof fn lemma_sample_places(len: nat, k: nat)
    ensures
        k < sample_places(len) <==> 100 * k + 14 < len,
{
}

/// The places that are kept of a pattern are those of its matches: there are as many, and the start of
/// each match is among them.
pub proof fn lemma_starts_kept(
    found: Seq<(usize, usize, usize)>,
    p: int,
    pos: nat,
    n: nat,
    j: int,
)
    requires
        0 <= j < n <= found.len(),
    ensures
        starts_of(found, p, pos, n).len() == matches_of(found, p, n),
        found[j].0 == p ==> starts_of(found, p, pos, n).contains((pos + found[j].1) as usize),
    decreases n,
{
    let before = starts_of(found, p, pos, (n - 1) as nat);
    let all = starts_of(found, p, pos, n);
    if n > 1 {
        lemma_starts_kept(
            found,
            p,
            pos,
            (n - 1) as nat,
            if j < n - 1 {
                j
            } else {
                0
            },
        );
    } else {
        assert(before.len() == 0);
        assert(matches_of(found, p, 0) == 0);
    }
    if found[j].0 == p {
        let x = (pos + found[j].1) as usize;
        if j == n - 1 {
            assert(all[before.len() as int] == x);
        } else {
            let i = choose|i: int| 0 <= i < before.len() && before[i] == x;
            assert(all[i] == x);
        }
    }
}

} // verus!
