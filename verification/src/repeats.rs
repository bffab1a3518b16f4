//! The search for a repeated byte string, as passes over a file.

use vstd::prelude::*;

use crate::bytes::copy_of;
use crate::dict::{strings, strings_size};
use crate::scanning::{can_scan, Hits, MAX_SUBSTR_LEN, MIN_SUBSTR_LEN};
use crate::sort::{lemma_ordered, lemma_rank_order_total, order_ranked, rank_order};
use crate::substrings::{
    affixes, affixes_below, best_candidate, extend_pattern, frequent_affixes, growth, grows_to,
    is_best, is_growth, lemma_affixes, lemma_grown_as_far_as_it_goes, moved_down, pattern_value,
    rank_samples, ranked_substrings, sample_ranks, substring_of, substring_values, summarize,
    top_samples, Grown, Growth, Substring, SubstringValue, MAX_EXTENSION, MIN_SUBSTR_COUNT,
    TOP_CANDIDATES,
};
use crate::windows::{counted_views, Counted, WindowCount};

verus! {

/// What the next pass is for, or what the search has ended with.
#[derive(Debug)]
pub enum Pass {
    /// The candidates are counted.
    Count { candidates: Vec<Vec<u8>> },
    /// A byte string is located, which has grown by `rounds` bytes.
    Locate { bytes: Vec<u8>, rounds: usize },
    /// The fronts and ends of a byte string are counted.
    Affixes { bytes: Vec<u8>, offsets: Vec<usize>, list: Vec<Vec<u8>> },
    /// A byte string is located that does not grow any more.
    Last { bytes: Vec<u8> },
    /// A byte string was found; the rows are what is shown of it, the best first.
    Found { bytes: Vec<u8>, offsets: Vec<usize>, rows: Vec<Substring> },
    /// No byte string occurs often enough.
    Nothing,
    /// An occurrence would have to begin before the data.
    OutOfData,
}

/// What a `Pass` says.
pub enum Step {
    Count { candidates: Seq<Seq<u8>> },
    Locate { bytes: Seq<u8>, rounds: nat },
    Affixes { bytes: Seq<u8>, offsets: Seq<usize>, list: Seq<Seq<u8>> },
    Last { bytes: Seq<u8> },
    Found { bytes: Seq<u8>, offsets: Seq<usize>, rows: Seq<SubstringValue> },
    Nothing,
    OutOfData,
}

impl View for Pass {
    type V = Step;

    open spec fn view(&self) -> Step {
        match *self {
            Pass::Count { candidates } => Step::Count { candidates: strings(candidates@) },
            Pass::Locate { bytes, rounds } => Step::Locate { bytes: bytes@, rounds: rounds as nat },
            Pass::Affixes { bytes, offsets, list } => Step::Affixes {
                bytes: bytes@,
                offsets: offsets@,
                list: strings(list@),
            },
            Pass::Last { bytes } => Step::Last { bytes: bytes@ },
            Pass::Found { bytes, offsets, rows } => Step::Found {
                bytes: bytes@,
                offsets: offsets@,
                rows: substring_values(rows@),
            },
            Pass::Nothing => Step::Nothing,
            Pass::OutOfData => Step::OutOfData,
        }
    }
}

/// The search. A strict one takes up a byte only where every occurrence has it, and locates the
/// byte string anew after each; another one leaves out the occurrences at the edge of the data.
#[derive(Debug)]
pub struct Repeats {
    pub strict: bool,
    pub pass: Pass,
}

/// The byte strings that the pass looks for.
pub open spec fn wanted_strings(s: Step) -> Seq<Seq<u8>> {
    match s {
        Step::Count { candidates } => candidates,
        Step::Locate { bytes, rounds } => seq![bytes],
        Step::Affixes { bytes, offsets, list } => list,
        Step::Last { bytes } => seq![bytes],
        _ => seq![],
    }
}

/// The pass keeps the places.
pub open spec fn keeps_places(s: Step) -> bool {
    s is Locate || s is Last
}

/// The search has ended.
pub open spec fn has_ended(s: Step) -> bool {
    s is Found || s is Nothing || s is OutOfData
}

/// The rows for a byte string that occurs `count` times, with its frequent fronts and ends.
pub open spec fn rows_of(
    bytes: Seq<u8>,
    count: usize,
    list: Seq<Seq<u8>>,
    counts: Seq<usize>,
) -> Seq<SubstringValue> {
    ranked_substrings(
        seq![substring_of(bytes, count)] + frequent_affixes(list, counts, counts.len()),
    )
}

/// A byte string and its offsets were found, and nothing beside.
pub open spec fn found_alone(bytes: Seq<u8>, offsets: Seq<usize>) -> Step {
    Step::Found { bytes, offsets, rows: rows_of(bytes, offsets.len() as usize, seq![], seq![]) }
}

/// A byte string does not grow any more: its fronts and ends are counted, if there are any.
pub open spec fn grown_up(bytes: Seq<u8>, offsets: Seq<usize>) -> Step {
    let list = affixes_below(bytes, MIN_SUBSTR_LEN as nat, bytes.len());
    if list.len() == 0 {
        found_alone(bytes, offsets)
    } else {
        Step::Affixes { bytes, offsets, list }
    }
}

/// A byte string that has grown by `rounds` bytes in a strict search.
pub open spec fn grown_by(bytes: Seq<u8>, rounds: nat) -> Step {
    if rounds < MAX_EXTENSION {
        Step::Locate { bytes, rounds }
    } else {
        Step::Last { bytes }
    }
}

/// What follows once the candidates are counted: the one that covers the most bytes is located.
pub open spec fn after_count(candidates: Seq<Seq<u8>>, counts: Seq<usize>, next: Step) -> bool {
    if exists|j: int| 0 <= j < counts.len() && (#[trigger] counts[j]) >= MIN_SUBSTR_COUNT {
        exists|i: int|
            #[trigger] is_best(candidates, counts, i) && next == (Step::Locate {
                bytes: candidates[i],
                rounds: 0,
            })
    } else {
        next == Step::Nothing
    }
}

/// What follows once a byte string is located in a strict search.
pub open spec fn after_strict(
    data: Seq<u8>,
    bytes: Seq<u8>,
    rounds: nat,
    offsets: Seq<usize>,
    next: Step,
) -> bool {
    if offsets.len() <= MIN_SUBSTR_COUNT {
        next == (Step::Last { bytes })
    } else {
        exists|g: Growth|
            #[trigger] is_growth(data, offsets, bytes.len(), true, g) && next == match g {
                Growth::Behind(b) => grown_by(bytes.push(b), rounds + 1),
                Growth::Before(b) => grown_by(seq![b] + bytes, rounds + 1),
                Growth::Stop => grown_up(bytes, offsets),
            }
    }
}

/// What follows once a byte string is located in a search that is not strict.
pub open spec fn after_loose(
    data: Seq<u8>,
    bytes: Seq<u8>,
    offsets: Seq<usize>,
    next: Step,
) -> bool {
    if offsets.len() <= MIN_SUBSTR_COUNT {
        next == Step::Nothing
    } else {
        exists|r: Option<Grown>|
            #[trigger] grows_to(data, bytes, offsets, MAX_EXTENSION as nat, r) && next == match r {
                Some(g) => if g.stopped {
                    grown_up(g.bytes, g.offsets)
                } else {
                    Step::Last { bytes: g.bytes }
                },
                None => Step::OutOfData,
            }
    }
}

/// `next` follows `s`, given the data and how often and where the wanted byte strings stand in it.
pub open spec fn follows(
    strict: bool,
    s: Step,
    data: Seq<u8>,
    counts: Seq<usize>,
    places: Seq<Vec<usize>>,
    next: Step,
) -> bool {
    match s {
        Step::Count { candidates } => after_count(candidates, counts, next),
        Step::Locate { bytes, rounds } => if strict {
            after_strict(data, bytes, rounds, places[0]@, next)
        } else {
            after_loose(data, bytes, places[0]@, next)
        },
        Step::Affixes { bytes, offsets, list } => next == (Step::Found {
            bytes,
            offsets,
            rows: rows_of(bytes, offsets.len() as usize, list, counts),
        }),
        Step::Last { bytes } => next == found_alone(bytes, places[0]@),
        _ => next == s,
    }
}

fn copy_strings(list: &Vec<Vec<u8>>) -> (out: Vec<Vec<u8>>)
    ensures
        strings(out@) == strings(list@),
{
    let mut out: Vec<Vec<u8>> = Vec::with_capacity(list.len());
    let mut i: usize = 0;
    while i < list.len()
        invariant
            i <= list.len(),
            out.len() == i,
            forall|j: int| 0 <= j < i ==> (#[trigger] out@[j])@ == list@[j]@,
        decreases list.len() - i,
    {
        out.push(copy_of(list[i].as_slice()));
        i = i + 1;
    }
    assert(strings(out@) =~= strings(list@));
    out
}

fn only(bytes: &Vec<u8>) -> (out: Vec<Vec<u8>>)
    ensures
        strings(out@) == seq![bytes@],
{
    let mut out: Vec<Vec<u8>> = Vec::with_capacity(1);
    out.push(copy_of(bytes.as_slice()));
    assert(strings(out@) =~= seq![bytes@]);
    out
}

fn found_by_itself(bytes: Vec<u8>, offsets: Vec<usize>) -> (p: Pass)
    ensures
        p@ == found_alone(bytes@, offsets@),
{
    let none: Vec<Vec<u8>> = Vec::new();
    let counts: Vec<usize> = Vec::new();
    assert(strings(none@) =~= seq![]);
    assert(counts@ =~= seq![]);
    let rows = summarize(&bytes, offsets.len(), &none, &counts);
    Pass::Found { bytes, offsets, rows }
}

fn stop_growing(bytes: Vec<u8>, offsets: Vec<usize>) -> (p: Pass)
    ensures
        p@ == grown_up(bytes@, offsets@),
{
    let list = affixes(&bytes, MIN_SUBSTR_LEN);
    assert(strings(list@).len() == list@.len());
    if list.len() == 0 {
        found_by_itself(bytes, offsets)
    } else {
        Pass::Affixes { bytes, offsets, list }
    }
}

fn go_on(bytes: Vec<u8>, rounds: usize) -> (p: Pass)
    ensures
        p@ == grown_by(bytes@, rounds as nat),
{
    if rounds < MAX_EXTENSION {
        Pass::Locate { bytes, rounds }
    } else {
        Pass::Last { bytes }
    }
}

fn choose_best(candidates: &Vec<Vec<u8>>, counts: &Vec<usize>) -> (p: Pass)
    requires
        candidates@.len() == counts@.len(),
    ensures
        after_count(strings(candidates@), counts@, p@),
{
    match best_candidate(candidates, counts) {
        Some(i) => {
            assert(is_best(strings(candidates@), counts@, i as int));
            assert(strings(candidates@)[i as int] == candidates@[i as int]@);
            Pass::Locate { bytes: copy_of(candidates[i].as_slice()), rounds: 0 }
        },
        None => Pass::Nothing,
    }
}

fn grow_strictly(data: &[u8], bytes: Vec<u8>, rounds: usize, offsets: Vec<usize>) -> (p: Pass)
    requires
        rounds < MAX_EXTENSION,
    ensures
        after_strict(data@, bytes@, rounds as nat, offsets@, p@),
{
    if offsets.len() <= MIN_SUBSTR_COUNT {
        return Pass::Last { bytes };
    }
    let g = growth(data, &offsets, bytes.len(), true);
    assert(is_growth(data@, offsets@, bytes@.len(), true, g));
    match g {
        Growth::Behind(b) => {
            let mut longer = bytes;
            longer.push(b);
            go_on(longer, rounds + 1)
        },
        Growth::Before(b) => {
            let mut longer = bytes;
            let ghost was = longer@;
            longer.insert(0, b);
            assert(longer@ =~= seq![b] + was);
            go_on(longer, rounds + 1)
        },
        Growth::Stop => stop_growing(bytes, offsets),
    }
}

fn grow_loosely(data: &[u8], bytes: Vec<u8>, offsets: Vec<usize>) -> (p: Pass)
    ensures
        after_loose(data@, bytes@, offsets@, p@),
{
    if offsets.len() <= MIN_SUBSTR_COUNT {
        return Pass::Nothing;
    }
    let ghost start = (bytes@, offsets@);
    let r = extend_pattern(data, bytes, offsets, MAX_EXTENSION);
    assert(grows_to(data@, start.0, start.1, MAX_EXTENSION as nat, pattern_value(r)));
    match r {
        Some(p) => if p.stopped {
            stop_growing(p.bytes, p.offsets)
        } else {
            Pass::Last { bytes: p.bytes }
        },
        None => Pass::OutOfData,
    }
}

impl Repeats {
    /// A byte string is located only before it has grown all it may.
    pub open spec fn wf(&self) -> bool {
        self.pass@ matches Step::Locate { bytes, rounds } ==> rounds < MAX_EXTENSION
    }

    /// Starts the search with the sampled byte strings.
    pub fn begin(strict: bool, entries: &Vec<WindowCount>) -> (s: Self)
        ensures
            s.wf(),
            s.strict == strict,
            s.pass@ == (if entries@.len() == 0 {
                Step::Nothing
            } else {
                Step::Count { candidates: top_samples(counted_views(entries@)) }
            }),
    {
        if entries.len() == 0 {
            Repeats { strict, pass: Pass::Nothing }
        } else {
            Repeats { strict, pass: Pass::Count { candidates: rank_samples(entries) } }
        }
    }

    /// The byte strings that the next pass looks for, and whether it keeps their places. Nothing
    /// once the search has ended.
    pub fn wanted(&self) -> (r: Option<(Vec<Vec<u8>>, bool)>)
        ensures
            r is None <==> has_ended(self.pass@),
            r matches Some(w) ==> strings(w.0@) == wanted_strings(self.pass@) && w.1
                == keeps_places(self.pass@),
    {
        match &self.pass {
            Pass::Count { candidates } => Some((copy_strings(candidates), false)),
            Pass::Locate { bytes, .. } => Some((only(bytes), true)),
            Pass::Affixes { list, .. } => Some((copy_strings(list), false)),
            Pass::Last { bytes } => Some((only(bytes), true)),
            _ => None,
        }
    }

    /// Takes what a pass over `data` has found of the wanted byte strings.
    pub fn take(self, data: &[u8], hits: Hits) -> (s: Self)
        requires
            self.wf(),
            hits.wf(wanted_strings(self.pass@).len()),
        ensures
            s.wf(),
            s.strict == self.strict,
            follows(self.strict, self.pass@, data@, hits.counts@, hits.offsets@, s.pass@),
    {
        let strict = self.strict;
        let mut places = hits.offsets;
        let counts = hits.counts;
        let pass = match self.pass {
            Pass::Count { candidates } => choose_best(&candidates, &counts),
            Pass::Locate { bytes, rounds } => {
                let offsets = places.remove(0);
                if strict {
                    grow_strictly(data, bytes, rounds, offsets)
                } else {
                    grow_loosely(data, bytes, offsets)
                }
            },
            Pass::Affixes { bytes, offsets, list } => {
                let rows = summarize(&bytes, offsets.len(), &list, &counts);
                Pass::Found { bytes, offsets, rows }
            },
            Pass::Last { bytes } => {
                let offsets = places.remove(0);
                found_by_itself(bytes, offsets)
            },
            other => other,
        };
        Repeats { strict, pass }
    }
}

/// How many passes there may still be.
pub open spec fn passes_left(s: Step) -> int {
    match s {
        Step::Count { candidates } => MAX_EXTENSION + 2,
        Step::Locate { bytes, rounds } => MAX_EXTENSION + 1 - rounds,
        Step::Affixes { bytes, offsets, list } => 1,
        Step::Last { bytes } => 1,
        _ => 0,
    }
}

/// The search ends: each pass leaves fewer passes to come, and none are left only once it has
/// ended.
pub proof fn lemma_search_ends(
    strict: bool,
    s: Step,
    data: Seq<u8>,
    counts: Seq<usize>,
    places: Seq<Vec<usize>>,
    next: Step,
)
    requires
        s matches Step::Locate { bytes, rounds } ==> rounds < MAX_EXTENSION,
        !has_ended(s),
        follows(strict, s, data, counts, places, next),
    ensures
        0 <= passes_left(next) < passes_left(s),
        passes_left(next) == 0 <==> has_ended(next),
{
}

/// The byte strings of the pass are not empty, and no longer than a sample that has grown.
pub open spec fn is_short(s: Step) -> bool {
    match s {
        Step::Count { candidates } => candidates.len() <= TOP_CANDIDATES && forall|i: int|
            0 <= i < candidates.len() ==> 0 < (#[trigger] candidates[i]).len() <= MAX_SUBSTR_LEN,
        Step::Locate { bytes, rounds } => 0 < bytes.len() <= MAX_SUBSTR_LEN + rounds && rounds
            < MAX_EXTENSION,
        Step::Affixes { bytes, offsets, list } => bytes.len() <= MAX_SUBSTR_LEN + MAX_EXTENSION
            && list == affixes_below(bytes, MIN_SUBSTR_LEN as nat, bytes.len()),
        Step::Last { bytes } => 0 < bytes.len() <= MAX_SUBSTR_LEN + MAX_EXTENSION,
        _ => true,
    }
}

proof fn lemma_strings_size(list: Seq<Seq<u8>>, len: nat)
    requires
        forall|i: int| 0 <= i < list.len() ==> (#[trigger] list[i]).len() <= len,
    ensures
        strings_size(list) <= list.len() * len,
    decreases list.len(),
{
    if list.len() > 0 {
        let front = list.drop_last();
        assert forall|i: int| 0 <= i < front.len() implies (#[trigger] front[i]).len() <= len by {
            assert(front[i] == list[i]);
        }
        lemma_strings_size(front, len);
        let n = front.len() as int;
        assert((n + 1) * len == n * len + len) by (nonlinear_arith);
    }
}

proof fn lemma_affix_count(bytes: Seq<u8>, min_len: nat, len: nat)
    ensures
        affixes_below(bytes, min_len, len).len() <= 2 * len,
    decreases len,
{
    if len > min_len {
        lemma_affix_count(bytes, min_len, (len - 1) as nat);
    }
}

/// The byte strings that a pass looks for can be searched for.
pub proof fn lemma_wanted_can_scan(s: Step)
    requires
        is_short(s),
    ensures
        can_scan(wanted_strings(s)),
{
    let w = wanted_strings(s);
    let n = w.len();
    match s {
        Step::Affixes { bytes, offsets, list } => {
            lemma_affixes(bytes, MIN_SUBSTR_LEN as nat, bytes.len());
            lemma_affix_count(bytes, MIN_SUBSTR_LEN as nat, bytes.len());
        },
        _ => {},
    }
    lemma_strings_size(w, 144);
    let size = strings_size(w);
    assert(n * size <= 288 * (288 * 144)) by (nonlinear_arith)
        requires
            n <= 288,
            size <= n * 144,
    ;
}

/// So can those of every later pass, if the samples are no longer than they should be.
pub proof fn lemma_stays_short(
    strict: bool,
    s: Step,
    data: Seq<u8>,
    counts: Seq<usize>,
    places: Seq<Vec<usize>>,
    next: Step,
)
    requires
        is_short(s),
        s matches Step::Locate { bytes, rounds } ==> strict || rounds == 0,
        s matches Step::Count { candidates } ==> candidates.len() == counts.len(),
        follows(strict, s, data, counts, places, next),
    ensures
        is_short(next),
        next matches Step::Locate { bytes, rounds } ==> strict || rounds == 0,
{
    match s {
        Step::Locate { bytes, rounds } => {
            let offsets = places[0]@;
            if !strict && offsets.len() > MIN_SUBSTR_COUNT {
                let r = choose|r: Option<Grown>|
                    #[trigger] grows_to(data, bytes, offsets, MAX_EXTENSION as nat, r) && next
                        == match r {
                        Some(g) => if g.stopped {
                            grown_up(g.bytes, g.offsets)
                        } else {
                            Step::Last { bytes: g.bytes }
                        },
                        None => Step::OutOfData,
                    };
                if let Some(g) = r {
                    lemma_grown_len(data, bytes, offsets, MAX_EXTENSION as nat, g);
                }
            }
        },
        _ => {},
    }
}

proof fn lemma_grown_len(
    data: Seq<u8>,
    bytes: Seq<u8>,
    offsets: Seq<usize>,
    rounds: nat,
    r: Grown,
)
    requires
        grows_to(data, bytes, offsets, rounds, Some(r)),
    ensures
        bytes.len() <= r.bytes.len() <= bytes.len() + rounds,
    decreases rounds,
{
    if rounds > 0 {
        let left = (rounds - 1) as nat;
        let g = choose|g: Growth|
            #[trigger] is_growth(data, offsets, bytes.len(), false, g) && match g {
                Growth::Behind(b) => grows_to(data, bytes.push(b), offsets, left, Some(r)),
                Growth::Before(b) => if offsets.contains(0) {
                    false
                } else {
                    grows_to(data, seq![b] + bytes, moved_down(offsets), left, Some(r))
                },
                Growth::Stop => r == (Grown { bytes, offsets, stopped: true }),
            };
        match g {
            Growth::Behind(b) => {
                lemma_grown_len(data, bytes.push(b), offsets, left, r);
            },
            Growth::Before(b) => {
                lemma_grown_len(data, seq![b] + bytes, moved_down(offsets), left, r);
            },
            Growth::Stop => {},
        }
    }
}

/// The search starts with byte strings that can be searched for, if the samples are no longer than
/// they should be.
pub proof fn lemma_starts_short(list: Seq<Counted>)
    requires
        list.len() <= usize::MAX,
        forall|i: int|
            0 <= i < list.len() ==> 0 < (#[trigger] list[i]).chunk.len() <= MAX_SUBSTR_LEN,
    ensures
        is_short(Step::Count { candidates: top_samples(list) }),
{
    let order = order_ranked(sample_ranks(list));
    lemma_rank_order_total(sample_ranks(list));
    lemma_ordered(list.len(), rank_order(sample_ranks(list)));
    let candidates = top_samples(list);
    assert forall|i: int| 0 <= i < candidates.len() implies 0 < (
    #[trigger] candidates[i]).len() <= MAX_SUBSTR_LEN by {
        assert(order[i] < list.len());
        assert(candidates[i] == list[order[i] as int].chunk);
    }
}

/// The counting of the candidates leads to one that occurs 24 times or more and covers no fewer bytes
/// than any other such one; the search ends with nothing exactly where there is none.
pub proof fn lemma_count_leads(candidates: Seq<Seq<u8>>, counts: Seq<usize>, next: Step)
    requires
        candidates.len() == counts.len(),
        after_count(candidates, counts, next),
    ensures
        next is Nothing <==> forall|j: int| 0 <= j < counts.len() ==> (#[trigger] counts[j]) < 24,
        next is Nothing || next is Locate,
        next matches Step::Locate { bytes, rounds } ==> rounds == 0 && exists|i: int|
            0 <= i < counts.len() && candidates[i] == bytes && (#[trigger] counts[i]) >= 24
                && forall|j: int|
                0 <= j < counts.len() && (#[trigger] counts[j]) >= 24 ==> counts[j]
                    * candidates[j].len() <= counts[i] * candidates[i].len(),
{
    if next is Locate {
        let i = choose|i: int|
            #[trigger] is_best(candidates, counts, i) && next == (Step::Locate {
                bytes: candidates[i],
                rounds: 0,
            });
        assert(counts[i] >= 24);
        assert forall|j: int| 0 <= j < counts.len() && (#[trigger] counts[j]) >= 24 implies counts[j]
            * candidates[j].len() <= counts[i] * candidates[i].len() by {
            assert(crate::substrings::covered(candidates, counts, j)
                <= crate::substrings::covered(candidates, counts, i));
        }
    }
}

/// A byte string grows by one byte at either side, no more than 128 times, while it occurs more than 24
/// times in a strict search; what is found is never shorter than what was located.
pub proof fn lemma_strict_leads(
    data: Seq<u8>,
    bytes: Seq<u8>,
    rounds: nat,
    offsets: Seq<usize>,
    next: Step,
)
    requires
        after_strict(data, bytes, rounds, offsets, next),
        rounds < 128,
    ensures
        offsets.len() <= 24 ==> next == (Step::Last { bytes }),
        next matches Step::Locate { bytes: longer, rounds: more } ==> {
            &&& offsets.len() > 24
            &&& more == rounds + 1
            &&& more < 128
            &&& longer.len() == bytes.len() + 1
            &&& longer.drop_last() == bytes || longer.skip(1) == bytes
        },
        next matches Step::Last { bytes: longer } ==> {
            ||| offsets.len() <= 24 && longer == bytes
            ||| rounds == 127 && longer.len() == bytes.len() + 1 && (longer.drop_last() == bytes
                || longer.skip(1) == bytes)
        },
        next matches Step::Affixes { bytes: same, offsets: there, list } ==> same == bytes && there
            == offsets,
        next matches Step::Found { bytes: same, offsets: there, rows } ==> same == bytes && there
            == offsets,
        !(next is Nothing) && !(next is OutOfData) && !(next is Count),
{
    if offsets.len() > 24 {
        let g = choose|g: Growth|
            #[trigger] is_growth(data, offsets, bytes.len(), true, g) && next == match g {
                Growth::Behind(b) => grown_by(bytes.push(b), rounds + 1),
                Growth::Before(b) => grown_by(seq![b] + bytes, rounds + 1),
                Growth::Stop => grown_up(bytes, offsets),
            };
        match g {
            Growth::Behind(b) => {
                assert(bytes.push(b).drop_last() =~= bytes);
            },
            Growth::Before(b) => {
                assert((seq![b] + bytes).skip(1) =~= bytes);
            },
            Growth::Stop => {},
        }
    }
}

/// A search that is not strict ends with nothing exactly where the byte string occurs 24 times or less.
/// Else the byte string grows by up to 128 bytes before its fronts and ends are counted, and is located
/// anew where it could grow further.
pub proof fn lemma_loose_leads(data: Seq<u8>, bytes: Seq<u8>, offsets: Seq<usize>, next: Step)
    requires
        after_loose(data, bytes, offsets, next),
    ensures
        next is Nothing <==> offsets.len() <= 24,
        next matches Step::Last { bytes: longer } ==> longer.len() == bytes.len() + 128,
        next matches Step::Affixes { bytes: longer, offsets: there, list } ==> bytes.len()
            <= longer.len() <= bytes.len() + 128 && is_growth(
            data,
            there,
            longer.len(),
            false,
            Growth::Stop,
        ),
        next matches Step::Found { bytes: longer, offsets: there, rows } ==> bytes.len()
            <= longer.len() <= bytes.len() + 128 && is_growth(
            data,
            there,
            longer.len(),
            false,
            Growth::Stop,
        ),
        !(next is Count) && !(next is Locate),
{
    if offsets.len() > 24 {
        let r = choose|r: Option<Grown>|
            #[trigger] grows_to(data, bytes, offsets, MAX_EXTENSION as nat, r) && next == match r {
                Some(g) => if g.stopped {
                    grown_up(g.bytes, g.offsets)
                } else {
                    Step::Last { bytes: g.bytes }
                },
                None => Step::OutOfData,
            };
        if let Some(g) = r {
            lemma_grown_as_far_as_it_goes(data, bytes, offsets, 128, g);
        }
    }
}

} // verus!
