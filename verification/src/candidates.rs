//! Strings worth a place in a dictionary: found in the data, ranked, and selected.

use vstd::prelude::*;

use crate::bytes::copy_of;
use crate::dict::strings;
use crate::sampling::{
    lemma_gain, occurrence_threshold, occurrence_threshold_by_data_length, string_gain,
};
use crate::sort::{
    lemma_holds_all, lemma_larger_first, lemma_order_desc, lemma_order_has, lemma_ordered,
    lemma_rank_decides, lemma_rank_order_total, order_desc, order_ranked, rank_order,
    ranked_entries, sort_desc, sort_ranked, Ranked,
};
use crate::windows::{
    counted_views, first_of_each, frequent_windows, lemma_frequent_complete, lemma_frequent_windows,
    list_frequent_windows, mark_first, occurrences, Counted, WindowCount,
};

verus! {

/// The size of a region that is sampled for cross-referencing.
pub const SAMPLE_REGION_SIZE: usize = 262144;
/// A string must be frequent in so many regions.
pub const MIN_CROSS_REF_SAMPLES: usize = 2;
/// So many strings of each length are kept.
pub const TOP_PER_SIZE: usize = 20;

/// A string, how often it occurs, its length, and the product of the two.
#[derive(Debug)]
pub struct Candidate {
    pub chunk: Vec<u8>,
    pub max_count: usize,
    pub chunk_size: usize,
    pub size_score: u128,
}

/// What a `Candidate` says.
pub struct Cand {
    pub chunk: Seq<u8>,
    pub count: usize,
    pub size: usize,
    pub score: u128,
}

impl View for Candidate {
    type V = Cand;

    open spec fn view(&self) -> Cand {
        Cand {
            chunk: self.chunk@,
            count: self.max_count,
            size: self.chunk_size,
            score: self.size_score,
        }
    }
}

pub open spec fn cand_views(v: Seq<Candidate>) -> Seq<Cand> {
    Seq::new(v.len(), |i: int| v[i]@)
}

pub open spec fn make_cand(chunk: Seq<u8>, count: nat, size: nat) -> Cand {
    Cand { chunk, count: count as usize, size: size as usize, score: (size * count) as u128 }
}

/// What candidates are ranked by: score, count, string.
pub open spec fn cand_ranks(list: Seq<Cand>) -> Seq<Ranked> {
    Seq::new(
        list.len(),
        |i: int| Ranked { first: list[i].score, second: list[i].count, bytes: list[i].chunk },
    )
}

/// The candidates by rank: the higher score first, then the higher count, then the string that
/// comes first in the order of a dictionary.
pub open spec fn ranked_cands(list: Seq<Cand>) -> Seq<Cand> {
    let order = order_ranked(cand_ranks(list));
    Seq::new(list.len(), |i: int| list[order[i] as int])
}

pub(crate) fn rank_candidates(list: Vec<Candidate>) -> (out: Vec<Candidate>)
    ensures
        cand_views(out@) == ranked_cands(cand_views(list@)),
{
    let ghost views = cand_views(list@);
    let mut first: Vec<u128> = Vec::with_capacity(list.len());
    let mut second: Vec<usize> = Vec::with_capacity(list.len());
    let mut bytes: Vec<Vec<u8>> = Vec::with_capacity(list.len());
    let mut i: usize = 0;
    while i < list.len()
        invariant
            i <= list@.len(),
            first@.len() == i,
            second@.len() == i,
            bytes@.len() == i,
            forall|k: int|
                0 <= k < i ==> first@[k] == (#[trigger] list@[k]).size_score && second@[k]
                    == list@[k].max_count && bytes@[k]@ == list@[k].chunk@,
        decreases list@.len() - i,
    {
        first.push(list[i].size_score);
        second.push(list[i].max_count);
        let b = copy_of(&list[i].chunk);
        bytes.push(b);
        i += 1;
    }
    let order = sort_ranked(&first, &second, &bytes);
    proof {
        assert(ranked_entries(first@, second@, bytes@) =~= cand_ranks(views));
        lemma_rank_order_total(cand_ranks(views));
        lemma_ordered(views.len(), rank_order(cand_ranks(views)));
    }
    let mut out: Vec<Candidate> = Vec::with_capacity(list.len());
    let mut k: usize = 0;
    while k < order.len()
        invariant
            k <= order@.len(),
            order@.len() == list@.len(),
            order@ == order_ranked(cand_ranks(views)),
            views == cand_views(list@),
            forall|m: int| 0 <= m < order@.len() ==> (#[trigger] order@[m]) < list@.len(),
            cand_views(out@) =~= ranked_cands(views).take(k as int),
        decreases order@.len() - k,
    {
        let c = &list[order[k]];
        assert(views[order@[k as int] as int] == c@);
        let chunk = copy_of(&c.chunk);
        let copy = Candidate {
            chunk,
            max_count: c.max_count,
            chunk_size: c.chunk_size,
            size_score: c.size_score,
        };
        let ghost before = cand_views(out@);
        let ghost v = copy@;
        out.push(copy);
        assert(cand_views(out@) =~= before.push(v));
        k += 1;
    }
    assert(cand_views(out@) =~= ranked_cands(views));
    out
}

/// The counts of a list of windows.
pub open spec fn count_keys(list: Seq<Counted>) -> Seq<u128> {
    Seq::new(list.len(), |i: int| list[i].count as u128)
}

/// The windows that occur most often, twenty at most; among equals those that come first.
pub open spec fn top_windows(list: Seq<Counted>) -> Seq<Counted> {
    let order = order_desc(count_keys(list));
    Seq::new(
        if list.len() < TOP_PER_SIZE {
            list.len()
        } else {
            TOP_PER_SIZE as nat
        },
        |i: int| list[order[i] as int],
    )
}

/// Whether the size at `i` has come before.
pub open spec fn is_repeat(sizes: Seq<usize>, i: int) -> bool {
    exists|j: int| 0 <= j < i && #[trigger] sizes[j] == sizes[i]
}

pub open spec fn cands_of(list: Seq<Counted>, size: nat) -> Seq<Cand> {
    Seq::new(list.len(), |i: int| make_cand(list[i].chunk, list[i].count, size))
}

/// The top windows of the first `k` sizes.
pub open spec fn gathered(data: Seq<u8>, sizes: Seq<usize>, threshold: nat, k: nat) -> Seq<Cand>
    decreases k,
{
    if k == 0 {
        seq![]
    } else {
        let before = gathered(data, sizes, threshold, (k - 1) as nat);
        let size = sizes[k - 1] as nat;
        if is_repeat(sizes, k - 1) {
            before
        } else {
            before + cands_of(top_windows(frequent_windows(data, size, threshold)), size)
        }
    }
}

/// The most frequent strings of the given sizes, by rank.
pub open spec fn occurrence_candidates(
    data: Seq<u8>,
    sizes: Seq<usize>,
    threshold: nat,
) -> Seq<Cand> {
    ranked_cands(gathered(data, sizes, threshold, sizes.len()))
}

/// The threshold that was given, or else the one for the length of the data.
pub open spec fn threshold_or_default(threshold: Option<usize>, len: nat) -> nat {
    match threshold {
        Some(t) => t as nat,
        None => occurrence_threshold(len),
    }
}

pub(crate) fn has_come_before(sizes: &[usize], i: usize) -> (r: bool)
    requires
        i < sizes@.len(),
    ensures
        r == is_repeat(sizes@, i as int),
{
    let mut j: usize = 0;
    while j < i
        invariant
            j <= i < sizes@.len(),
            forall|k: int| 0 <= k < j ==> #[trigger] sizes@[k] != sizes@[i as int],
        decreases i - j,
    {
        if sizes[j] == sizes[i] {
            return true;
        }
        j += 1;
    }
    false
}

/// The most frequent strings of the given sizes, by rank.
pub fn find_occurrences_for_sizes(
    data: &[u8],
    sizes: &[usize],
    threshold: Option<usize>,
) -> (out: Vec<Candidate>)
    requires
        forall|i: int| 0 <= i < sizes@.len() ==> (#[trigger] sizes@[i]) > 0,
    ensures
        cand_views(out@) == occurrence_candidates(
            data@,
            sizes@,
            threshold_or_default(threshold, data@.len()),
        ),
{
    let t = match threshold {
        Some(t) => t,
        None => occurrence_threshold_by_data_length(data.len()),
    };
    let mut list: Vec<Candidate> = Vec::new();
    let mut k: usize = 0;
    assert(cand_views(list@) =~= seq![]);
    while k < sizes.len()
        invariant
            k <= sizes@.len(),
            forall|i: int| 0 <= i < sizes@.len() ==> (#[trigger] sizes@[i]) > 0,
            cand_views(list@) == gathered(data@, sizes@, t as nat, k as nat),
        decreases sizes@.len() - k,
    {
        let size = sizes[k];
        if !has_come_before(sizes, k) {
            let found = list_frequent_windows(data, size, t);
            push_top(&mut list, &found, size);
        }
        k += 1;
    }
    rank_candidates(list)
}

/// Appends the most frequent of the windows in `found` as candidates.
fn push_top(list: &mut Vec<Candidate>, found: &Vec<WindowCount>, size: usize)
    ensures
        cand_views(final(list)@) == cand_views(old(list)@) + cands_of(
            top_windows(counted_views(found@)),
            size as nat,
        ),
{
    let ghost views = counted_views(found@);
    let ghost before = cand_views(list@);
    let mut keys: Vec<u128> = Vec::with_capacity(found.len());
    let mut i: usize = 0;
    while i < found.len()
        invariant
            i <= found@.len(),
            views == counted_views(found@),
            keys@ =~= count_keys(views).take(i as int),
        decreases found@.len() - i,
    {
        assert(views[i as int] == found@[i as int]@);
        keys.push(found[i].count as u128);
        i += 1;
    }
    assert(keys@ =~= count_keys(views));
    let order = sort_desc(&keys);
    proof {
        lemma_order_desc(keys@);
    }
    let n = if found.len() < TOP_PER_SIZE {
        found.len()
    } else {
        TOP_PER_SIZE
    };
    let ghost all = cands_of(top_windows(views), size as nat);
    let mut k: usize = 0;
    assert(before + all.take(0) =~= before);
    while k < n
        invariant
            k <= n <= found@.len(),
            n == all.len(),
            views == counted_views(found@),
            order@ == order_desc(count_keys(views)),
            order@.len() == found@.len(),
            forall|m: int| 0 <= m < order@.len() ==> (#[trigger] order@[m]) < found@.len(),
            all == cands_of(top_windows(views), size as nat),
            cand_views(list@) == before + all.take(k as int),
        decreases n - k,
    {
        let w = &found[order[k]];
        assert(views[order@[k as int] as int] == w@);
        let chunk = copy_of(&w.chunk);
        proof {
            assert(size * w.count <= 0xffff_ffff_ffff_ffff * 0xffff_ffff_ffff_ffff)
                by (nonlinear_arith)
                requires
                    size <= 0xffff_ffff_ffff_ffff,
                    w.count <= 0xffff_ffff_ffff_ffff,
            ;
        }
        let c = Candidate {
            chunk,
            max_count: w.count,
            chunk_size: size,
            size_score: size as u128 * w.count as u128,
        };
        let ghost now = cand_views(list@);
        let ghost v = c@;
        list.push(c);
        proof {
            assert(cand_views(list@) =~= now.push(v));
            assert(v == all[k as int]);
            assert(cand_views(list@) =~= before + all.take(k + 1));
        }
        k += 1;
    }
    assert(all.take(n as int) =~= all);
}

/// What a candidate would save.
pub open spec fn cand_gain(c: Cand) -> nat {
    string_gain(c.size as nat, c.count as nat)
}

pub open spec fn chunks_of(list: Seq<Cand>) -> Seq<Seq<u8>> {
    Seq::new(list.len(), |i: int| list[i].chunk)
}

/// Those of the first `k` candidates that are worth it: longer than a code, saving something, and
/// not the same string as an earlier candidate.
pub open spec fn worthwhile(list: Seq<Cand>, k: nat) -> Seq<Cand>
    decreases k,
{
    if k == 0 {
        seq![]
    } else {
        let before = worthwhile(list, (k - 1) as nat);
        let c = list[k - 1];
        if first_of_each(chunks_of(list), k - 1) && c.size > 2 && cand_gain(c) > 0 {
            before.push(c)
        } else {
            before
        }
    }
}

/// What worthwhile candidates are ranked by: what they save, length, string.
pub open spec fn gain_ranks(list: Seq<Cand>) -> Seq<Ranked> {
    Seq::new(
        list.len(),
        |i: int|
            Ranked { first: cand_gain(list[i]) as u128, second: list[i].size, bytes: list[i].chunk },
    )
}

/// The strings that save most, `max` at most.
pub open spec fn best_chunks(list: Seq<Cand>, max: nat) -> Seq<Seq<u8>> {
    let good = worthwhile(list, list.len());
    let order = order_ranked(gain_ranks(good));
    Seq::new(
        if good.len() < max {
            good.len()
        } else {
            max
        },
        |i: int| good[order[i] as int].chunk,
    )
}

/// The strings that save most, `max_codes` at most.
pub fn select_best_chunks(candidates: &[Candidate], max_codes: usize) -> (out: Vec<Vec<u8>>)
    ensures
        strings(out@) == best_chunks(cand_views(candidates@), max_codes as nat),
{
    let ghost views = cand_views(candidates@);
    let mut all: Vec<Vec<u8>> = Vec::with_capacity(candidates.len());
    let mut i: usize = 0;
    while i < candidates.len()
        invariant
            i <= candidates@.len(),
            views == cand_views(candidates@),
            strings(all@) =~= chunks_of(views).take(i as int),
        decreases candidates@.len() - i,
    {
        assert(views[i as int] == candidates@[i as int]@);
        let b = copy_of(&candidates[i].chunk);
        let ghost before = strings(all@);
        let ghost v = b@;
        all.push(b);
        assert(strings(all@) =~= before.push(v));
        i += 1;
    }
    assert(strings(all@) =~= chunks_of(views));
    let marks = mark_first(&all);
    let mut first: Vec<u128> = Vec::new();
    let mut second: Vec<usize> = Vec::new();
    let mut bytes: Vec<Vec<u8>> = Vec::new();
    let mut k: usize = 0;
    assert(all@.len() == candidates@.len()) by {
        assert(strings(all@).len() == all@.len());
    }
    assert(gain_ranks(worthwhile(views, 0)) =~= ranked_entries(first@, second@, bytes@));
    while k < candidates.len()
        invariant
            k <= candidates@.len(),
            views == cand_views(candidates@),
            marks@.len() == candidates@.len(),
            strings(all@) == chunks_of(views),
            forall|m: int|
                0 <= m < candidates@.len() ==> #[trigger] marks@[m] == first_of_each(
                    strings(all@),
                    m,
                ),
            first@.len() == second@.len(),
            first@.len() == bytes@.len(),
            first@.len() == worthwhile(views, k as nat).len(),
            ranked_entries(first@, second@, bytes@) == gain_ranks(worthwhile(views, k as nat)),
        decreases candidates@.len() - k,
    {
        let c = &candidates[k];
        assert(views[k as int] == c@);
        assert(marks@[k as int] == first_of_each(chunks_of(views), k as int));
        if marks[k] && c.chunk_size > 2 {
            let size = c.chunk_size as u128;
            let count = c.max_count as u128;
            proof {
                assert((size - 2) * count <= 0xffff_ffff_ffff_ffff * 0xffff_ffff_ffff_ffff)
                    by (nonlinear_arith)
                    requires
                        2 <= size <= 0xffff_ffff_ffff_ffff,
                        count <= 0xffff_ffff_ffff_ffff,
                ;
            }
            let saved = (size - 2) * count;
            if saved > size + 3 {
                let ghost before = ranked_entries(first@, second@, bytes@);
                first.push(saved - (size + 3));
                second.push(c.chunk_size);
                let b = copy_of(&c.chunk);
                bytes.push(b);
                proof {
                    let good = worthwhile(views, (k + 1) as nat);
                    assert(ranked_entries(first@, second@, bytes@) =~= gain_ranks(good)) by {
                        let x = ranked_entries(first@, second@, bytes@);
                        let y = gain_ranks(good);
                        assert forall|j: int| 0 <= j < x.len() implies x[j] == y[j] by {
                            if j < before.len() {
                                assert(x[j] == before[j]);
                                assert(gain_ranks(worthwhile(views, k as nat))[j] == y[j]);
                            }
                        }
                    }
                }
            }
        }
        k += 1;
    }
    let order = sort_ranked(&first, &second, &bytes);
    let ghost good = worthwhile(views, views.len());
    let found = first.len();
    proof {
        assert(good.len() == found);
        lemma_rank_order_total(gain_ranks(good));
        lemma_ordered(good.len(), rank_order(gain_ranks(good)));
    }
    let n = if order.len() < max_codes {
        order.len()
    } else {
        max_codes
    };
    let ghost best = best_chunks(views, max_codes as nat);
    let mut out: Vec<Vec<u8>> = Vec::with_capacity(n);
    let mut j: usize = 0;
    while j < n
        invariant
            j <= n <= order@.len(),
            n == best.len(),
            best == best_chunks(views, max_codes as nat),
            good == worthwhile(views, views.len()),
            order@ == order_ranked(gain_ranks(good)),
            order@.len() == bytes@.len(),
            first@.len() == bytes@.len(),
            ranked_entries(first@, second@, bytes@) == gain_ranks(good),
            forall|m: int| 0 <= m < order@.len() ==> (#[trigger] order@[m]) < bytes@.len(),
            strings(out@) =~= best.take(j as int),
        decreases n - j,
    {
        let at = order[j];
        let b = copy_of(&bytes[at]);
        proof {
            assert(ranked_entries(first@, second@, bytes@)[at as int].bytes == gain_ranks(
                good,
            )[at as int].bytes);
        }
        let ghost before = strings(out@);
        let ghost v = b@;
        out.push(b);
        assert(strings(out@) =~= before.push(v));
        j += 1;
    }
    assert(strings(out@) =~= best);
    out
}

/// The bytes of all occurrences of a string, less two for each code in their place, and less the entry
/// of the dictionary.
pub open spec fn net(c: Cand) -> int {
    c.size * c.count - 2 * c.count - c.size - 3
}

/// The candidate has a string that no candidate in front of it has, longer than a code, and saves
/// something.
pub open spec fn pays(list: Seq<Cand>, j: int) -> bool {
    &&& 0 <= j < list.len()
    &&& forall|m: int| 0 <= m < j ==> (#[trigger] list[m]).chunk != list[j].chunk
    &&& list[j].size > 2
    &&& net(list[j]) > 0
}

proof fn lemma_gain_is_net(list: Seq<Cand>, j: int)
    requires
        0 <= j < list.len(),
    ensures
        first_of_each(chunks_of(list), j) && list[j].size > 2 && cand_gain(list[j]) > 0 <==> pays(
            list,
            j,
        ),
        pays(list, j) ==> cand_gain(list[j]) == net(list[j]),
{
    let c = list[j];
    if c.size > 2 {
        lemma_gain(c.size as nat, c.count as nat);
    }
    if first_of_each(chunks_of(list), j) {
        assert forall|m: int| 0 <= m < j implies (#[trigger] list[m]).chunk != c.chunk by {
            assert(chunks_of(list)[m] != chunks_of(list)[j]);
        }
    }
    if pays(list, j) {
        assert forall|m: int| 0 <= m < j implies #[trigger] chunks_of(list)[m] != chunks_of(
            list,
        )[j] by {
            assert(list[m].chunk != c.chunk);
        }
    }
}

/// One of the first `k` candidates that pays.
pub open spec fn is_paying(list: Seq<Cand>, k: nat, c: Cand) -> bool {
    exists|j: int| 0 <= j < k && #[trigger] pays(list, j) && list[j] == c
}

proof fn lemma_worthwhile_sources(list: Seq<Cand>, k: nat)
    requires
        k <= list.len(),
    ensures
        worthwhile(list, k).len() <= k,
        forall|i: int|
            0 <= i < worthwhile(list, k).len() ==> is_paying(
                list,
                k,
                #[trigger] worthwhile(list, k)[i],
            ),
        forall|j: int|
            0 <= j < k && #[trigger] pays(list, j) ==> exists|i: int|
                0 <= i < worthwhile(list, k).len() && #[trigger] worthwhile(list, k)[i] == list[j],
    decreases k,
{
    if k > 0 {
        let b = (k - 1) as nat;
        lemma_worthwhile_sources(list, b);
        lemma_gain_is_net(list, k - 1);
        let before = worthwhile(list, b);
        let now = worthwhile(list, k);
        assert forall|i: int| 0 <= i < now.len() implies is_paying(list, k, #[trigger] now[i]) by {
            if i < before.len() {
                assert(now[i] == before[i]);
                let j = choose|j: int|
                    0 <= j < b && #[trigger] pays(list, j) && list[j] == before[i];
                assert(pays(list, j));
            } else {
                assert(pays(list, k - 1));
            }
        }
        assert forall|j: int| 0 <= j < k && #[trigger] pays(list, j) implies exists|i: int|
            0 <= i < now.len() && #[trigger] now[i] == list[j] by {
            if j < b {
                let i = choose|i: int| 0 <= i < before.len() && #[trigger] before[i] == list[j];
                assert(now[i] == list[j]);
            } else {
                assert(now[now.len() - 1] == list[j]);
            }
        }
    }
}

/// Each of the best strings is that of a candidate that pays.
pub proof fn lemma_best_pays(list: Seq<Cand>, max: nat, i: int) -> (j: int)
    requires
        list.len() <= usize::MAX,
        0 <= i < best_chunks(list, max).len(),
    ensures
        pays(list, j),
        best_chunks(list, max)[i] == list[j].chunk,
        worthwhile(list, list.len())[order_ranked(gain_ranks(worthwhile(list, list.len())))[i] as int]
            == list[j],
{
    let good = worthwhile(list, list.len());
    lemma_worthwhile_sources(list, list.len());
    lemma_rank_order_total(gain_ranks(good));
    lemma_ordered(good.len(), rank_order(gain_ranks(good)));
    let at = order_ranked(gain_ranks(good))[i] as int;
    choose|j: int| 0 <= j < list.len() && #[trigger] pays(list, j) && list[j] == good[at]
}

/// The best strings come by what they save: of two, the first saves no less, and of two that save the
/// same the first is no shorter.
pub proof fn lemma_best_descend(list: Seq<Cand>, max: nat, i: int, k: int)
    requires
        list.len() <= usize::MAX,
        0 <= i < k < best_chunks(list, max).len(),
    ensures
        exists|a: int, b: int|
            #![trigger pays(list, a), pays(list, b)]
            pays(list, a) && pays(list, b) && best_chunks(list, max)[i] == list[a].chunk
                && best_chunks(list, max)[k] == list[b].chunk && net(list[a]) >= net(list[b]) && (
            net(list[a]) == net(list[b]) ==> list[a].size >= list[b].size),
{
    let good = worthwhile(list, list.len());
    lemma_worthwhile_sources(list, list.len());
    let a = lemma_best_pays(list, max, i);
    let b = lemma_best_pays(list, max, k);
    lemma_rank_decides(gain_ranks(good), i, k);
    lemma_rank_order_total(gain_ranks(good));
    lemma_ordered(good.len(), rank_order(gain_ranks(good)));
    lemma_gain_is_net(list, a);
    lemma_gain_is_net(list, b);
    lemma_net_fits(list[a]);
    lemma_net_fits(list[b]);
}

proof fn lemma_net_fits(c: Cand)
    ensures
        net(c) <= u128::MAX,
{
    let s = c.size as int;
    let n = c.count as int;
    assert(s * n <= 0xffff_ffff_ffff_ffff * 0xffff_ffff_ffff_ffff) by (nonlinear_arith)
        requires
            0 <= s <= 0xffff_ffff_ffff_ffff,
            0 <= n <= 0xffff_ffff_ffff_ffff,
    ;
}

/// The string of a candidate that pays and saves no less than `least`.
pub open spec fn saves_as_much(list: Seq<Cand>, chunk: Seq<u8>, least: int) -> bool {
    exists|a: int| #[trigger] pays(list, a) && list[a].chunk == chunk && net(list[a]) >= least
}

/// A candidate that pays is only left out of the best strings where there are `max` of them, and each
/// of those saves as much or more.
pub proof fn lemma_best_leave_nothing(list: Seq<Cand>, max: nat, j: int)
    requires
        list.len() <= usize::MAX,
        pays(list, j),
    ensures
        best_chunks(list, max).len() <= max,
        best_chunks(list, max).contains(list[j].chunk) || {
            &&& best_chunks(list, max).len() == max
            &&& forall|i: int|
                0 <= i < max ==> saves_as_much(
                    list,
                    #[trigger] best_chunks(list, max)[i],
                    net(list[j]),
                )
        },
{
    let good = worthwhile(list, list.len());
    let best = best_chunks(list, max);
    lemma_worthwhile_sources(list, list.len());
    let g = choose|g: int| 0 <= g < good.len() && #[trigger] good[g] == list[j];
    lemma_rank_order_total(gain_ranks(good));
    lemma_ordered(good.len(), rank_order(gain_ranks(good)));
    let order = order_ranked(gain_ranks(good));
    lemma_holds_all(order, good.len(), g);
    let k = choose|k: int| 0 <= k < good.len() && #[trigger] order[k] == g;
    if k < best.len() {
        assert(best[k] == list[j].chunk);
    } else {
        assert forall|i: int| 0 <= i < max implies saves_as_much(
            list,
            #[trigger] best[i],
            net(list[j]),
        ) by {
            let a = lemma_best_pays(list, max, i);
            lemma_rank_decides(gain_ranks(good), i, k);
            lemma_gain_is_net(list, a);
            lemma_gain_is_net(list, j);
            lemma_net_fits(list[a]);
            lemma_net_fits(list[j]);
            assert(pays(list, a));
        }
    }
}

/// Of the windows of one length the twenty that occur most often are taken, in that order, and all
/// where there are no more: one that is left out does not occur more often than one that is taken.
pub proof fn lemma_top_windows(list: Seq<Counted>)
    requires
        list.len() <= usize::MAX,
        forall|i: int| 0 <= i < list.len() ==> (#[trigger] list[i]).count <= u128::MAX,
    ensures
        ({
            let top = top_windows(list);
            &&& list.len() <= 20 ==> top.len() == list.len()
            &&& list.len() > 20 ==> top.len() == 20
            &&& forall|i: int| 0 <= i < top.len() ==> list.contains(#[trigger] top[i])
            &&& forall|i: int, k: int|
                0 <= i < k < top.len() ==> (#[trigger] top[i]).count >= (#[trigger] top[k]).count
            &&& forall|j: int, i: int|
                0 <= j < list.len() && 0 <= i < top.len() ==> top.contains(#[trigger] list[j]) || (
                #[trigger] top[i]).count >= list[j].count
        }),
{
    let top = top_windows(list);
    let keys = count_keys(list);
    let order = order_desc(keys);
    lemma_order_desc(keys);
    assert forall|i: int| 0 <= i < top.len() implies list.contains(#[trigger] top[i]) by {
        assert(top[i] == list[order[i] as int]);
    }
    assert forall|i: int, k: int| 0 <= i < k < top.len() implies (#[trigger] top[i]).count >= (
    #[trigger] top[k]).count by {
        lemma_larger_first(keys, i, k);
        assert(keys[order[i] as int] == top[i].count && keys[order[k] as int] == top[k].count);
    }
    assert forall|j: int, i: int| 0 <= j < list.len() && 0 <= i < top.len() implies top.contains(
        #[trigger] list[j],
    ) || (#[trigger] top[i]).count >= list[j].count by {
        lemma_order_has(keys, j);
        let k = choose|k: int| 0 <= k < keys.len() && #[trigger] order[k] == j;
        if k < top.len() {
            assert(top[k] == list[j]);
        } else {
            lemma_larger_first(keys, i, k);
            assert(keys[order[i] as int] == top[i].count && keys[j] == list[j].count);
        }
    }
}

/// Candidates are ranked by the bytes that their occurrences take up, then by their number, and none
/// gets lost.
pub proof fn lemma_ranked_cands(list: Seq<Cand>, i: int, j: int)
    requires
        list.len() <= usize::MAX,
        0 <= i < j < list.len(),
    ensures
        ({
            let r = ranked_cands(list);
            &&& r.len() == list.len()
            &&& r[i].score >= r[j].score
            &&& r[i].score == r[j].score ==> r[i].count >= r[j].count
            &&& list.contains(r[i])
            &&& r.contains(list[i])
        }),
{
    let ranks = cand_ranks(list);
    lemma_rank_decides(ranks, i, j);
    lemma_rank_order_total(ranks);
    lemma_ordered(list.len(), rank_order(ranks));
    let order = order_ranked(ranks);
    lemma_holds_all(order, list.len(), i);
    let k = choose|k: int| 0 <= k < list.len() && #[trigger] order[k] == i;
    assert(ranked_cands(list)[k] == list[i]);
    assert(ranked_cands(list)[i] == list[order[i] as int]);
}

/// The candidate says how often its string occurs, at least `threshold` times, and how long it is, and
/// its score is the product of the two.
pub open spec fn says_right(c: Cand, data: Seq<u8>, threshold: nat) -> bool {
    &&& c.size == c.chunk.len()
    &&& c.count == occurrences(data, c.chunk)
    &&& c.count >= threshold
    &&& c.score == c.size * c.count
}

proof fn lemma_frequent_len(data: Seq<u8>, size: nat, threshold: nat)
    requires
        size > 0,
    ensures
        frequent_windows(data, size, threshold).len() <= data.len(),
{
    crate::windows::lemma_frequent_bound(
        data,
        size,
        threshold,
        crate::windows::window_total(data, size),
    );
}

/// What is gathered of the data: each candidate has one of the lengths, and says what is so.
pub proof fn lemma_gathered_right(data: Seq<u8>, sizes: Seq<usize>, threshold: nat, k: nat)
    requires
        data.len() < usize::MAX,
        k <= sizes.len(),
        forall|i: int| 0 <= i < sizes.len() ==> (#[trigger] sizes[i]) > 0,
    ensures
        forall|i: int|
            0 <= i < gathered(data, sizes, threshold, k).len() ==> {
                let c = #[trigger] gathered(data, sizes, threshold, k)[i];
                says_right(c, data, threshold) && sizes.take(k as int).contains(c.size)
            },
    decreases k,
{
    if k > 0 {
        let b = (k - 1) as nat;
        lemma_gathered_right(data, sizes, threshold, b);
        let before = gathered(data, sizes, threshold, b);
        let all = gathered(data, sizes, threshold, k);
        let size = sizes[k - 1] as nat;
        let list = frequent_windows(data, size, threshold);
        lemma_frequent_windows(data, size, threshold);
        lemma_frequent_len(data, size, threshold);
        lemma_top_windows(list);
        assert forall|i: int| 0 <= i < all.len() implies {
            let c = #[trigger] all[i];
            says_right(c, data, threshold) && sizes.take(k as int).contains(c.size)
        } by {
            if i < before.len() {
                assert(all[i] == before[i]);
                let m = choose|m: int| 0 <= m < b && sizes.take(b as int)[m] == before[i].size;
                assert(sizes.take(k as int)[m] == before[i].size);
            } else {
                let w = top_windows(list)[i - before.len()];
                assert(all[i] == make_cand(w.chunk, w.count, size));
                assert(list.contains(w));
                assert(sizes.take(k as int)[k - 1] == size);
                let n = w.count;
                assert(size * n <= 0xffff_ffff_ffff_ffff * 0xffff_ffff_ffff_ffff)
                    by (nonlinear_arith)
                    requires
                        size <= 0xffff_ffff_ffff_ffff,
                        n <= 0xffff_ffff_ffff_ffff,
                ;
            }
        }
    }
}

/// Nothing better is left out: a string of one of the lengths that occurs often enough is gathered,
/// unless no gathered string of its length occurs less often.
pub proof fn lemma_gathered_complete(
    data: Seq<u8>,
    sizes: Seq<usize>,
    threshold: nat,
    k: nat,
    w: Seq<u8>,
)
    requires
        data.len() < usize::MAX,
        k <= sizes.len(),
        forall|i: int| 0 <= i < sizes.len() ==> (#[trigger] sizes[i]) > 0,
        exists|m: int| 0 <= m < k && #[trigger] sizes[m] == w.len(),
        occurrences(data, w) > 0,
        occurrences(data, w) >= threshold,
    ensures
        (exists|i: int|
            0 <= i < gathered(data, sizes, threshold, k).len() && (#[trigger] gathered(
                data,
                sizes,
                threshold,
                k,
            )[i]).chunk == w) || forall|i: int|
            0 <= i < gathered(data, sizes, threshold, k).len() && (#[trigger] gathered(
                data,
                sizes,
                threshold,
                k,
            )[i]).size == w.len() ==> gathered(data, sizes, threshold, k)[i].count >= occurrences(
                data,
                w,
            ),
    decreases k,
{
    let m = choose|m: int| 0 <= m < k && #[trigger] sizes[m] == w.len();
    let b = (k - 1) as nat;
    let before = gathered(data, sizes, threshold, b);
    let all = gathered(data, sizes, threshold, k);
    let size = sizes[k - 1] as nat;
    let repeat = is_repeat(sizes, k - 1);
    if size == w.len() && !repeat {
        let list = frequent_windows(data, size, threshold);
        let top = top_windows(list);
        lemma_frequent_windows(data, size, threshold);
        lemma_frequent_complete(data, size, threshold);
        lemma_frequent_len(data, size, threshold);
        lemma_top_windows(list);
        lemma_gathered_right(data, sizes, threshold, b);
        let j = choose|j: int| 0 <= j < list.len() && (#[trigger] list[j]).chunk == w;
        if top.contains(list[j]) {
            let t = choose|t: int| 0 <= t < top.len() && top[t] == list[j];
            assert(all[before.len() + t].chunk == w);
        } else {
            assert forall|i: int| 0 <= i < all.len() && (#[trigger] all[i]).size == w.len() implies
                all[i].count >= occurrences(data, w) by {
                if i < before.len() {
                    assert(all[i] == before[i]);
                    let q = choose|q: int| 0 <= q < b && sizes.take(b as int)[q] == before[i].size;
                    assert(sizes[q] == sizes[k - 1]);
                } else {
                    let t = top[i - before.len()];
                    assert(all[i] == make_cand(t.chunk, t.count, size));
                    assert(list.contains(t));
                    assert(t.count >= list[j].count);
                }
            }
        }
    } else {
        if size == w.len() {
            let q = choose|q: int| 0 <= q < k - 1 && #[trigger] sizes[q] == sizes[k - 1];
            assert(sizes[q] == w.len());
        } else {
            assert(m < b);
        }
        lemma_gathered_complete(data, sizes, threshold, b, w);
        if exists|i: int| 0 <= i < before.len() && (#[trigger] before[i]).chunk == w {
            let i = choose|i: int| 0 <= i < before.len() && (#[trigger] before[i]).chunk == w;
            assert(all[i].chunk == w);
        } else {
            assert forall|i: int| 0 <= i < all.len() && (#[trigger] all[i]).size == w.len() implies
                all[i].count >= occurrences(data, w) by {
                if i < before.len() {
                    assert(all[i] == before[i]);
                }
            }
        }
    }
}

} // verus!
