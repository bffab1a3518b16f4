//! The dictionary stages over data in memory: analyse, build a dictionary, code, and repeat while
//! that pays.

use std::collections::HashMap;
use vstd::prelude::*;

use crate::bytes::{copy_of, count_of};
use crate::candidates::{
    best_chunks, cand_ranks, cand_views, cands_of, chunks_of, find_occurrences_for_sizes,
    gain_ranks, gathered, occurrence_candidates, ranked_cands, select_best_chunks, top_windows,
    worthwhile, Cand, Candidate, SAMPLE_REGION_SIZE,
};
use crate::container::{stage_view, stage_views, undo_stages, Stage, UnpackError};
use crate::crossref::{
    cross_candidates, parallel_cross_reference_sample, promoted, promoted_in, promoted_sizes,
    query_for, region, Query,
};
use crate::dict::{
    dict_decode, distinct_strings, encode_with_map, is_rarest, lemma_stage_roundtrip, proper_table,
    select_escape_byte, stage_code, strings, table, table_fits, table_size,
};
use crate::sampling::{
    all_scores, analysis_corpus, analysis_sizes, blocks_of, blocks_wanted, build_analysis_corpus,
    hotspot_sample, lemma_region_fits, occurrence_threshold, occurrence_threshold_by_data_length,
    probe_chunk_sizes, probe_is_uniform, probe_scores, probe_sizes, regions_of, sample_hotspots,
    sample_offsets, sample_spread_parallel, select_analysis_sizes, spread_sample, uniform,
    HOTSPOT_BLOCK_SIZE, MAX_DATA_LEN, SPREAD_REGIONS,
};
use crate::sort::{
    lemma_order_desc, lemma_ordered, lemma_rank_order_total, order_ranked, rank_order,
};
use crate::windows::{frequent_windows, lemma_frequent_windows};

verus! {

broadcast use vstd::std_specs::hash::group_hash_axioms;

/// There are no more stages than this.
pub const MAX_STAGES: usize = 16;
/// A dictionary has no more codes than this.
pub const MAX_CODES: usize = 254;
/// Longer data is cross-referenced instead of analysed as a whole.
pub const CROSS_REF_LIMIT: usize = 4000000;

/// How many bytes are probed.
pub open spec fn probe_target(len: nat) -> nat {
    if len <= 2000000 {
        len
    } else if len <= 20000000 {
        1000000
    } else {
        2000000
    }
}

/// How many bytes are probed in data of this length.
pub fn probe_sample_size(len: usize) -> (n: usize)
    ensures
        n as nat == probe_target(len as nat),
{
    if len <= 2000000 {
        len
    } else if len <= 20000000 {
        1000000
    } else {
        2000000
    }
}

/// How many bytes are looked at when the first analysis has found nothing.
pub open spec fn retry_target(len: nat) -> nat {
    if len <= 2000000 {
        len
    } else if len <= 20000000 {
        len / 4
    } else if len <= 100000000 {
        8000000
    } else {
        12000000
    }
}

/// How many bytes are looked at when the first analysis of data of this length has found nothing.
pub fn retry_sample_size(len: usize) -> (n: usize)
    ensures
        n as nat == retry_target(len as nat),
        n <= len,
{
    if len <= 2000000 {
        len
    } else if len <= 20000000 {
        len / 4
    } else if len <= 100000000 {
        8000000
    } else {
        12000000
    }
}

/// How many regions are cross-referenced: four at least, and up to twelve where the probe was
/// flat or else twenty-four.
pub open spec fn region_count(len: nat, flat: bool) -> nat {
    let n = len / SAMPLE_REGION_SIZE as nat;
    let max: nat = if flat {
        12
    } else {
        24
    };
    if n < 4 {
        4
    } else if n > max {
        max
    } else {
        n
    }
}

/// How many regions of data of this length are cross-referenced.
pub fn cross_ref_regions(len: usize, flat: bool) -> (n: usize)
    ensures
        n as nat == region_count(len as nat, flat),
        4 <= n <= 24,
{
    let n = len / SAMPLE_REGION_SIZE;
    let max: usize = if flat {
        12
    } else {
        24
    };
    if n < 4 {
        4
    } else if n > max {
        max
    } else {
        n
    }
}

/// The lengths that a probe of `sample` leads to.
pub open spec fn probed_sizes(sample: Seq<u8>) -> Seq<usize> {
    analysis_sizes(probe_sizes(sample), probe_scores(sample))
}

/// The sample that is probed first.
pub open spec fn first_sample(data: Seq<u8>) -> Seq<u8> {
    spread_sample(data, probe_target(data.len()), SPREAD_REGIONS as nat)
}

/// The sample that is probed if the first shows nothing.
pub open spec fn second_sample(data: Seq<u8>) -> Seq<u8> {
    hotspot_sample(data, 2 * probe_target(data.len()), HOTSPOT_BLOCK_SIZE as nat)
}

/// The lengths for the analysis: of the first probe, else of the second, else those that were
/// good for the stage before.
pub open spec fn stage_sizes(data: Seq<u8>, last_good: Option<Seq<usize>>) -> Option<Seq<usize>> {
    let first = probed_sizes(first_sample(data));
    let second = probed_sizes(second_sample(data));
    if first.len() > 0 {
        Some(first)
    } else if second.len() > 0 {
        Some(second)
    } else {
        last_good
    }
}

/// Whether the first probe is flat.
pub open spec fn is_flat(data: Seq<u8>) -> bool {
    uniform(probe_scores(first_sample(data)), 90)
}

/// The candidates in `data`, cross-referenced where it is long.
pub open spec fn analysed(data: Seq<u8>, len: nat, flat: bool, sizes: Seq<usize>) -> Seq<Cand> {
    if len > CROSS_REF_LIMIT {
        let regions = region_count(len, flat);
        cross_candidates(
            data,
            regions,
            sizes,
            occurrence_threshold(SAMPLE_REGION_SIZE as nat * regions),
        )
    } else {
        let corpus = analysis_corpus(data, len / 2);
        occurrence_candidates(corpus, sizes, occurrence_threshold(corpus.len()))
    }
}

/// The candidates in a corpus of `target` bytes for each strategy.
pub open spec fn retried(data: Seq<u8>, target: nat, sizes: Seq<usize>) -> Seq<Cand> {
    let corpus = analysis_corpus(data, target);
    occurrence_candidates(corpus, sizes, occurrence_threshold(corpus.len()))
}

/// The dictionary that numbers `chunks` from one.
pub open spec fn numbered(chunks: Seq<Seq<u8>>) -> Map<u8, Seq<u8>> {
    Map::new(|c: u8| 1 <= c <= chunks.len(), |c: u8| chunks[c - 1])
}

/// The byte value that occurs least often, the lowest of several.
pub open spec fn rarest(data: Seq<u8>) -> u8 {
    choose|b: u8| is_rarest(data, b)
}

/// What becomes of a stage that turned `before` bytes into `after`.
#[derive(Clone, Copy, Debug, PartialEq, Eq, Structural)]
pub enum Verdict {
    /// It stays, and another one is tried.
    Commit,
    /// It stays, and it is the last.
    CommitAndStop,
    /// It is undone, and there is no other.
    Discard,
}

/// A stage stays if it saves anything, and goes on if it saves a thousandth or more; a stage that
/// took two attempts is the last.
pub open spec fn verdict(before: nat, after: nat, second_attempt: bool) -> Verdict {
    if after >= before {
        Verdict::Discard
    } else if second_attempt || 1000 * (before - after) < before {
        Verdict::CommitAndStop
    } else {
        Verdict::Commit
    }
}

/// What becomes of a stage that turned `before` bytes into `after`.
pub fn judge_stage(before: usize, after: usize, second_attempt: bool) -> (v: Verdict)
    ensures
        v == verdict(before as nat, after as nat, second_attempt),
{
    if after >= before {
        Verdict::Discard
    } else if second_attempt || 1000 * ((before - after) as u128) < before as u128 {
        Verdict::CommitAndStop
    } else {
        Verdict::Commit
    }
}

/// What one stage does to the data.
pub enum StageStep {
    Stop,
    Code { escape: u8, table: Map<u8, Seq<u8>>, data: Seq<u8>, last: bool, sizes: Seq<usize> },
}

/// Codes `data` with a dictionary of `chunks`, unless that does not help.
pub open spec fn code_step(
    data: Seq<u8>,
    chunks: Seq<Seq<u8>>,
    sizes: Seq<usize>,
    second_attempt: bool,
) -> StageStep {
    let escape = rarest(data);
    let t = numbered(chunks);
    let coded = stage_code(t, data, escape);
    match verdict(data.len(), coded.len(), second_attempt) {
        Verdict::Discard => StageStep::Stop,
        v => StageStep::Code {
            escape,
            table: t,
            data: coded,
            last: v == Verdict::CommitAndStop,
            sizes,
        },
    }
}

/// One stage: the best strings of the analysis, or else of a larger corpus.
pub open spec fn stage_step(data: Seq<u8>, last_good: Option<Seq<usize>>) -> StageStep {
    match stage_sizes(data, last_good) {
        None => StageStep::Stop,
        Some(sizes) => {
            let best = best_chunks(
                analysed(data, data.len(), is_flat(data), sizes),
                MAX_CODES as nat,
            );
            let second = best_chunks(
                retried(data, retry_target(data.len()), sizes),
                MAX_CODES as nat,
            );
            if best.len() > 0 {
                code_step(data, best, sizes, false)
            } else if second.len() > 0 {
                code_step(data, second, sizes, true)
            } else {
                StageStep::Stop
            }
        },
    }
}

/// Up to `n` stages: their escape bytes and dictionaries, and what they make of the data.
pub open spec fn run_stages(data: Seq<u8>, last_good: Option<Seq<usize>>, n: nat) -> (
    Seq<(u8, Map<u8, Seq<u8>>)>,
    Seq<u8>,
)
    decreases n,
{
    if n == 0 {
        (seq![], data)
    } else {
        match stage_step(data, last_good) {
            StageStep::Stop => (seq![], data),
            StageStep::Code { escape, table, data: coded, last, sizes } => if last {
                (seq![(escape, table)], coded)
            } else {
                let rest = run_stages(coded, Some(sizes), (n - 1) as nat);
                (seq![(escape, table)] + rest.0, rest.1)
            },
        }
    }
}

/// Sizes that the analysis can handle.
pub open spec fn sizes_ok(sizes: Seq<usize>) -> bool {
    &&& sizes.len() <= 8
    &&& forall|i: int| 0 <= i < sizes.len() ==> 3 <= (#[trigger] sizes[i]) <= 128
}

/// Each candidate has the length it says, between 3 and 128.
pub open spec fn cands_ok(list: Seq<Cand>) -> bool {
    forall|i: int|
        0 <= i < list.len() ==> (#[trigger] list[i]).chunk.len() == list[i].size && 3
            <= list[i].size <= 128
}

proof fn lemma_ranked_ok(list: Seq<Cand>)
    requires
        cands_ok(list),
        list.len() <= usize::MAX,
    ensures
        cands_ok(ranked_cands(list)),
{
    lemma_rank_order_total(cand_ranks(list));
    lemma_ordered(list.len(), rank_order(cand_ranks(list)));
    let order = order_ranked(cand_ranks(list));
    assert forall|i: int| 0 <= i < list.len() implies (#[trigger] ranked_cands(list)[i]).chunk.len()
        == ranked_cands(list)[i].size && 3 <= ranked_cands(list)[i].size <= 128 by {
        assert(list[order[i] as int].chunk.len() == list[order[i] as int].size);
    }
}

proof fn lemma_gathered_ok(data: Seq<u8>, sizes: Seq<usize>, threshold: nat, k: nat)
    requires
        sizes_ok(sizes),
        k <= sizes.len(),
        data.len() <= usize::MAX,
    ensures
        cands_ok(gathered(data, sizes, threshold, k)),
        gathered(data, sizes, threshold, k).len() <= 20 * k,
    decreases k,
{
    if k > 0 {
        lemma_gathered_ok(data, sizes, threshold, (k - 1) as nat);
        let size = sizes[k - 1] as nat;
        let list = frequent_windows(data, size, threshold);
        lemma_frequent_windows(data, size, threshold);
        lemma_frequent_count(data, size, threshold);
        lemma_order_desc(crate::candidates::count_keys(list));
        let top = top_windows(list);
        let order = crate::sort::order_desc(crate::candidates::count_keys(list));
        assert forall|i: int| 0 <= i < top.len() implies (#[trigger] cands_of(top, size)[i]).chunk.len()
            == cands_of(top, size)[i].size by {
            assert(list[order[i] as int].chunk.len() == size);
        }
    }
}

proof fn lemma_frequent_count(data: Seq<u8>, size: nat, threshold: nat)
    requires
        size > 0,
    ensures
        frequent_windows(data, size, threshold).len() <= data.len(),
{
    lemma_frequent_len(data, size, threshold, crate::windows::window_total(data, size));
}

proof fn lemma_frequent_len(data: Seq<u8>, size: nat, threshold: nat, n: nat)
    ensures
        crate::windows::frequent(data, size, threshold, n).len() <= n,
    decreases n,
{
    if n > 0 {
        lemma_frequent_len(data, size, threshold, (n - 1) as nat);
    }
}

proof fn lemma_promoted_in_ok(
    data: Seq<u8>,
    offsets: Seq<(usize, usize)>,
    size: nat,
    q: Query,
    r: int,
    k: nat,
)
    requires
        3 <= size <= 128,
        k <= frequent_windows(region(data, offsets, r), size, q.threshold).len(),
    ensures
        cands_ok(promoted_in(data, offsets, size, q, r, k)),
    decreases k,
{
    if k > 0 {
        lemma_promoted_in_ok(data, offsets, size, q, r, (k - 1) as nat);
        lemma_frequent_windows(region(data, offsets, r), size, q.threshold);
        let c = frequent_windows(region(data, offsets, r), size, q.threshold)[k - 1];
        assert(c.chunk.len() == size);
    }
}

proof fn lemma_promoted_ok(
    data: Seq<u8>,
    offsets: Seq<(usize, usize)>,
    size: nat,
    q: Query,
    k: nat,
)
    requires
        3 <= size <= 128,
    ensures
        cands_ok(promoted(data, offsets, size, q, k)),
    decreases k,
{
    if k > 0 {
        lemma_promoted_ok(data, offsets, size, q, (k - 1) as nat);
        lemma_promoted_in_ok(
            data,
            offsets,
            size,
            q,
            k - 1,
            frequent_windows(region(data, offsets, k - 1), size, q.threshold).len(),
        );
    }
}

proof fn lemma_promoted_sizes_ok(
    data: Seq<u8>,
    offsets: Seq<(usize, usize)>,
    sizes: Seq<usize>,
    threshold: nat,
    k: nat,
)
    requires
        sizes_ok(sizes),
        k <= sizes.len(),
    ensures
        cands_ok(promoted_sizes(data, offsets, sizes, threshold, k)),
    decreases k,
{
    if k > 0 {
        lemma_promoted_sizes_ok(data, offsets, sizes, threshold, (k - 1) as nat);
        let size = sizes[k - 1];
        lemma_promoted_ok(
            data,
            offsets,
            size as nat,
            query_for(sizes, size, threshold, offsets.len()),
            offsets.len(),
        );
    }
}

proof fn lemma_worthwhile(list: Seq<Cand>, k: nat)
    requires
        k <= list.len(),
    ensures
        worthwhile(list, k).len() <= k,
        forall|i: int|
            0 <= i < worthwhile(list, k).len() ==> exists|j: int|
                0 <= j < k && #[trigger] list[j] == #[trigger] worthwhile(list, k)[i],
        forall|a: int, b: int|
            0 <= a < b < worthwhile(list, k).len() ==> (#[trigger] worthwhile(list, k)[a]).chunk != (
            #[trigger] worthwhile(list, k)[b]).chunk,
    decreases k,
{
    if k > 0 {
        lemma_worthwhile(list, (k - 1) as nat);
        let before = worthwhile(list, (k - 1) as nat);
        let all = worthwhile(list, k);
        assert forall|i: int| 0 <= i < all.len() implies exists|j: int|
            0 <= j < k && #[trigger] list[j] == #[trigger] all[i] by {
            if i < before.len() {
                let j = choose|j: int| 0 <= j < k - 1 && #[trigger] list[j] == before[i];
                assert(0 <= j < k && list[j] == all[i]);
            } else {
                assert(list[k - 1] == all[i]);
            }
        }
        assert forall|a: int, b: int| 0 <= a < b < all.len() implies (#[trigger] all[a]).chunk != (
        #[trigger] all[b]).chunk by {
            if b == before.len() {
                let j = choose|j: int| 0 <= j < k - 1 && #[trigger] list[j] == before[a];
                assert(chunks_of(list)[j] != chunks_of(list)[k - 1]);
            } else {
                assert(before[a].chunk != before[b].chunk);
            }
        }
    }
}

/// Strings for a dictionary: different, 3 to 128 bytes long, and no more than there are codes.
pub open spec fn chunks_ok(chunks: Seq<Seq<u8>>) -> bool {
    &&& chunks.len() <= MAX_CODES
    &&& forall|i: int| 0 <= i < chunks.len() ==> 3 <= (#[trigger] chunks[i]).len() <= 128
    &&& forall|i: int, j: int|
        0 <= i < j < chunks.len() ==> #[trigger] chunks[i] != #[trigger] chunks[j]
}

/// The strings selected from proper candidates make a proper dictionary.
pub proof fn lemma_best_chunks(list: Seq<Cand>)
    requires
        cands_ok(list),
        list.len() <= usize::MAX,
    ensures
        chunks_ok(best_chunks(list, MAX_CODES as nat)),
{
    let good = worthwhile(list, list.len());
    let best = best_chunks(list, MAX_CODES as nat);
    lemma_worthwhile(list, list.len());
    lemma_rank_order_total(gain_ranks(good));
    lemma_ordered(good.len(), rank_order(gain_ranks(good)));
    let order = order_ranked(gain_ranks(good));
    assert forall|i: int| 0 <= i < best.len() implies 3 <= (#[trigger] best[i]).len() <= 128 by {
        let g = good[order[i] as int];
        let j = choose|j: int| 0 <= j < list.len() && #[trigger] list[j] == g;
        assert(list[j].chunk.len() == list[j].size);
    }
    assert forall|i: int, j: int| 0 <= i < j < best.len() implies #[trigger] best[i]
        != #[trigger] best[j] by {
        assert(order[i] != order[j]);
        let a = order[i] as int;
        let b = order[j] as int;
        if a < b {
            assert(good[a].chunk != good[b].chunk);
        } else {
            assert(good[b].chunk != good[a].chunk);
        }
    }
}

/// The codes of the dictionary are the numbers from one to `n`.
pub open spec fn has_codes(t: Map<u8, Seq<u8>>, n: nat) -> bool {
    forall|c: u8| #[trigger] t.contains_key(c) <==> 1 <= c <= n
}

/// The dictionary of a stage: its codes are the numbers from one on, at most 254 of them, and its
/// strings are different from each other and have from 3 to 128 bytes.
pub open spec fn is_stage_table(t: Map<u8, Seq<u8>>) -> bool {
    &&& exists|n: nat| 1 <= n <= MAX_CODES && #[trigger] has_codes(t, n)
    &&& distinct_strings(t)
    &&& forall|c: u8| #[trigger] t.contains_key(c) ==> 3 <= t[c].len() <= 128
}

/// A numbered dictionary of proper strings is proper, small, and has no code zero.
pub proof fn lemma_numbered(chunks: Seq<Seq<u8>>)
    requires
        chunks_ok(chunks),
    ensures
        proper_table(numbered(chunks)),
        !numbered(chunks).contains_key(0),
        table_fits(numbered(chunks)),
        crate::container::short_strings(numbered(chunks)),
        crate::container::code_count(numbered(chunks), 256) <= 255,
        chunks.len() > 0 ==> is_stage_table(numbered(chunks)),
{
    let t = numbered(chunks);
    assert(has_codes(t, chunks.len()));
    assert forall|c: u8, d: u8| #[trigger]
        t.contains_key(c) && #[trigger] t.contains_key(d) && t[c] == t[d] implies c == d by {
        if c < d {
            assert(chunks[c - 1] != chunks[d - 1]);
        } else if d < c {
            assert(chunks[d - 1] != chunks[c - 1]);
        }
    }
    assert forall|c: u8| #[trigger] t.contains_key(c) implies 3 <= t[c].len()
        <= 128 by {
        assert(chunks[c - 1].len() >= 3);
    }
    lemma_table_size(t, 256);
    lemma_code_count_without_zero(t, 256);
}

proof fn lemma_table_size(t: Map<u8, Seq<u8>>, n: nat)
    requires
        n <= 256,
        forall|c: u8| #[trigger] t.contains_key(c) ==> t[c].len() <= 128,
    ensures
        table_size(t, n) <= 128 * n,
    decreases n,
{
    if n > 0 {
        lemma_table_size(t, (n - 1) as nat);
    }
}

proof fn lemma_code_count_without_zero(t: Map<u8, Seq<u8>>, n: nat)
    requires
        1 <= n <= 256,
        !t.contains_key(0),
    ensures
        crate::container::code_count(t, n) <= n - 1,
    decreases n,
{
    if n > 1 {
        lemma_code_count_without_zero(t, (n - 1) as nat);
    } else {
        reveal_with_fuel(crate::container::code_count, 2);
    }
}

/// The dictionary that numbers `chunks` from one.
pub fn number_chunks(chunks: Vec<Vec<u8>>) -> (map: HashMap<u8, Vec<u8>>)
    requires
        chunks@.len() <= 255,
    ensures
        table(map@) == numbered(strings(chunks@)),
{
    let mut map: HashMap<u8, Vec<u8>> = HashMap::new();
    let ghost all = strings(chunks@);
    let mut i: usize = 0;
    assert(table(map@) =~= numbered(all.take(0)));
    while i < chunks.len()
        invariant
            i <= chunks@.len() <= 255,
            all == strings(chunks@),
            table(map@) == numbered(all.take(i as int)),
        decreases chunks@.len() - i,
    {
        let copy = copy_of(&chunks[i]);
        let ghost before = map@;
        let ghost v = copy;
        map.insert((i + 1) as u8, copy);
        proof {
            assert(all[i as int] == v@);
            assert(table(map@) =~= table(before).insert((i + 1) as u8, v@));
            assert(table(map@) =~= numbered(all.take(i + 1)));
        }
        i += 1;
    }
    assert(all.take(i as int) =~= all);
    map
}

proof fn lemma_rarest(data: Seq<u8>, b: u8)
    requires
        is_rarest(data, b),
    ensures
        rarest(data) == b,
{
    let c = rarest(data);
    assert(is_rarest(data, c));
    assert(count_of(data, b) <= count_of(data, c));
    assert(count_of(data, c) <= count_of(data, b));
    if c < b {
        assert(count_of(data, b) < count_of(data, c));
    } else if b < c {
        assert(count_of(data, c) < count_of(data, b));
    }
}

proof fn lemma_spread_len(data: Seq<u8>, target: nat, regions: nat)
    requires
        regions > 0,
        data.len() <= usize::MAX,
    ensures
        spread_sample(data, target, regions).len() <= data.len(),
        spread_sample(data, target, regions).len() <= target,
{
    if data.len() > target {
        let size = target / regions;
        let offsets = sample_offsets(data.len(), regions, size);
        vstd::arithmetic::div_mod::lemma_fundamental_div_mod(target as int, regions as int);
        assert(size * regions == regions * size) by (nonlinear_arith);
        lemma_regions_len(data, regions, size, offsets.len());
    }
}

proof fn lemma_regions_len(data: Seq<u8>, regions: nat, size: nat, k: nat)
    requires
        regions > 0,
        data.len() <= usize::MAX,
        data.len() > size * regions,
        k <= regions,
    ensures
        regions_of(data, sample_offsets(data.len(), regions, size), k).len() == k * size,
    decreases k,
{
    if k > 0 {
        lemma_regions_len(data, regions, size, (k - 1) as nat);
        lemma_region_fits(data.len(), regions, size, (k - 1) as nat);
        let step = data.len() / regions;
        assert(0 <= (k - 1) * step) by (nonlinear_arith)
            requires
                k >= 1,
        ;
        assert((k - 1) * size + size == k * size) by (nonlinear_arith);
    } else {
        assert(0 * size == 0) by (nonlinear_arith);
    }
}

proof fn lemma_hotspot_len(data: Seq<u8>, target: nat)
    requires
        data.len() <= usize::MAX,
    ensures
        hotspot_sample(data, target, HOTSPOT_BLOCK_SIZE as nat).len() <= data.len(),
        hotspot_sample(data, target, HOTSPOT_BLOCK_SIZE as nat).len() <= target
            + HOTSPOT_BLOCK_SIZE,
{
    let size = HOTSPOT_BLOCK_SIZE as nat;
    let blocks = data.len() / size;
    if data.len() > target && blocks > 0 {
        let scores = crate::sampling::block_scores(data, size, blocks);
        lemma_order_desc(scores);
        lemma_blocks_len(data, crate::sort::order_desc(scores), blocks_wanted(target, size));
    }
}

proof fn lemma_blocks_len(data: Seq<u8>, order: Seq<usize>, k: nat)
    requires
        k <= order.len(),
        forall|i: int|
            0 <= i < order.len() ==> (#[trigger] order[i]) < data.len() / HOTSPOT_BLOCK_SIZE as nat,
    ensures
        blocks_of(data, HOTSPOT_BLOCK_SIZE as nat, order, k).len() == k * HOTSPOT_BLOCK_SIZE,
    decreases k,
{
    if k > 0 {
        lemma_blocks_len(data, order, (k - 1) as nat);
        assert(order[k - 1] < data.len() / HOTSPOT_BLOCK_SIZE as nat);
    }
}

/// The lengths that a probe of the sample leads to, and whether the probe is flat.
pub fn probe_sample(sample: &[u8]) -> (r: (Vec<usize>, bool))
    requires
        sample@.len() <= MAX_DATA_LEN,
    ensures
        r.0@ == probed_sizes(sample@),
        r.1 == uniform(probe_scores(sample@), 90),
        sizes_ok(r.0@),
{
    let probe = probe_chunk_sizes(sample);
    let sizes = select_analysis_sizes(&probe);
    let flat = probe_is_uniform(&probe, 90);
    proof {
        assert forall|i: int| 0 <= i < sizes@.len() implies 3 <= (#[trigger] sizes@[i])
            <= 128 by {
            assert(probe.sizes@.contains(sizes@[i]));
        }
    }
    (sizes, flat)
}

/// The best strings in data of which `len` bytes are to be coded; `data` is all of it or a sample.
pub fn analyse(data: &[u8], len: usize, flat: bool, sizes: &[usize]) -> (best: Vec<Vec<u8>>)
    requires
        sizes_ok(sizes@),
        data@.len() <= MAX_DATA_LEN,
    ensures
        strings(best@) == best_chunks(
            analysed(data@, len as nat, flat, sizes@),
            MAX_CODES as nat,
        ),
        chunks_ok(strings(best@)),
{
    let candidates = if len > CROSS_REF_LIMIT {
        let regions = cross_ref_regions(len, flat);
        let threshold = occurrence_threshold_by_data_length(SAMPLE_REGION_SIZE * regions);
        proof {
            assert(sizes@.len() * (regions * 262145) <= 8 * (24 * 262145)) by (nonlinear_arith)
                requires
                    sizes@.len() <= 8,
                    regions <= 24,
            ;
        }
        let c = parallel_cross_reference_sample(data, regions, sizes, threshold);
        proof {
            let offsets = sample_offsets(data@.len(), regions as nat, SAMPLE_REGION_SIZE as nat);
            let list = promoted_sizes(data@, offsets, sizes@, threshold as nat, sizes@.len());
            lemma_promoted_sizes_ok(data@, offsets, sizes@, threshold as nat, sizes@.len());
            assert(list.len() == ranked_cands(list).len());
            assert(cand_views(c@).len() == c@.len());
            lemma_vec_len(&c);
            lemma_ranked_ok(list);
        }
        c
    } else {
        let corpus = build_analysis_corpus(data, len / 2);
        find_in_corpus(&corpus, sizes)
    };
    let best = select_best_chunks(&candidates, MAX_CODES);
    proof {
        lemma_vec_len(&candidates);
        lemma_best_chunks(cand_views(candidates@));
    }
    best
}

proof fn lemma_vec_len(v: &Vec<Candidate>)
    ensures
        cand_views(v@).len() <= usize::MAX,
{
    assert(v.len() <= usize::MAX);
}

fn find_in_corpus(corpus: &Vec<u8>, sizes: &[usize]) -> (c: Vec<Candidate>)
    requires
        sizes_ok(sizes@),
    ensures
        cand_views(c@) == occurrence_candidates(
            corpus@,
            sizes@,
            occurrence_threshold(corpus@.len()),
        ),
        cands_ok(cand_views(c@)),
{
    let c = find_occurrences_for_sizes(corpus, sizes, None);
    proof {
        let t = occurrence_threshold(corpus@.len());
        let list = gathered(corpus@, sizes@, t, sizes@.len());
        assert(corpus.len() <= usize::MAX);
        lemma_gathered_ok(corpus@, sizes@, t, sizes@.len());
        lemma_ranked_ok(list);
    }
    c
}

/// The best strings in a corpus of `target` bytes for each strategy.
pub fn analyse_again(data: &[u8], target: usize, sizes: &[usize]) -> (best: Vec<Vec<u8>>)
    requires
        sizes_ok(sizes@),
    ensures
        strings(best@) == best_chunks(
            retried(data@, target as nat, sizes@),
            MAX_CODES as nat,
        ),
        chunks_ok(strings(best@)),
{
    let corpus = build_analysis_corpus(data, target);
    let candidates = find_in_corpus(&corpus, sizes);
    let best = select_best_chunks(&candidates, MAX_CODES);
    proof {
        lemma_vec_len(&candidates);
        lemma_best_chunks(cand_views(candidates@));
    }
    best
}

/// The lengths for the analysis of `data`, and whether the first probe is flat.
fn find_sizes(data: &[u8], last_good: &Option<Vec<usize>>) -> (r: (Option<Vec<usize>>, bool))
    requires
        data@.len() <= MAX_DATA_LEN,
        last_good matches Some(s) ==> sizes_ok(s@),
    ensures
        r.1 == is_flat(data@),
        match r.0 {
            Some(s) => stage_sizes(data@, sizes_view(*last_good)) == Some(s@) && sizes_ok(s@),
            None => stage_sizes(data@, sizes_view(*last_good)) is None,
        },
{
    let target = probe_sample_size(data.len());
    proof {
        assert(data.len() <= usize::MAX);
        lemma_spread_len(data@, target as nat, SPREAD_REGIONS as nat);
        lemma_hotspot_len(data@, 2 * target as nat);
    }
    let sample = sample_spread_parallel(data, target, SPREAD_REGIONS);
    let (sizes, flat) = probe_sample(&sample);
    if sizes.len() > 0 {
        return (Some(sizes), flat);
    }
    let hotspots = sample_hotspots(data, 2 * target, HOTSPOT_BLOCK_SIZE);
    let (second, _) = probe_sample(&hotspots);
    if second.len() > 0 {
        return (Some(second), flat);
    }
    match last_good {
        Some(s) => (Some(copy_sizes(s)), flat),
        None => (None, flat),
    }
}

pub open spec fn sizes_view(s: Option<Vec<usize>>) -> Option<Seq<usize>> {
    match s {
        Some(v) => Some(v@),
        None => None,
    }
}

/// An owned copy of a list of lengths.
pub fn copy_sizes(s: &[usize]) -> (v: Vec<usize>)
    ensures
        v@ == s@,
{
    let mut v: Vec<usize> = Vec::with_capacity(s.len());
    let mut i: usize = 0;
    while i < s.len()
        invariant
            i <= s@.len(),
            v@ =~= s@.take(i as int),
        decreases s@.len() - i,
    {
        v.push(s[i]);
        i += 1;
    }
    assert(v@ =~= s@);
    v
}

/// What one stage does.
enum StageOutcome {
    Stop,
    Code { stage: Stage, data: Vec<u8>, last: bool, sizes: Vec<usize> },
}

/// The outcome says what the step is.
spec fn tells(r: StageOutcome, step: StageStep) -> bool {
    match r {
        StageOutcome::Stop => step == StageStep::Stop,
        StageOutcome::Code { stage, data, last, sizes } => step == (StageStep::Code {
            escape: stage.0,
            table: table(stage.1@),
            data: data@,
            last,
            sizes: sizes@,
        }),
    }
}

fn code_stage(
    data: &[u8],
    chunks: Vec<Vec<u8>>,
    second_attempt: bool,
    sizes: Vec<usize>,
) -> (r: StageOutcome)
    requires
        chunks_ok(strings(chunks@)),
    ensures
        tells(r, code_step(data@, strings(chunks@), sizes@, second_attempt)),
        r matches StageOutcome::Code { data: coded, sizes: s, .. } ==> s == sizes && coded@.len()
            < data@.len(),
{
    let ghost all = strings(chunks@);
    assert(all.len() == chunks@.len());
    let escape = select_escape_byte(data);
    let map = number_chunks(chunks);
    proof {
        lemma_rarest(data@, escape);
        lemma_numbered(all);
    }
    let coded = encode_with_map(data, escape, &map);
    match judge_stage(data.len(), coded.len(), second_attempt) {
        Verdict::Discard => StageOutcome::Stop,
        Verdict::CommitAndStop => StageOutcome::Code {
            stage: (escape, map),
            data: coded,
            last: true,
            sizes,
        },
        Verdict::Commit => StageOutcome::Code {
            stage: (escape, map),
            data: coded,
            last: false,
            sizes,
        },
    }
}

/// One stage over data in memory.
fn take_stage(data: &[u8], last_good: &Option<Vec<usize>>) -> (r: StageOutcome)
    requires
        data@.len() <= MAX_DATA_LEN,
        last_good matches Some(s) ==> sizes_ok(s@),
    ensures
        tells(r, stage_step(data@, sizes_view(*last_good))),
        r matches StageOutcome::Code { data: coded, sizes: s, .. } ==> sizes_ok(s@) && coded@.len()
            < data@.len(),
{
    let (found, flat) = find_sizes(data, last_good);
    match found {
        None => StageOutcome::Stop,
        Some(sizes) => {
            let best = analyse(data, data.len(), flat, &sizes);
            let second_attempt = best.len() == 0;
            assert(strings(best@).len() == best@.len());
            let chunks = if second_attempt {
                let target = retry_sample_size(data.len());
                analyse_again(data, target, &sizes)
            } else {
                best
            };
            assert(strings(chunks@).len() == chunks@.len());
            if chunks.len() == 0 {
                StageOutcome::Stop
            } else {
                code_stage(data, chunks, second_attempt, sizes)
            }
        },
    }
}

/// Runs the dictionary stages over data in memory. Returns the stages that stay, and the data
/// behind the last of them.
pub fn run_compression_stages(source_data: &[u8]) -> (r: (Vec<Stage>, Vec<u8>))
    requires
        source_data@.len() <= MAX_DATA_LEN,
    ensures
        (stage_views(r.0@), r.1@) == run_stages(source_data@, None, MAX_STAGES as nat),
        r.1@.len() <= source_data@.len(),
        r.0@.len() <= MAX_STAGES,
        r.0@.len() == 0 ==> r.1@ == source_data@,
        r.0@.len() > 0 ==> r.1@.len() < source_data@.len(),
        undo_stages(r.1@, stage_views(r.0@), r.0@.len()) == Ok::<Seq<u8>, UnpackError>(
            source_data@,
        ),
        forall|i: int|
            0 <= i < r.0@.len() ==> is_stage_table((#[trigger] stage_views(r.0@)[i]).1),
{
    let mut stages: Vec<Stage> = Vec::new();
    let mut data = copy_of(source_data);
    let mut last_good: Option<Vec<usize>> = None;
    let mut left: usize = MAX_STAGES;
    let mut going = true;
    let ghost goal = run_stages(source_data@, None, MAX_STAGES as nat);
    proof {
        assert(stage_views(stages@) =~= seq![]);
        assert(stage_views(stages@) + goal.0 =~= goal.0);
    }
    while going && left > 0
        invariant
            left <= MAX_STAGES,
            stages@.len() + left <= MAX_STAGES,
            stages@.len() == 0 ==> data@ == source_data@,
            data@.len() <= source_data@.len(),
            source_data@.len() <= MAX_DATA_LEN,
            last_good matches Some(s) ==> sizes_ok(s@),
            going ==> {
                let rest = run_stages(data@, sizes_view(last_good), left as nat);
                goal == (stage_views(stages@) + rest.0, rest.1)
            },
            !going ==> goal == (stage_views(stages@), data@),
        decreases left,
    {
        let ghost before = stage_views(stages@);
        match take_stage(&data, &last_good) {
            StageOutcome::Stop => {
                going = false;
                assert(before + seq![] =~= before);
            },
            StageOutcome::Code { stage, data: coded, last, sizes } => {
                let ghost view = stage_view(stage);
                stages.push(stage);
                data = coded;
                proof {
                    assert(stage_views(stages@) =~= before.push(view));
                    let rest = run_stages(data@, Some(sizes@), (left - 1) as nat);
                    assert(before + (seq![view] + rest.0) =~= stage_views(stages@) + rest.0);
                    assert(before + seq![view] =~= stage_views(stages@));
                }
                if last {
                    going = false;
                }
                last_good = Some(sizes);
            },
        }
        left = left - 1;
    }
    proof {
        if going {
            assert(stage_views(stages@) + seq![] =~= stage_views(stages@));
        }
        assert(stage_views(stages@).len() == stages@.len());
        assert(source_data@.len() == source_data.len());
        lemma_stages_roundtrip(source_data@, None, MAX_STAGES as nat);
        lemma_stage_tables(source_data@, None, MAX_STAGES as nat);
    }
    (stages, data)
}

proof fn lemma_undo_first(
    data: Seq<u8>,
    first: (u8, Map<u8, Seq<u8>>),
    rest: Seq<(u8, Map<u8, Seq<u8>>)>,
    k: nat,
)
    requires
        k <= rest.len(),
    ensures
        undo_stages(data, seq![first] + rest, k + 1) == match undo_stages(data, rest, k) {
            Ok(d) => match dict_decode(d, first.0, first.1) {
                Ok(x) => Ok(x),
                Err(e) => Err(UnpackError::Dict(e)),
            },
            Err(e) => Err(e),
        },
    decreases k,
{
    let all = seq![first] + rest;
    if k == 0 {
        reveal_with_fuel(undo_stages, 2);
        assert(all[0] == first);
    } else {
        assert(all[k as int] == rest[k - 1]);
        match dict_decode(data, rest[k - 1].0, rest[k - 1].1) {
            Ok(d) => {
                lemma_undo_first(d, first, rest, (k - 1) as nat);
            },
            Err(e) => {},
        }
    }
}

/// The sizes known from a stage before can be analysed.
spec fn known_ok(last_good: Option<Seq<usize>>) -> bool {
    last_good matches Some(s) ==> sizes_ok(s)
}

pub(crate) proof fn lemma_probed_ok(sample: Seq<u8>)
    ensures
        sizes_ok(probed_sizes(sample)),
{
    let sizes = probe_sizes(sample);
    let scores = probe_scores(sample);
    let p = crate::sampling::positive(scores, scores.len());
    lemma_order_desc(all_scores(sample));
    lemma_positive_ok(scores, scores.len());
    lemma_strong_ok(scores, p, p.len());
    let good = crate::sampling::strong(scores, p, p.len());
    let out = probed_sizes(sample);
    assert forall|i: int| 0 <= i < out.len() implies 3 <= (#[trigger] out[i]) <= 128 by {
        let at = if uniform(scores, 90) {
            p[i]
        } else {
            good[i]
        };
        assert(at < 126);
        assert(out[i] == sizes[at as int]);
    }
}

proof fn lemma_positive_ok(scores: Seq<u128>, n: nat)
    requires
        n <= scores.len() <= 126,
    ensures
        forall|i: int|
            0 <= i < crate::sampling::positive(scores, n).len() ==> (
            #[trigger] crate::sampling::positive(scores, n)[i]) < n,
    decreases n,
{
    if n > 0 {
        lemma_positive_ok(scores, (n - 1) as nat);
        let before = crate::sampling::positive(scores, (n - 1) as nat);
        let all = crate::sampling::positive(scores, n);
        assert forall|i: int| 0 <= i < all.len() implies (#[trigger] all[i]) < n by {
            if i < before.len() {
                assert(all[i] == before[i]);
            }
        }
    }
}

proof fn lemma_strong_ok(scores: Seq<u128>, p: Seq<usize>, n: nat)
    requires
        n <= p.len(),
        forall|i: int| 0 <= i < p.len() ==> (#[trigger] p[i]) < 126,
    ensures
        forall|i: int|
            0 <= i < crate::sampling::strong(scores, p, n).len() ==> (
            #[trigger] crate::sampling::strong(scores, p, n)[i]) < 126,
    decreases n,
{
    if n > 0 {
        lemma_strong_ok(scores, p, (n - 1) as nat);
        let before = crate::sampling::strong(scores, p, (n - 1) as nat);
        let all = crate::sampling::strong(scores, p, n);
        assert forall|i: int| 0 <= i < all.len() implies (#[trigger] all[i]) < 126 by {
            if i < before.len() {
                assert(all[i] == before[i]);
            } else {
                assert(all[i] == p[n - 1]);
            }
        }
    }
}

proof fn lemma_step_chunks(data: Seq<u8>, last_good: Option<Seq<usize>>)
    requires
        data.len() <= MAX_DATA_LEN,
        data.len() <= usize::MAX,
        known_ok(last_good),
    ensures
        match stage_step(data, last_good) {
            StageStep::Stop => true,
            StageStep::Code { escape, table, data: coded, last, sizes } => {
                &&& sizes_ok(sizes)
                &&& coded.len() < data.len()
                &&& coded == stage_code(table, data, escape)
                &&& proper_table(table)
                &&& !table.contains_key(0)
                &&& crate::container::short_strings(table)
                &&& crate::container::code_count(table, 256) <= 255
                &&& is_stage_table(table)
            },
        },
{
    lemma_probed_ok(first_sample(data));
    lemma_probed_ok(second_sample(data));
    if let Some(sizes) = stage_sizes(data, last_good) {
        let cands = analysed(data, data.len(), is_flat(data), sizes);
        let again = retried(data, retry_target(data.len()), sizes);
        lemma_analysed_ok(data, data.len(), is_flat(data), sizes);
        lemma_corpus_ok(data, retry_target(data.len()), sizes);
        lemma_best_chunks(cands);
        lemma_best_chunks(again);
        let best = best_chunks(cands, MAX_CODES as nat);
        let second = best_chunks(again, MAX_CODES as nat);
        lemma_numbered(best);
        lemma_numbered(second);
    }
}

pub(crate) proof fn lemma_corpus_ok(data: Seq<u8>, target: nat, sizes: Seq<usize>)
    requires
        sizes_ok(sizes),
        data.len() <= usize::MAX,
        target <= 20000000,
    ensures
        cands_ok(retried(data, target, sizes)),
        retried(data, target, sizes).len() <= usize::MAX,
{
    let corpus = analysis_corpus(data, target);
    let t = occurrence_threshold(corpus.len());
    lemma_spread_len(data, target, SPREAD_REGIONS as nat);
    lemma_hotspot_len(data, target);
    lemma_gathered_ok(corpus, sizes, t, sizes.len());
    lemma_ranked_ok(gathered(corpus, sizes, t, sizes.len()));
}

pub(crate) proof fn lemma_analysed_ok(data: Seq<u8>, len: nat, flat: bool, sizes: Seq<usize>)
    requires
        sizes_ok(sizes),
        data.len() <= usize::MAX,
    ensures
        cands_ok(analysed(data, len, flat, sizes)),
        analysed(data, len, flat, sizes).len() <= usize::MAX,
{
    if len > CROSS_REF_LIMIT {
        let regions = region_count(len, flat);
        let threshold = occurrence_threshold(SAMPLE_REGION_SIZE as nat * regions);
        let offsets = sample_offsets(data.len(), regions, SAMPLE_REGION_SIZE as nat);
        let list = promoted_sizes(data, offsets, sizes, threshold, sizes.len());
        lemma_promoted_sizes_ok(data, offsets, sizes, threshold, sizes.len());
        lemma_promoted_sizes_len(data, regions, sizes, threshold, sizes.len());
        lemma_ranked_ok(list);
    } else {
        lemma_corpus_ok(data, len / 2, sizes);
    }
}

proof fn lemma_promoted_in_len(
    data: Seq<u8>,
    offsets: Seq<(usize, usize)>,
    size: nat,
    q: Query,
    r: int,
    k: nat,
)
    ensures
        promoted_in(data, offsets, size, q, r, k).len() <= k,
    decreases k,
{
    if k > 0 {
        lemma_promoted_in_len(data, offsets, size, q, r, (k - 1) as nat);
    }
}

proof fn lemma_promoted_len(data: Seq<u8>, regions: nat, size: nat, q: Query, k: nat)
    requires
        4 <= regions <= 24,
        data.len() <= usize::MAX,
        size > 0,
        k <= sample_offsets(data.len(), regions, SAMPLE_REGION_SIZE as nat).len(),
    ensures
        promoted(
            data,
            sample_offsets(data.len(), regions, SAMPLE_REGION_SIZE as nat),
            size,
            q,
            k,
        ).len() <= k * 6291456,
    decreases k,
{
    let offsets = sample_offsets(data.len(), regions, SAMPLE_REGION_SIZE as nat);
    if k > 0 {
        lemma_promoted_len(data, regions, size, q, (k - 1) as nat);
        let reg = region(data, offsets, k - 1);
        let unit = SAMPLE_REGION_SIZE as nat;
        assert(unit * regions == 262144 * regions);
        if data.len() > unit * regions {
            lemma_region_fits(data.len(), regions, unit, (k - 1) as nat);
            let step = data.len() / regions;
            assert(0 <= (k - 1) * step) by (nonlinear_arith)
                requires
                    k >= 1,
            ;
            assert(offsets[k - 1] == (((k - 1) * step) as usize, ((k - 1) * step + unit) as usize));
            assert(reg.len() == unit);
        } else {
            assert(offsets == seq![(0usize, data.len() as usize)]);
            assert(reg.len() == data.len());
        }
        assert(reg.len() <= 6291456);
        lemma_frequent_count(reg, size, q.threshold);
        lemma_promoted_in_len(
            data,
            offsets,
            size,
            q,
            k - 1,
            frequent_windows(reg, size, q.threshold).len(),
        );
    }
}

proof fn lemma_promoted_sizes_len(
    data: Seq<u8>,
    regions: nat,
    sizes: Seq<usize>,
    threshold: nat,
    k: nat,
)
    requires
        4 <= regions <= 24,
        data.len() <= usize::MAX,
        sizes_ok(sizes),
        k <= sizes.len(),
    ensures
        promoted_sizes(
            data,
            sample_offsets(data.len(), regions, SAMPLE_REGION_SIZE as nat),
            sizes,
            threshold,
            k,
        ).len() <= k * 150994944,
    decreases k,
{
    let offsets = sample_offsets(data.len(), regions, SAMPLE_REGION_SIZE as nat);
    if k > 0 {
        lemma_promoted_sizes_len(data, regions, sizes, threshold, (k - 1) as nat);
        let size = sizes[k - 1];
        let q = query_for(sizes, size, threshold, offsets.len());
        lemma_promoted_len(data, regions, size as nat, q, offsets.len());
    }
}

/// The dictionary of every stage is a proper one.
pub proof fn lemma_stage_tables(data: Seq<u8>, last_good: Option<Seq<usize>>, n: nat)
    requires
        data.len() <= MAX_DATA_LEN,
        data.len() <= usize::MAX,
        last_good matches Some(s) ==> sizes_ok(s),
    ensures
        forall|i: int|
            0 <= i < run_stages(data, last_good, n).0.len() ==> is_stage_table(
                (#[trigger] run_stages(data, last_good, n).0[i]).1,
            ),
    decreases n,
{
    lemma_step_chunks(data, last_good);
    if n > 0 {
        if let StageStep::Code { escape, table, data: next, last, sizes } = stage_step(
            data,
            last_good,
        ) {
            let stages = run_stages(data, last_good, n).0;
            if !last {
                let rest = run_stages(next, Some(sizes), (n - 1) as nat).0;
                lemma_stage_tables(next, Some(sizes), (n - 1) as nat);
                assert forall|i: int| 0 <= i < stages.len() implies is_stage_table(
                    (#[trigger] stages[i]).1,
                ) by {
                    if i > 0 {
                        assert(stages[i] == rest[i - 1]);
                    }
                }
            }
        }
    }
}

/// Whatever the stages do to the data, undoing them gives the data back; they fit an archive, and
/// none makes the data longer.
pub proof fn lemma_stages_roundtrip(data: Seq<u8>, last_good: Option<Seq<usize>>, n: nat)
    requires
        data.len() <= MAX_DATA_LEN,
        data.len() <= usize::MAX,
        last_good matches Some(s) ==> sizes_ok(s),
    ensures
        ({
            let (stages, coded) = run_stages(data, last_good, n);
            &&& undo_stages(coded, stages, stages.len()) == Ok::<Seq<u8>, UnpackError>(data)
            &&& coded.len() <= data.len()
            &&& stages.len() <= n
            &&& stages.len() == 0 ==> coded == data
            &&& stages.len() > 0 ==> coded.len() < data.len()
            &&& crate::container::stages_fit(stages)
            &&& !crate::container::has_full_stage(stages)
        }),
    decreases n,
{
    let (stages, coded) = run_stages(data, last_good, n);
    lemma_step_chunks(data, last_good);
    if n > 0 {
        match stage_step(data, last_good) {
            StageStep::Stop => {},
            StageStep::Code { escape, table, data: next, last, sizes } => {
                lemma_stage_roundtrip(table, data, escape);
                let first = (escape, table);
                let rest = if last {
                    (Seq::<(u8, Map<u8, Seq<u8>>)>::empty(), next)
                } else {
                    run_stages(next, Some(sizes), (n - 1) as nat)
                };
                if !last {
                    lemma_stages_roundtrip(next, Some(sizes), (n - 1) as nat);
                }
                assert(stages =~= seq![first] + rest.0);
                lemma_undo_first(coded, first, rest.0, rest.0.len());
                assert forall|i: int| 0 <= i < stages.len() implies
                    crate::container::short_strings((#[trigger] stages[i]).1)
                    && crate::container::code_count(stages[i].1, 256) <= 255 by {
                    if i > 0 {
                        assert(stages[i] == rest.0[i - 1]);
                        assert(crate::container::short_strings(rest.0[i - 1].1));
                    }
                }
            },
        }
    }
}

proof fn lemma_least_below(data: Seq<u8>, n: nat) -> (b: u8)
    requires
        1 <= n <= 256,
    ensures
        b < n,
        forall|c: u8| c < n ==> count_of(data, b) <= #[trigger] count_of(data, c),
        forall|c: u8| c < b ==> count_of(data, b) < #[trigger] count_of(data, c),
    decreases n,
{
    if n == 1 {
        0u8
    } else {
        let b = lemma_least_below(data, (n - 1) as nat);
        let d = (n - 1) as u8;
        if count_of(data, d) < count_of(data, b) {
            d
        } else {
            b
        }
    }
}

/// The escape byte of a stage occurs least often in its data, and is the lowest of those that do.
pub proof fn lemma_escape_is_rarest(data: Seq<u8>)
    ensures
        forall|c: u8| count_of(data, rarest(data)) <= #[trigger] count_of(data, c),
        forall|c: u8|
            c < rarest(data) ==> count_of(data, rarest(data)) < #[trigger] count_of(data, c),
{
    let b = lemma_least_below(data, 256);
    assert(is_rarest(data, b));
}

/// How much is probed: all of data of up to two million bytes, of longer data a million bytes, and two
/// million where there are more than twenty. It is never more than there is.
pub proof fn lemma_probe_amount(len: nat)
    ensures
        probe_target(len) <= len,
        len <= 2000000 ==> probe_target(len) == len,
        2000000 < len <= 20000000 ==> probe_target(len) == 1000000,
        len > 20000000 ==> probe_target(len) == 2000000,
{
}

/// How much is looked at again: all of data of up to two million bytes, a quarter of longer data, and
/// where there are more than twenty million, eight, or twelve beyond a hundred.
pub proof fn lemma_retry_amount(len: nat)
    ensures
        retry_target(len) <= len,
        len <= 2000000 ==> retry_target(len) == len,
        2000000 < len <= 20000000 ==> len - 4 < 4 * retry_target(len) <= len,
        20000000 < len <= 100000000 ==> retry_target(len) == 8000000,
        len > 100000000 ==> retry_target(len) == 12000000,
{
}

/// As many regions are cross-referenced as the data has room for, but no less than four and no more
/// than twelve where the probe was flat, or else twenty-four.
pub proof fn lemma_regions_fill(len: nat, flat: bool)
    ensures
        ({
            let n = region_count(len, flat);
            let max: int = if flat {
                12
            } else {
                24
            };
            &&& 4 <= n <= max
            &&& n > 4 ==> 262144 * n <= len
            &&& n < max ==> len < 262144 * (n + 1)
        }),
{
}

/// A stage is undone exactly where it saves nothing. Another one follows exactly where it was found at
/// the first attempt and saves a thousandth or more.
pub proof fn lemma_stage_judged(before: nat, after: nat, second_attempt: bool)
    ensures
        verdict(before, after, second_attempt) == Verdict::Discard <==> before <= after,
        verdict(before, after, second_attempt) == Verdict::Commit <==> after < before
            && !second_attempt && before <= 1000 * (before - after),
{
}

/// A stage that stays makes the data shorter, and its code for a string is the place of the string
/// among those that save most. It is the last where it took two attempts or saves less than a
/// thousandth.
pub proof fn lemma_coded_shorter(
    data: Seq<u8>,
    chunks: Seq<Seq<u8>>,
    sizes: Seq<usize>,
    second_attempt: bool,
)
    ensures
        match code_step(data, chunks, sizes, second_attempt) {
            StageStep::Stop => stage_code(numbered(chunks), data, rarest(data)).len()
                >= data.len(),
            StageStep::Code { escape, table, data: coded, last, sizes: kept } => {
                &&& coded.len() < data.len()
                &&& coded == stage_code(table, data, escape)
                &&& escape == rarest(data)
                &&& forall|c: u8|
                    #[trigger] table.contains_key(c) <==> 1 <= c <= chunks.len()
                &&& forall|c: u8| 1 <= c <= chunks.len() ==> #[trigger] table[c] == chunks[c - 1]
                &&& last <==> second_attempt || 1000 * (data.len() - coded.len()) < data.len()
                &&& kept == sizes
            },
        },
{
}

/// The stages only ever shorten the data, by a byte each at least, and there are no more than were
/// allowed.
pub proof fn lemma_stages_shorten(data: Seq<u8>, last_good: Option<Seq<usize>>, n: nat)
    ensures
        run_stages(data, last_good, n).0.len() <= n,
        run_stages(data, last_good, n).1.len() + run_stages(data, last_good, n).0.len()
            <= data.len(),
        run_stages(data, last_good, n).0.len() == 0 ==> run_stages(data, last_good, n).1 == data,
    decreases n,
{
    if n > 0 {
        match stage_step(data, last_good) {
            StageStep::Stop => {},
            StageStep::Code { escape, table, data: coded, last, sizes } => {
                if !last {
                    lemma_stages_shorten(coded, Some(sizes), (n - 1) as nat);
                }
            },
        }
    }
}

/// A stage that saves a thousandth or more is followed by the stages of what it leaves, as long as some
/// are allowed; it is not followed by any otherwise.
pub proof fn lemma_stages_go_on(data: Seq<u8>, last_good: Option<Seq<usize>>, n: nat)
    requires
        n > 0,
    ensures
        match stage_step(data, last_good) {
            StageStep::Stop => run_stages(data, last_good, n).0.len() == 0,
            StageStep::Code { escape, table, data: coded, last, sizes } => {
                let all = run_stages(data, last_good, n);
                let rest = run_stages(coded, Some(sizes), (n - 1) as nat);
                &&& all.0.len() > 0
                &&& all.0[0] == (escape, table)
                &&& last ==> all.0.len() == 1 && all.1 == coded
                &&& !last ==> all.0.skip(1) == rest.0 && all.1 == rest.1
                &&& 1000 * (data.len() - coded.len()) < data.len() ==> last
            },
        },
{
    match stage_step(data, last_good) {
        StageStep::Stop => {},
        StageStep::Code { escape, table, data: coded, last, sizes } => {
            let all = run_stages(data, last_good, n);
            let rest = run_stages(coded, Some(sizes), (n - 1) as nat);
            if !last {
                assert(all.0.skip(1) =~= rest.0);
            }
        },
    }
}

/// Data of up to four million bytes are analysed in samples of half their length each, longer ones in
/// regions that are spread over them.
pub proof fn lemma_analysed_how(data: Seq<u8>, flat: bool, sizes: Seq<usize>)
    ensures
        data.len() <= 4000000 ==> analysed(data, data.len(), flat, sizes) == {
            let corpus = analysis_corpus(data, data.len() / 2);
            occurrence_candidates(corpus, sizes, occurrence_threshold(corpus.len()))
        },
        data.len() > 4000000 ==> analysed(data, data.len(), flat, sizes) == cross_candidates(
            data,
            region_count(data.len(), flat),
            sizes,
            occurrence_threshold(262144 * region_count(data.len(), flat)),
        ),
{
}

/// The lengths that are good for a stage are those that its own samples show, the first sample before
/// the second; those of the stage before only serve where neither shows any.
pub proof fn lemma_sizes_chosen(data: Seq<u8>, last_good: Option<Seq<usize>>)
    ensures
        probed_sizes(first_sample(data)).len() > 0 ==> stage_sizes(data, last_good) == Some(
            probed_sizes(first_sample(data)),
        ),
        probed_sizes(first_sample(data)).len() == 0 && probed_sizes(second_sample(data)).len() > 0
            ==> stage_sizes(data, last_good) == Some(probed_sizes(second_sample(data))),
        probed_sizes(first_sample(data)).len() == 0 && probed_sizes(second_sample(data)).len() == 0
            ==> stage_sizes(data, last_good) == last_good,
        first_sample(data) == spread_sample(data, probe_target(data.len()), 16),
        second_sample(data) == hotspot_sample(data, 2 * probe_target(data.len()), 65536),
{
}

} // verus!
