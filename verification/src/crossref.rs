//! Cross-referencing: strings that are frequent in several regions of the data.

use ahash::AHashMap;
use vstd::prelude::*;

use crate::bytes::copy_of;
use crate::candidates::{
    cand_views, is_repeat, make_cand, rank_candidates, ranked_cands, Cand, Candidate,
    MIN_CROSS_REF_SAMPLES, SAMPLE_REGION_SIZE,
};
use crate::rounding::{scale_count, scaled_up};
use crate::sampling::{compute_sample_offsets, sample_offsets};
use crate::windows::{
    counted_views, counts_in, frequent_windows, get_count, lemma_frequent_complete,
    lemma_frequent_windows, list_frequent_windows, new_counts, occurrences, set_count, Counted,
    WindowCount,
};

verus! {

/// The bytes of region `r`.
pub open spec fn region(data: Seq<u8>, offsets: Seq<(usize, usize)>, r: int) -> Seq<u8> {
    data.subrange(offsets[r].0 as int, offsets[r].1 as int)
}

/// How often `w` occurs in a region, if that is often enough there; else zero.
pub open spec fn hits(region: Seq<u8>, w: Seq<u8>, threshold: nat) -> nat {
    if occurrences(region, w) >= threshold {
        occurrences(region, w)
    } else {
        0
    }
}

/// The hits of `w` in the first `k` regions.
pub open spec fn total_hits(
    data: Seq<u8>,
    offsets: Seq<(usize, usize)>,
    w: Seq<u8>,
    threshold: nat,
    k: nat,
) -> nat
    decreases k,
{
    if k == 0 {
        0
    } else {
        total_hits(data, offsets, w, threshold, (k - 1) as nat) + hits(
            region(data, offsets, k - 1),
            w,
            threshold,
        )
    }
}

/// In how many of the first `k` regions `w` has hits.
pub open spec fn hit_regions(
    data: Seq<u8>,
    offsets: Seq<(usize, usize)>,
    w: Seq<u8>,
    threshold: nat,
    k: nat,
) -> nat
    decreases k,
{
    if k == 0 {
        0
    } else {
        hit_regions(data, offsets, w, threshold, (k - 1) as nat) + if hits(
            region(data, offsets, k - 1),
            w,
            threshold,
        ) > 0 {
            1nat
        } else {
            0
        }
    }
}

/// How often a size stands in the list.
pub open spec fn multiplicity(sizes: Seq<usize>, size: usize, k: nat) -> nat
    decreases k,
{
    if k == 0 {
        0
    } else {
        multiplicity(sizes, size, (k - 1) as nat) + if sizes[k - 1] == size {
            1nat
        } else {
            0
        }
    }
}

/// What is asked of a string.
pub struct Query {
    pub threshold: nat,
    /// How often each region is counted.
    pub times: nat,
    /// In how many regions a string must be frequent, each counted as often.
    pub min_regions: nat,
}

/// The string is frequent in enough regions.
pub open spec fn is_promoted(
    data: Seq<u8>,
    offsets: Seq<(usize, usize)>,
    q: Query,
    w: Seq<u8>,
) -> bool {
    q.times * hit_regions(data, offsets, w, q.threshold, offsets.len()) >= q.min_regions
}

/// What the count over all regions scales up to for the whole data.
pub open spec fn estimate(total: nat, sample: nat, len: nat) -> usize {
    if sample < len {
        if scaled_up(total, sample, len) <= usize::MAX {
            scaled_up(total, sample, len) as usize
        } else {
            usize::MAX
        }
    } else {
        total as usize
    }
}

/// Those of the first `k` windows of region `r` that are promoted and have no hits in an earlier
/// region, with their count scaled up.
pub open spec fn promoted_in(
    data: Seq<u8>,
    offsets: Seq<(usize, usize)>,
    size: nat,
    q: Query,
    r: int,
    k: nat,
) -> Seq<Cand>
    decreases k,
{
    if k == 0 {
        seq![]
    } else {
        let before = promoted_in(data, offsets, size, q, r, (k - 1) as nat);
        let w = frequent_windows(region(data, offsets, r), size, q.threshold)[k - 1].chunk;
        if hit_regions(data, offsets, w, q.threshold, r as nat) == 0 && is_promoted(
            data,
            offsets,
            q,
            w,
        ) {
            let total = q.times * total_hits(data, offsets, w, q.threshold, offsets.len());
            let count = estimate(total, offsets.len() * SAMPLE_REGION_SIZE as nat, data.len());
            before.push(make_cand(w, count as nat, size))
        } else {
            before
        }
    }
}

/// The promoted windows of the first `k` regions.
pub open spec fn promoted(
    data: Seq<u8>,
    offsets: Seq<(usize, usize)>,
    size: nat,
    q: Query,
    k: nat,
) -> Seq<Cand>
    decreases k,
{
    if k == 0 {
        seq![]
    } else {
        promoted(data, offsets, size, q, (k - 1) as nat) + promoted_in(
            data,
            offsets,
            size,
            q,
            k - 1,
            frequent_windows(region(data, offsets, k - 1), size, q.threshold).len(),
        )
    }
}

pub open spec fn query_for(sizes: Seq<usize>, size: usize, threshold: nat, regions: nat) -> Query {
    Query {
        threshold,
        times: multiplicity(sizes, size, sizes.len()),
        min_regions: if regions < MIN_CROSS_REF_SAMPLES {
            regions
        } else {
            MIN_CROSS_REF_SAMPLES as nat
        },
    }
}

/// The promoted windows of the first `k` sizes.
pub open spec fn promoted_sizes(
    data: Seq<u8>,
    offsets: Seq<(usize, usize)>,
    sizes: Seq<usize>,
    threshold: nat,
    k: nat,
) -> Seq<Cand>
    decreases k,
{
    if k == 0 {
        seq![]
    } else {
        let before = promoted_sizes(data, offsets, sizes, threshold, (k - 1) as nat);
        let size = sizes[k - 1];
        if is_repeat(sizes, k - 1) {
            before
        } else {
            before + promoted(
                data,
                offsets,
                size as nat,
                query_for(sizes, size, threshold, offsets.len()),
                offsets.len(),
            )
        }
    }
}

/// The strings of the given sizes that are frequent in several of `regions` regions, by rank.
pub open spec fn cross_candidates(
    data: Seq<u8>,
    regions: nat,
    sizes: Seq<usize>,
    threshold: nat,
) -> Seq<Cand> {
    let offsets = sample_offsets(data.len(), regions, SAMPLE_REGION_SIZE as nat);
    ranked_cands(promoted_sizes(data, offsets, sizes, threshold, sizes.len()))
}

/// The lengths of the first `k` regions and one more byte for each, added up.
spec fn room(offsets: Seq<(usize, usize)>, k: nat) -> nat
    decreases k,
{
    if k == 0 {
        0
    } else {
        room(offsets, (k - 1) as nat) + (offsets[k - 1].1 - offsets[k - 1].0 + 1) as nat
    }
}

spec fn offsets_ok(offsets: Seq<(usize, usize)>, len: nat) -> bool {
    forall|i: int|
        0 <= i < offsets.len() ==> (#[trigger] offsets[i]).0 <= offsets[i].1 <= len
}

proof fn lemma_room_monotonic(offsets: Seq<(usize, usize)>, len: nat, a: nat, b: nat)
    requires
        offsets_ok(offsets, len),
        a <= b <= offsets.len(),
    ensures
        room(offsets, a) <= room(offsets, b),
    decreases b,
{
    if a < b {
        lemma_room_monotonic(offsets, len, a, (b - 1) as nat);
        assert(offsets[b - 1].0 <= offsets[b - 1].1);
    }
}

proof fn lemma_room(len: nat, regions: nat, k: nat)
    requires
        regions > 0,
        len <= usize::MAX,
        k <= sample_offsets(len, regions, SAMPLE_REGION_SIZE as nat).len(),
    ensures
        room(sample_offsets(len, regions, SAMPLE_REGION_SIZE as nat), k) <= regions * 262145,
    decreases k,
{
    let size = SAMPLE_REGION_SIZE as nat;
    let offsets = sample_offsets(len, regions, size);
    assert(size * regions == 262144 * regions);
    if len <= size * regions {
        assert(offsets == seq![(0usize, len as usize)]);
        reveal_with_fuel(room, 2);
        if k > 0 {
            assert(k == 1);
            assert(room(offsets, 1) == len + 1);
        }
    } else {
        lemma_room_spread(len, regions, k);
    }
}

proof fn lemma_room_spread(len: nat, regions: nat, k: nat)
    requires
        regions > 0,
        len <= usize::MAX,
        len > SAMPLE_REGION_SIZE * regions,
        k <= regions,
    ensures
        room(sample_offsets(len, regions, SAMPLE_REGION_SIZE as nat), k) <= k * 262145,
    decreases k,
{
    if k > 0 {
        lemma_room_spread(len, regions, (k - 1) as nat);
        crate::sampling::lemma_region_fits(
            len,
            regions,
            SAMPLE_REGION_SIZE as nat,
            (k - 1) as nat,
        );
        let offsets = sample_offsets(len, regions, SAMPLE_REGION_SIZE as nat);
        let step = len / regions;
        assert(0 <= (k - 1) * step) by (nonlinear_arith)
            requires
                k >= 1,
        ;
        assert(offsets[k - 1].1 - offsets[k - 1].0 == SAMPLE_REGION_SIZE);
    }
}

proof fn lemma_hits_bound(
    data: Seq<u8>,
    offsets: Seq<(usize, usize)>,
    w: Seq<u8>,
    threshold: nat,
    k: nat,
)
    requires
        offsets_ok(offsets, data.len()),
        k <= offsets.len(),
    ensures
        total_hits(data, offsets, w, threshold, k) <= room(offsets, k),
        hit_regions(data, offsets, w, threshold, k) <= k,
        hit_regions(data, offsets, w, threshold, k) > 0 <==> total_hits(
            data,
            offsets,
            w,
            threshold,
            k,
        ) > 0,
    decreases k,
{
    if k > 0 {
        lemma_hits_bound(data, offsets, w, threshold, (k - 1) as nat);
        assert(offsets[k - 1].0 <= offsets[k - 1].1);
        let r = region(data, offsets, k - 1);
        crate::windows::lemma_window_count(
            r,
            w.len(),
            w,
            crate::windows::window_total(r, w.len()),
        );
    }
}

/// Adds the hits of one region to the totals and to the numbers of regions.
fn add_region(
    totals: &mut AHashMap<Vec<u8>, usize>,
    seen: &mut AHashMap<Vec<u8>, usize>,
    found: &Vec<WindowCount>,
    Ghost(data): Ghost<Seq<u8>>,
    Ghost(offsets): Ghost<Seq<(usize, usize)>>,
    Ghost(size): Ghost<nat>,
    Ghost(threshold): Ghost<nat>,
    Ghost(r): Ghost<nat>,
)
    requires
        size > 0,
        r < offsets.len(),
        offsets_ok(offsets, data.len()),
        offsets.len() <= usize::MAX,
        room(offsets, offsets.len()) <= usize::MAX,
        counted_views(found@) == frequent_windows(
            region(data, offsets, r as int),
            size,
            threshold,
        ),
        tallies(counts_in(*old(totals)), data, offsets, size, threshold, r, false),
        tallies(counts_in(*old(seen)), data, offsets, size, threshold, r, true),
    ensures
        tallies(counts_in(*final(totals)), data, offsets, size, threshold, r + 1, false),
        tallies(counts_in(*final(seen)), data, offsets, size, threshold, r + 1, true),
{
    let ghost reg = region(data, offsets, r as int);
    let ghost list = counted_views(found@);
    let ghost totals0 = counts_in(*totals);
    let ghost seen0 = counts_in(*seen);
    proof {
        lemma_frequent_windows(reg, size, threshold);
        lemma_frequent_complete(reg, size, threshold);
        assert(list.len() == found@.len());
        lemma_room_monotonic(offsets, data.len(), r + 1, offsets.len());
    }
    let mut i: usize = 0;
    while i < found.len()
        invariant
            i <= found@.len(),
            size > 0,
            r < offsets.len(),
            offsets_ok(offsets, data.len()),
            offsets.len() <= usize::MAX,
            room(offsets, r + 1) <= usize::MAX,
            reg == region(data, offsets, r as int),
            list == counted_views(found@),
            list.len() == found@.len(),
            forall|k: int|
                0 <= k < list.len() ==> {
                    let c = #[trigger] list[k];
                    &&& c.chunk.len() == size
                    &&& c.count == occurrences(reg, c.chunk)
                    &&& c.count >= threshold
                    &&& c.count > 0
                },
            forall|a: int, b: int|
                0 <= a < b < list.len() ==> (#[trigger] list[a]).chunk != (
                #[trigger] list[b]).chunk,
            tallies(totals0, data, offsets, size, threshold, r, false),
            tallies(seen0, data, offsets, size, threshold, r, true),
            forall|w: Seq<u8>|
                w.len() == size ==> #[trigger] tally_of(counts_in(*totals), w) == tally_of(
                    totals0,
                    w,
                ) + (if listed(list, w, i as int) {
                    occurrences(reg, w)
                } else {
                    0
                }),
            forall|w: Seq<u8>|
                w.len() == size ==> #[trigger] tally_of(counts_in(*seen), w) == tally_of(seen0, w)
                    + (if listed(list, w, i as int) {
                    1nat
                } else {
                    0
                }),
        decreases found@.len() - i,
    {
        let ghost w = list[i as int].chunk;
        assert(list[i as int] == found@[i as int]@);
        let ghost t1 = counts_in(*totals);
        let ghost s1 = counts_in(*seen);
        proof {
            assert(!listed(list, w, i as int));
            assert(tally_of(t1, w) == tally_of(totals0, w));
            assert(tally_of(s1, w) == tally_of(seen0, w));
            assert(tally_of(totals0, w) == total_hits(data, offsets, w, threshold, r));
            assert(tally_of(seen0, w) == hit_regions(data, offsets, w, threshold, r));
            lemma_hits_bound(data, offsets, w, threshold, r + 1);
            assert(hits(reg, w, threshold) == found@[i as int].count);
        }
        let old_total = match get_count(totals, &found[i].chunk) {
            Some(c) => c,
            None => 0,
        };
        let old_seen = match get_count(seen, &found[i].chunk) {
            Some(c) => c,
            None => 0,
        };
        let key = copy_of(&found[i].chunk);
        set_count(totals, key, old_total + found[i].count);
        let key = copy_of(&found[i].chunk);
        set_count(seen, key, old_seen + 1);
        proof {
            assert forall|v: Seq<u8>| v.len() == size implies #[trigger] tally_of(
                counts_in(*totals),
                v,
            ) == tally_of(totals0, v) + (if listed(list, v, i + 1) {
                occurrences(reg, v)
            } else {
                0
            }) by {
                lemma_listed_step(list, v, i as int);
                assert(tally_of(t1, v) == tally_of(totals0, v) + (if listed(list, v, i as int) {
                    occurrences(reg, v)
                } else {
                    0
                }));
            }
            assert forall|v: Seq<u8>| v.len() == size implies #[trigger] tally_of(
                counts_in(*seen),
                v,
            ) == tally_of(seen0, v) + (if listed(list, v, i + 1) {
                1nat
            } else {
                0
            }) by {
                lemma_listed_step(list, v, i as int);
                assert(tally_of(s1, v) == tally_of(seen0, v) + (if listed(list, v, i as int) {
                    1nat
                } else {
                    0
                }));
            }
        }
        i += 1;
    }
    proof {
        assert forall|v: Seq<u8>| v.len() == size implies #[trigger] tally_of(
            counts_in(*totals),
            v,
        ) == total_hits(data, offsets, v, threshold, r + 1) by {
            assert(tally_of(totals0, v) == total_hits(data, offsets, v, threshold, r));
            lemma_listed_hits(reg, size, threshold, v);
        }
        assert forall|v: Seq<u8>| v.len() == size implies #[trigger] tally_of(counts_in(*seen), v)
            == hit_regions(data, offsets, v, threshold, r + 1) by {
            assert(tally_of(seen0, v) == hit_regions(data, offsets, v, threshold, r));
            lemma_listed_hits(reg, size, threshold, v);
        }
    }
}

/// The number that a map has for a string, zero where it has none.
spec fn tally_of(m: Map<Seq<u8>, usize>, w: Seq<u8>) -> nat {
    if m.contains_key(w) {
        m[w] as nat
    } else {
        0
    }
}

/// For strings of the given size the map has the hits, or the number of regions with hits, over
/// the first `k` regions.
spec fn tallies(
    m: Map<Seq<u8>, usize>,
    data: Seq<u8>,
    offsets: Seq<(usize, usize)>,
    size: nat,
    threshold: nat,
    k: nat,
    regions: bool,
) -> bool {
    forall|w: Seq<u8>|
        w.len() == size ==> #[trigger] tally_of(m, w) == if regions {
            hit_regions(data, offsets, w, threshold, k)
        } else {
            total_hits(data, offsets, w, threshold, k)
        }
}

/// `w` is among the first `k` windows of the list.
spec fn listed(list: Seq<Counted>, w: Seq<u8>, k: int) -> bool {
    exists|j: int| 0 <= j < k && (#[trigger] list[j]).chunk == w
}

proof fn lemma_listed_step(list: Seq<Counted>, w: Seq<u8>, k: int)
    requires
        0 <= k < list.len(),
    ensures
        listed(list, w, k + 1) <==> listed(list, w, k) || list[k].chunk == w,
{
    if listed(list, w, k) {
        let j = choose|j: int| 0 <= j < k && (#[trigger] list[j]).chunk == w;
        assert(0 <= j < k + 1 && list[j].chunk == w);
    }
    if list[k].chunk == w {
        assert(0 <= k < k + 1 && list[k].chunk == w);
    }
    if listed(list, w, k + 1) {
        let j = choose|j: int| 0 <= j < k + 1 && (#[trigger] list[j]).chunk == w;
        if j < k {
            assert(0 <= j < k && list[j].chunk == w);
        }
    }
}

proof fn lemma_listed_hits(reg: Seq<u8>, size: nat, threshold: nat, w: Seq<u8>)
    requires
        w.len() == size,
    ensures
        ({
            let list = frequent_windows(reg, size, threshold);
            hits(reg, w, threshold) == if listed(list, w, list.len() as int) {
                occurrences(reg, w)
            } else {
                0
            }
        }),
        ({
            let list = frequent_windows(reg, size, threshold);
            hits(reg, w, threshold) > 0 <==> listed(list, w, list.len() as int)
        }),
{
    let list = frequent_windows(reg, size, threshold);
    lemma_frequent_windows(reg, size, threshold);
    lemma_frequent_complete(reg, size, threshold);
    if listed(list, w, list.len() as int) {
        let j = choose|j: int| 0 <= j < list.len() && (#[trigger] list[j]).chunk == w;
        assert(list[j].count == occurrences(reg, w));
    } else if occurrences(reg, w) > 0 && occurrences(reg, w) >= threshold {
        let j = choose|j: int| 0 <= j < list.len() && (#[trigger] list[j]).chunk == w;
        assert(listed(list, w, list.len() as int));
    }
}

/// The totals of the strings that have not been visited yet: those without hits in the first `r`
/// regions and not among the first `i` windows of the list.
spec fn unvisited(
    m: Map<Seq<u8>, usize>,
    data: Seq<u8>,
    offsets: Seq<(usize, usize)>,
    size: nat,
    threshold: nat,
    r: nat,
    list: Seq<Counted>,
    i: int,
) -> bool {
    forall|w: Seq<u8>|
        w.len() == size ==> #[trigger] tally_of(m, w) == if hit_regions(
            data,
            offsets,
            w,
            threshold,
            r,
        ) > 0 || listed(list, w, i) {
            0
        } else {
            total_hits(data, offsets, w, threshold, offsets.len())
        }
}

fn estimate_count(total: usize, sample: usize, len: usize) -> (r: usize)
    requires
        0 < total <= 0x20_0000_0000_0000,
        0 < sample,
        len <= 0x20_0000_0000_0000,
    ensures
        r == estimate(total as nat, sample as nat, len as nat),
{
    if sample < len {
        scale_count(total, sample, len)
    } else {
        total
    }
}

/// The limits within which the counts of a search can be held.
pub open spec fn counts_fit(len: nat, regions: nat, sizes: nat) -> bool {
    &&& len <= 0x20_0000_0000_0000
    &&& sizes * (regions * 262145) <= 0x20_0000_0000_0000
    &&& sizes * (regions * 262145) <= usize::MAX
}

/// Appends the promoted windows of one region as candidates.
fn push_promoted(
    list: &mut Vec<Candidate>,
    totals: &mut AHashMap<Vec<u8>, usize>,
    seen: &AHashMap<Vec<u8>, usize>,
    found: &Vec<WindowCount>,
    data: &[u8],
    offsets: &Vec<(usize, usize)>,
    size: usize,
    times: usize,
    min_regions: usize,
    Ghost(q): Ghost<Query>,
    Ghost(r): Ghost<nat>,
)
    requires
        size > 0,
        r < offsets@.len(),
        offsets_ok(offsets@, data@.len()),
        data@.len() <= 0x20_0000_0000_0000,
        0 < times,
        times * room(offsets@, offsets@.len()) <= 0x20_0000_0000_0000,
        times * room(offsets@, offsets@.len()) <= usize::MAX,
        times * offsets@.len() <= usize::MAX,
        offsets@.len() * SAMPLE_REGION_SIZE <= usize::MAX,
        q.times == times,
        q.min_regions == min_regions,
        counted_views(found@) == frequent_windows(
            region(data@, offsets@, r as int),
            size as nat,
            q.threshold,
        ),
        unvisited(
            counts_in(*old(totals)),
            data@,
            offsets@,
            size as nat,
            q.threshold,
            r,
            counted_views(found@),
            0,
        ),
        tallies(
            counts_in(*seen),
            data@,
            offsets@,
            size as nat,
            q.threshold,
            offsets@.len(),
            true,
        ),
    ensures
        cand_views(final(list)@) == cand_views(old(list)@) + promoted_in(
            data@,
            offsets@,
            size as nat,
            q,
            r as int,
            found@.len(),
        ),
        unvisited(
            counts_in(*final(totals)),
            data@,
            offsets@,
            size as nat,
            q.threshold,
            r + 1,
            seq![],
            0,
        ),
{
    let ghost reg = region(data@, offsets@, r as int);
    let ghost windows = counted_views(found@);
    let ghost before = cand_views(list@);
    proof {
        lemma_frequent_windows(reg, size as nat, q.threshold);
        assert(windows.len() == found@.len());
        assert(before + seq![] =~= before);
    }
    let mut i: usize = 0;
    while i < found.len()
        invariant
            i <= found@.len(),
            size > 0,
            r < offsets@.len(),
            offsets_ok(offsets@, data@.len()),
            data@.len() <= 0x20_0000_0000_0000,
            0 < times,
            times * room(offsets@, offsets@.len()) <= 0x20_0000_0000_0000,
            times * room(offsets@, offsets@.len()) <= usize::MAX,
            times * offsets@.len() <= usize::MAX,
            offsets@.len() * SAMPLE_REGION_SIZE <= usize::MAX,
            q.times == times,
            q.min_regions == min_regions,
            reg == region(data@, offsets@, r as int),
            windows == counted_views(found@),
            windows.len() == found@.len(),
            windows == frequent_windows(reg, size as nat, q.threshold),
            forall|k: int|
                0 <= k < windows.len() ==> {
                    let c = #[trigger] windows[k];
                    &&& c.chunk.len() == size
                    &&& c.count == occurrences(reg, c.chunk)
                    &&& c.count >= q.threshold
                    &&& 0 < c.count
                },
            forall|a: int, b: int|
                0 <= a < b < windows.len() ==> (#[trigger] windows[a]).chunk != (
                #[trigger] windows[b]).chunk,
            unvisited(
                counts_in(*totals),
                data@,
                offsets@,
                size as nat,
                q.threshold,
                r,
                windows,
                i as int,
            ),
            tallies(
                counts_in(*seen),
                data@,
                offsets@,
                size as nat,
                q.threshold,
                offsets@.len(),
                true,
            ),
            cand_views(list@) == before + promoted_in(
                data@,
                offsets@,
                size as nat,
                q,
                r as int,
                i as nat,
            ),
        decreases found@.len() - i,
    {
        let ghost w = windows[i as int].chunk;
        let ghost t1 = counts_in(*totals);
        let ghost now = cand_views(list@);
        let ghost n = offsets@.len();
        let ghost all_hits = total_hits(data@, offsets@, w, q.threshold, n);
        let ghost all_regions = hit_regions(data@, offsets@, w, q.threshold, n);
        assert(windows[i as int] == found@[i as int]@);
        proof {
            assert(!listed(windows, w, i as int));
            lemma_hits_bound(data@, offsets@, w, q.threshold, n);
            lemma_hits_here(data@, offsets@, w, q.threshold, r, n);
            assert(hits(reg, w, q.threshold) > 0);
            assert(tally_of(t1, w) == if hit_regions(data@, offsets@, w, q.threshold, r) > 0 {
                0
            } else {
                all_hits
            });
            assert(tally_of(counts_in(*seen), w) == all_regions);
        }
        let total = match get_count(totals, &found[i].chunk) {
            Some(c) => c,
            None => 0,
        };
        if total > 0 {
            let regions = match get_count(seen, &found[i].chunk) {
                Some(c) => c,
                None => 0,
            };
            let key = copy_of(&found[i].chunk);
            set_count(totals, key, 0);
            proof {
                let m = room(offsets@, n);
                assert(times * regions <= times * n) by (nonlinear_arith)
                    requires
                        regions <= n,
                ;
                assert(times * total <= times * m) by (nonlinear_arith)
                    requires
                        total <= m,
                ;
                assert(0 < times * total) by (nonlinear_arith)
                    requires
                        times > 0,
                        total > 0,
                ;
            }
            if times * regions >= min_regions {
                let count = estimate_count(
                    times * total,
                    offsets.len() * SAMPLE_REGION_SIZE,
                    data.len(),
                );
                let chunk = copy_of(&found[i].chunk);
                proof {
                    assert(size * count <= 0xffff_ffff_ffff_ffff * 0xffff_ffff_ffff_ffff)
                        by (nonlinear_arith)
                        requires
                            size <= 0xffff_ffff_ffff_ffff,
                            count <= 0xffff_ffff_ffff_ffff,
                    ;
                }
                let c = Candidate {
                    chunk,
                    max_count: count,
                    chunk_size: size,
                    size_score: size as u128 * count as u128,
                };
                let ghost v = c@;
                list.push(c);
                proof {
                    assert(cand_views(list@) =~= now.push(v));
                    assert(v == make_cand(w, count as nat, size as nat));
                }
            }
        }
        proof {
            assert(cand_views(list@) =~= before + promoted_in(
                data@,
                offsets@,
                size as nat,
                q,
                r as int,
                (i + 1) as nat,
            ));
            assert forall|v: Seq<u8>| v.len() == size implies #[trigger] tally_of(
                counts_in(*totals),
                v,
            ) == (if hit_regions(data@, offsets@, v, q.threshold, r) > 0 || listed(
                windows,
                v,
                i + 1,
            ) {
                0
            } else {
                total_hits(data@, offsets@, v, q.threshold, n)
            }) by {
                lemma_listed_step(windows, v, i as int);
                assert(tally_of(t1, v) == if hit_regions(data@, offsets@, v, q.threshold, r) > 0
                    || listed(windows, v, i as int) {
                    0
                } else {
                    total_hits(data@, offsets@, v, q.threshold, n)
                });
            }
        }
        i += 1;
    }
    proof {
        let none = Seq::<Counted>::empty();
        assert forall|v: Seq<u8>| v.len() == size implies #[trigger] tally_of(
            counts_in(*totals),
            v,
        ) == (if hit_regions(data@, offsets@, v, q.threshold, r + 1) > 0 || listed(none, v, 0) {
            0
        } else {
            total_hits(data@, offsets@, v, q.threshold, offsets@.len())
        }) by {
            lemma_listed_hits(reg, size as nat, q.threshold, v);
        }
    }
}

proof fn lemma_hits_here(
    data: Seq<u8>,
    offsets: Seq<(usize, usize)>,
    w: Seq<u8>,
    threshold: nat,
    r: nat,
    k: nat,
)
    requires
        r < k,
    ensures
        total_hits(data, offsets, w, threshold, k) >= hits(
            region(data, offsets, r as int),
            w,
            threshold,
        ),
    decreases k,
{
    if r < k - 1 {
        lemma_hits_here(data, offsets, w, threshold, r, (k - 1) as nat);
    }
}

/// Appends the promoted windows of one size as candidates.
fn push_size(
    list: &mut Vec<Candidate>,
    data: &[u8],
    offsets: &Vec<(usize, usize)>,
    size: usize,
    threshold: usize,
    times: usize,
    min_regions: usize,
    Ghost(q): Ghost<Query>,
)
    requires
        size > 0,
        offsets_ok(offsets@, data@.len()),
        data@.len() <= 0x20_0000_0000_0000,
        0 < times,
        times * room(offsets@, offsets@.len()) <= 0x20_0000_0000_0000,
        times * room(offsets@, offsets@.len()) <= usize::MAX,
        room(offsets@, offsets@.len()) <= usize::MAX,
        times * offsets@.len() <= usize::MAX,
        offsets@.len() * SAMPLE_REGION_SIZE <= usize::MAX,
        q.threshold == threshold,
        q.times == times,
        q.min_regions == min_regions,
    ensures
        cand_views(final(list)@) == cand_views(old(list)@) + promoted(
            data@,
            offsets@,
            size as nat,
            q,
            offsets@.len(),
        ),
{
    let mut lists: Vec<Vec<WindowCount>> = Vec::with_capacity(offsets.len());
    let mut totals = new_counts();
    let mut seen = new_counts();
    let mut r: usize = 0;
    while r < offsets.len()
        invariant
            r <= offsets@.len(),
            lists@.len() == r,
            size > 0,
            offsets_ok(offsets@, data.len() as nat),
            room(offsets@, offsets@.len()) <= usize::MAX,
            q.threshold == threshold,
            forall|k: int|
                0 <= k < r ==> counted_views((#[trigger] lists@[k])@) == frequent_windows(
                    region(data@, offsets@, k),
                    size as nat,
                    q.threshold,
                ),
            tallies(
                counts_in(totals),
                data@,
                offsets@,
                size as nat,
                q.threshold,
                r as nat,
                false,
            ),
            tallies(
                counts_in(seen),
                data@,
                offsets@,
                size as nat,
                q.threshold,
                r as nat,
                true,
            ),
        decreases offsets@.len() - r,
    {
        let (start, end) = offsets[r];
        assert(offsets@[r as int].0 <= offsets@[r as int].1);
        let found = list_frequent_windows(&data[start..end], size, threshold);
        add_region(
            &mut totals,
            &mut seen,
            &found,
            Ghost(data@),
            Ghost(offsets@),
            Ghost(size as nat),
            Ghost(q.threshold),
            Ghost(r as nat),
        );
        lists.push(found);
        r += 1;
    }
    let ghost before = cand_views(list@);
    let mut r: usize = 0;
    proof {
        assert(before + seq![] =~= before);
        let none = Seq::<Counted>::empty();
        assert(unvisited(
            counts_in(totals),
            data@,
            offsets@,
            size as nat,
            q.threshold,
            0,
            none,
            0,
        ));
    }
    while r < offsets.len()
        invariant
            r <= offsets@.len(),
            lists@.len() == offsets@.len(),
            size > 0,
            offsets_ok(offsets@, data@.len()),
            data@.len() <= 0x20_0000_0000_0000,
            0 < times,
            times * room(offsets@, offsets@.len()) <= 0x20_0000_0000_0000,
            times * room(offsets@, offsets@.len()) <= usize::MAX,
            times * offsets@.len() <= usize::MAX,
            offsets@.len() * SAMPLE_REGION_SIZE <= usize::MAX,
            q.threshold == threshold,
            q.times == times,
            q.min_regions == min_regions,
            forall|k: int|
                0 <= k < lists@.len() ==> counted_views((#[trigger] lists@[k])@)
                    == frequent_windows(
                    region(data@, offsets@, k),
                    size as nat,
                    q.threshold,
                ),
            unvisited(
                counts_in(totals),
                data@,
                offsets@,
                size as nat,
                q.threshold,
                r as nat,
                seq![],
                0,
            ),
            tallies(
                counts_in(seen),
                data@,
                offsets@,
                size as nat,
                q.threshold,
                offsets@.len(),
                true,
            ),
            cand_views(list@) == before + promoted(
                data@,
                offsets@,
                size as nat,
                q,
                r as nat,
            ),
        decreases offsets@.len() - r,
    {
        let ghost now = cand_views(list@);
        proof {
            let none = Seq::<Counted>::empty();
            let views = counted_views(lists@[r as int]@);
            assert(views.len() == lists@[r as int]@.len());
            assert forall|w: Seq<u8>| w.len() == size implies #[trigger] tally_of(
                counts_in(totals),
                w,
            ) == (if hit_regions(data@, offsets@, w, q.threshold, r as nat) > 0 || listed(
                views,
                w,
                0,
            ) {
                0
            } else {
                total_hits(data@, offsets@, w, q.threshold, offsets@.len())
            }) by {
                assert(!listed(none, w, 0));
            }
        }
        push_promoted(
            list,
            &mut totals,
            &seen,
            &lists[r],
            data,
            offsets,
            size,
            times,
            min_regions,
            Ghost(q),
            Ghost(r as nat),
        );
        proof {
            assert(cand_views(list@) =~= before + promoted(
                data@,
                offsets@,
                size as nat,
                q,
                (r + 1) as nat,
            ));
        }
        r += 1;
    }
}

fn count_size(sizes: &[usize], size: usize) -> (n: usize)
    ensures
        n as nat == multiplicity(sizes@, size, sizes@.len()),
        n <= sizes@.len(),
        sizes@.contains(size) ==> n > 0,
{
    let mut n: usize = 0;
    let mut i: usize = 0;
    while i < sizes.len()
        invariant
            i <= sizes@.len(),
            n <= i,
            n as nat == multiplicity(sizes@, size, i as nat),
            (exists|k: int| 0 <= k < i && #[trigger] sizes@[k] == size) ==> n > 0,
        decreases sizes@.len() - i,
    {
        if sizes[i] == size {
            n += 1;
        }
        i += 1;
    }
    n
}

/// The strings of the given sizes that are frequent in several of `num_regions` regions of the
/// data, by rank.
pub fn parallel_cross_reference_sample(
    data: &[u8],
    num_regions: usize,
    sizes: &[usize],
    threshold: usize,
) -> (out: Vec<Candidate>)
    requires
        num_regions > 0,
        forall|i: int| 0 <= i < sizes@.len() ==> (#[trigger] sizes@[i]) > 0,
        sizes@.len() > 0 ==> counts_fit(data@.len(), num_regions as nat, sizes@.len()),
    ensures
        cand_views(out@) == cross_candidates(
            data@,
            num_regions as nat,
            sizes@,
            threshold as nat,
        ),
{
    let mut list: Vec<Candidate> = Vec::new();
    assert(cand_views(list@) =~= seq![]);
    if sizes.len() == 0 {
        return rank_candidates(list);
    }
    let ghost n = sizes@.len();
    let ghost m = num_regions as nat * 262145;
    let len = data.len();
    proof {
        assert(m <= n * m) by (nonlinear_arith)
            requires
                n >= 1,
        ;
        assert(SAMPLE_REGION_SIZE * num_regions <= m);
    }
    let offsets = compute_sample_offsets(len, num_regions, SAMPLE_REGION_SIZE);
    proof {
        lemma_room(len as nat, num_regions as nat, offsets@.len());
        assert(offsets@.len() <= num_regions);
    }
    let min_regions = if offsets.len() < MIN_CROSS_REF_SAMPLES {
        offsets.len()
    } else {
        MIN_CROSS_REF_SAMPLES
    };
    let mut k: usize = 0;
    while k < sizes.len()
        invariant
            k <= sizes@.len(),
            n == sizes@.len(),
            m == num_regions as nat * 262145,
            len == data@.len(),
            len <= 0x20_0000_0000_0000,
            n * m <= 0x20_0000_0000_0000,
            n * m <= usize::MAX,
            m <= n * m,
            offsets@ == sample_offsets(len as nat, num_regions as nat, SAMPLE_REGION_SIZE as nat),
            offsets@.len() <= num_regions,
            room(offsets@, offsets@.len()) <= m,
            offsets_ok(offsets@, len as nat),
            min_regions == if offsets@.len() < MIN_CROSS_REF_SAMPLES {
                offsets@.len() as usize
            } else {
                MIN_CROSS_REF_SAMPLES
            },
            forall|i: int| 0 <= i < sizes@.len() ==> (#[trigger] sizes@[i]) > 0,
            cand_views(list@) == promoted_sizes(
                data@,
                offsets@,
                sizes@,
                threshold as nat,
                k as nat,
            ),
        decreases sizes@.len() - k,
    {
        let size = sizes[k];
        if !crate::candidates::has_come_before(sizes, k) {
            let times = count_size(sizes, size);
            let ghost q = query_for(sizes@, size, threshold as nat, offsets@.len());
            proof {
                assert(sizes@[k as int] == size);
                let total = room(offsets@, offsets@.len());
                assert(times * total <= n * m) by (nonlinear_arith)
                    requires
                        times <= n,
                        total <= m,
                ;
                let o = offsets@.len();
                assert(times * o <= n * m) by (nonlinear_arith)
                    requires
                        times <= n,
                        o <= m,
                ;
            }
            push_size(&mut list, data, &offsets, size, threshold, times, min_regions, Ghost(q));
        }
        k += 1;
    }
    rank_candidates(list)
}

/// The string stands in region `r` at least `threshold` times, and once at all.
pub open spec fn frequent_in(
    data: Seq<u8>,
    offsets: Seq<(usize, usize)>,
    w: Seq<u8>,
    threshold: nat,
    r: int,
) -> bool {
    &&& occurrences(region(data, offsets, r), w) >= threshold
    &&& occurrences(region(data, offsets, r), w) > 0
}

proof fn lemma_hit_region(
    data: Seq<u8>,
    offsets: Seq<(usize, usize)>,
    w: Seq<u8>,
    threshold: nat,
    k: nat,
)
    ensures
        hit_regions(data, offsets, w, threshold, k) <= k,
        hit_regions(data, offsets, w, threshold, k) > 0 <==> exists|r: int|
            0 <= r < k && #[trigger] frequent_in(data, offsets, w, threshold, r),
        hit_regions(data, offsets, w, threshold, k) > 1 <==> exists|r: int, s: int|
            #![trigger frequent_in(data, offsets, w, threshold, r), frequent_in(data, offsets, w, threshold, s)]
            0 <= r < s < k && frequent_in(data, offsets, w, threshold, r) && frequent_in(
                data,
                offsets,
                w,
                threshold,
                s,
            ),
    decreases k,
{
    if k > 0 {
        let b = (k - 1) as nat;
        lemma_hit_region(data, offsets, w, threshold, b);
        let now = frequent_in(data, offsets, w, threshold, k - 1);
        assert(now == (hits(region(data, offsets, k - 1), w, threshold) > 0));
        if hit_regions(data, offsets, w, threshold, b) > 0 {
            let r = choose|r: int|
                0 <= r < b && #[trigger] frequent_in(data, offsets, w, threshold, r);
            assert(frequent_in(data, offsets, w, threshold, r));
            if now {
                assert(0 <= r < k - 1 < k && frequent_in(data, offsets, w, threshold, r)
                    && frequent_in(data, offsets, w, threshold, k - 1));
            }
        }
        if hit_regions(data, offsets, w, threshold, b) > 1 {
            let (r, s) = choose|r: int, s: int|
                #![trigger frequent_in(data, offsets, w, threshold, r), frequent_in(data, offsets, w, threshold, s)]
                0 <= r < s < b && frequent_in(data, offsets, w, threshold, r) && frequent_in(
                    data,
                    offsets,
                    w,
                    threshold,
                    s,
                );
            assert(frequent_in(data, offsets, w, threshold, r) && frequent_in(
                data,
                offsets,
                w,
                threshold,
                s,
            ));
        }
    }
}

/// Among two or more regions a string is promoted exactly where it is frequent in two different ones,
/// if its length is asked for once; where it is asked for more often, one is enough.
pub proof fn lemma_promotion(
    data: Seq<u8>,
    offsets: Seq<(usize, usize)>,
    sizes: Seq<usize>,
    size: usize,
    threshold: nat,
    w: Seq<u8>,
)
    requires
        offsets.len() >= 2,
        multiplicity(sizes, size, sizes.len()) >= 1,
    ensures
        multiplicity(sizes, size, sizes.len()) == 1 ==> (is_promoted(
            data,
            offsets,
            query_for(sizes, size, threshold, offsets.len()),
            w,
        ) <==> exists|r: int, s: int|
            #![trigger frequent_in(data, offsets, w, threshold, r), frequent_in(data, offsets, w, threshold, s)]
            0 <= r < s < offsets.len() && frequent_in(data, offsets, w, threshold, r)
                && frequent_in(data, offsets, w, threshold, s)),
        multiplicity(sizes, size, sizes.len()) > 1 ==> (is_promoted(
            data,
            offsets,
            query_for(sizes, size, threshold, offsets.len()),
            w,
        ) <==> exists|r: int|
            0 <= r < offsets.len() && #[trigger] frequent_in(data, offsets, w, threshold, r)),
{
    lemma_hit_region(data, offsets, w, threshold, offsets.len());
    let times = multiplicity(sizes, size, sizes.len());
    let h = hit_regions(data, offsets, w, threshold, offsets.len());
    assert(times == 1 ==> times * h == h) by (nonlinear_arith);
    assert(times > 1 ==> (times * h >= 2 <==> h > 0)) by (nonlinear_arith)
        requires
            times >= 0,
            h >= 0,
    ;
}

proof fn lemma_promoted_in_has(
    data: Seq<u8>,
    offsets: Seq<(usize, usize)>,
    size: nat,
    q: Query,
    r: int,
    k: nat,
    j: int,
)
    requires
        0 <= j < k <= frequent_windows(region(data, offsets, r), size, q.threshold).len(),
        ({
            let w = frequent_windows(region(data, offsets, r), size, q.threshold)[j].chunk;
            hit_regions(data, offsets, w, q.threshold, r as nat) == 0 && is_promoted(
                data,
                offsets,
                q,
                w,
            )
        }),
    ensures
        exists|i: int|
            0 <= i < promoted_in(data, offsets, size, q, r, k).len() && (#[trigger] promoted_in(
                data,
                offsets,
                size,
                q,
                r,
                k,
            )[i]).chunk == frequent_windows(region(data, offsets, r), size, q.threshold)[j].chunk,
    decreases k,
{
    let w = frequent_windows(region(data, offsets, r), size, q.threshold)[j].chunk;
    let before = promoted_in(data, offsets, size, q, r, (k - 1) as nat);
    let all = promoted_in(data, offsets, size, q, r, k);
    if j == k - 1 {
        assert(all[before.len() as int].chunk == w);
    } else {
        lemma_promoted_in_has(data, offsets, size, q, r, (k - 1) as nat, j);
        let i = choose|i: int| 0 <= i < before.len() && (#[trigger] before[i]).chunk == w;
        assert(all[i].chunk == w);
    }
}

proof fn lemma_first_hit(
    data: Seq<u8>,
    offsets: Seq<(usize, usize)>,
    w: Seq<u8>,
    threshold: nat,
    k: nat,
) -> (r: int)
    requires
        hit_regions(data, offsets, w, threshold, k) > 0,
    ensures
        0 <= r < k,
        frequent_in(data, offsets, w, threshold, r),
        hit_regions(data, offsets, w, threshold, r as nat) == 0,
    decreases k,
{
    if hit_regions(data, offsets, w, threshold, (k - 1) as nat) > 0 {
        lemma_first_hit(data, offsets, w, threshold, (k - 1) as nat)
    } else {
        k - 1
    }
}

/// No string that is promoted is left out.
pub proof fn lemma_promoted_complete(
    data: Seq<u8>,
    offsets: Seq<(usize, usize)>,
    q: Query,
    k: nat,
    w: Seq<u8>,
)
    requires
        k <= offsets.len(),
        is_promoted(data, offsets, q, w),
        hit_regions(data, offsets, w, q.threshold, k) > 0,
    ensures
        exists|i: int|
            0 <= i < promoted(data, offsets, w.len(), q, k).len() && (#[trigger] promoted(
                data,
                offsets,
                w.len(),
                q,
                k,
            )[i]).chunk == w,
    decreases k,
{
    let b = (k - 1) as nat;
    let r = lemma_first_hit(data, offsets, w, q.threshold, k);
    let before = promoted(data, offsets, w.len(), q, b);
    let all = promoted(data, offsets, w.len(), q, k);
    if r < k - 1 {
        lemma_hit_region(data, offsets, w, q.threshold, b);
        assert(frequent_in(data, offsets, w, q.threshold, r));
        lemma_promoted_complete(data, offsets, q, b, w);
        let i = choose|i: int| 0 <= i < before.len() && (#[trigger] before[i]).chunk == w;
        assert(all[i].chunk == w);
    } else {
        let part = region(data, offsets, r);
        let list = frequent_windows(part, w.len(), q.threshold);
        lemma_frequent_complete(part, w.len(), q.threshold);
        let j = choose|j: int| 0 <= j < list.len() && (#[trigger] list[j]).chunk == w;
        lemma_promoted_in_has(data, offsets, w.len(), q, r, list.len(), j);
        let new = promoted_in(data, offsets, w.len(), q, r, list.len());
        let i = choose|i: int| 0 <= i < new.len() && (#[trigger] new[i]).chunk == w;
        assert(all[before.len() + i].chunk == w);
    }
}

/// The hits of a string are its occurrences in the regions where it is frequent, added up: over two
/// spans of regions they add up, and over one region they are its occurrences there or nothing.
pub proof fn lemma_hits_add_up(
    data: Seq<u8>,
    offsets: Seq<(usize, usize)>,
    w: Seq<u8>,
    threshold: nat,
    k: nat,
)
    ensures
        total_hits(data, offsets, w, threshold, 0) == 0,
        frequent_in(data, offsets, w, threshold, k as int) ==> total_hits(
            data,
            offsets,
            w,
            threshold,
            k + 1,
        ) - total_hits(data, offsets, w, threshold, k) == occurrences(
            region(data, offsets, k as int),
            w,
        ),
        !frequent_in(data, offsets, w, threshold, k as int) ==> total_hits(
            data,
            offsets,
            w,
            threshold,
            k + 1,
        ) == total_hits(data, offsets, w, threshold, k),
{
}

/// Where the sample is no smaller than the data, the count stands as it is.
pub proof fn lemma_estimate_of_all(total: nat, sample: nat, len: nat)
    requires
        sample >= len,
        total <= usize::MAX,
    ensures
        estimate(total, sample, len) == total,
{
}

} // verus!
