//! Which parts of the data are looked at, and which lengths of strings look promising in them.

use vstd::prelude::*;

use crate::bytes::{byte_counts, copy_of, count_of, lemma_count_of_bound};
use crate::sort::{key_leq, lemma_order_desc, order_desc, sort_desc};
use crate::windows::{
    counted_views, frequent, frequent_windows, lemma_frequent_windows, list_frequent_windows,
    window_total, Counted,
};

verus! {

pub const MIN_CHUNK_SIZE: usize = 3;
pub const MAX_CHUNK_SIZE: usize = 128;
/// The size of a block that is scored for repetition.
pub const HOTSPOT_BLOCK_SIZE: usize = 65536;
/// The number of regions that a spread sample is taken from.
pub const SPREAD_REGIONS: usize = 16;

/// Longer data is not analysed: its scores could not be held.
pub const MAX_DATA_LEN: u64 = 0x10_0000_0000_0000;

/// From how many occurrences on a string counts as frequent in data of this length.
pub open spec fn occurrence_threshold(len: nat) -> nat {
    if len / 50000 < 2 {
        2
    } else {
        len / 50000
    }
}

/// From how many occurrences on a string counts as frequent in data of this length.
pub fn occurrence_threshold_by_data_length(data_length: usize) -> (t: usize)
    ensures
        t as nat == occurrence_threshold(data_length as nat),
{
    let t = data_length / 50000;
    if t < 2 {
        2
    } else {
        t
    }
}

/// The start and end of evenly spaced regions; all of the data where it is not longer than the
/// regions together.
pub open spec fn sample_offsets(len: nat, regions: nat, size: nat) -> Seq<(usize, usize)> {
    if len <= size * regions {
        seq![(0usize, len as usize)]
    } else {
        let step = len / regions;
        Seq::new(regions, |i: int| ((i * step) as usize, (i * step + size) as usize))
    }
}

pub proof fn lemma_region_fits(len: nat, regions: nat, size: nat, i: nat)
    requires
        regions > 0,
        i < regions,
        len > size * regions,
    ensures
        size <= len / regions,
        i * (len / regions) + size <= len,
{
    let step = len / regions;
    vstd::arithmetic::div_mod::lemma_fundamental_div_mod(len as int, regions as int);
    assert(size <= step) by (nonlinear_arith)
        requires
            len > size * regions,
            len == regions * step + len % regions,
            0 <= len % regions < regions,
    ;
    assert(i * step + step <= regions * step) by (nonlinear_arith)
        requires
            i + 1 <= regions,
    ;
}

/// The start and end of evenly spaced regions across the data.
pub fn compute_sample_offsets(data_len: usize, num_regions: usize, region_size: usize) -> (r: Vec<
    (usize, usize),
>)
    requires
        region_size * num_regions <= usize::MAX,
        num_regions > 0 || data_len == 0,
    ensures
        r@ == sample_offsets(data_len as nat, num_regions as nat, region_size as nat),
        forall|i: int| 0 <= i < r@.len() ==> (#[trigger] r@[i]).0 <= r@[i].1 <= data_len,
{
    let mut r: Vec<(usize, usize)> = Vec::new();
    if data_len <= region_size * num_regions {
        r.push((0, data_len));
        assert(r@ =~= sample_offsets(data_len as nat, num_regions as nat, region_size as nat));
        return r;
    }
    let step = data_len / num_regions;
    let mut start: usize = 0;
    let mut i: usize = 0;
    let ghost all = sample_offsets(data_len as nat, num_regions as nat, region_size as nat);
    while i < num_regions
        invariant
            i <= num_regions,
            num_regions > 0,
            data_len > region_size * num_regions,
            step as nat == data_len as nat / num_regions as nat,
            i < num_regions ==> start == i * step,
            all == sample_offsets(data_len as nat, num_regions as nat, region_size as nat),
            all.len() == num_regions,
            r@ =~= all.take(i as int),
            forall|k: int| 0 <= k < r@.len() ==> (#[trigger] r@[k]).0 <= r@[k].1 <= data_len,
        decreases num_regions - i,
    {
        proof {
            lemma_region_fits(
                data_len as nat,
                num_regions as nat,
                region_size as nat,
                i as nat,
            );
        }
        r.push((start, start + region_size));
        i += 1;
        if i < num_regions {
            proof {
                lemma_region_fits(
                    data_len as nat,
                    num_regions as nat,
                    region_size as nat,
                    i as nat,
                );
                assert((i - 1) * step + step == i * step) by (nonlinear_arith);
            }
            start = start + step;
        }
    }
    assert(r@ =~= all);
    r
}

/// The bytes of the first `k` regions, one behind the other.
pub open spec fn regions_of(data: Seq<u8>, offsets: Seq<(usize, usize)>, k: nat) -> Seq<u8>
    decreases k,
{
    if k == 0 {
        seq![]
    } else {
        regions_of(data, offsets, (k - 1) as nat) + data.subrange(
            offsets[k - 1].0 as int,
            offsets[k - 1].1 as int,
        )
    }
}

/// A sample of about `target` bytes from evenly spaced regions; all of the data if it is not
/// longer.
pub open spec fn spread_sample(data: Seq<u8>, target: nat, regions: nat) -> Seq<u8> {
    if data.len() <= target {
        data
    } else {
        let offsets = sample_offsets(data.len(), regions, target / regions);
        regions_of(data, offsets, offsets.len())
    }
}

/// A sample of about `target` bytes from evenly spaced regions; all of the data if it is not
/// longer.
pub fn sample_spread_parallel(data: &[u8], target: usize, num_regions: usize) -> (out: Vec<u8>)
    requires
        num_regions > 0,
    ensures
        out@ == spread_sample(data@, target as nat, num_regions as nat),
{
    if data.len() <= target {
        return copy_of(data);
    }
    let region_size = target / num_regions;
    assert(region_size * num_regions <= target) by (nonlinear_arith)
        requires
            region_size == target / num_regions,
            num_regions > 0,
    ;
    let offsets = compute_sample_offsets(data.len(), num_regions, region_size);
    let mut out: Vec<u8> = Vec::new();
    let mut i: usize = 0;
    while i < offsets.len()
        invariant
            i <= offsets@.len(),
            forall|k: int|
                0 <= k < offsets@.len() ==> (#[trigger] offsets@[k]).0 <= offsets@[k].1
                    <= data.len(),
            out@ == regions_of(data@, offsets@, i as nat),
        decreases offsets@.len() - i,
    {
        let (start, end) = offsets[i];
        assert(offsets@[i as int] == (start, end));
        out.extend_from_slice(&data[start..end]);
        i += 1;
    }
    out
}

/// The squares of the counts of the byte values below `n`, added up.
pub open spec fn square_sum(block: Seq<u8>, n: nat) -> nat
    decreases n,
{
    if n == 0 {
        0
    } else {
        let c = count_of(block, (n - 1) as u8);
        square_sum(block, (n - 1) as nat) + c * c
    }
}

/// How repetitive each of the first `n` blocks is.
pub open spec fn block_scores(data: Seq<u8>, size: nat, n: nat) -> Seq<u128> {
    Seq::new(
        n,
        |i: int| square_sum(data.subrange(i * size, i * size + size), 256) as u128,
    )
}

/// The first `k` blocks of an order, one behind the other.
pub open spec fn blocks_of(data: Seq<u8>, size: nat, order: Seq<usize>, k: nat) -> Seq<u8>
    decreases k,
{
    if k == 0 {
        seq![]
    } else {
        blocks_of(data, size, order, (k - 1) as nat) + data.subrange(
            order[k - 1] * size,
            order[k - 1] * size + size,
        )
    }
}

/// How many blocks a sample of `target` bytes has, one at least.
pub open spec fn blocks_wanted(target: nat, size: nat) -> nat {
    if target / size < 1 {
        1
    } else {
        target / size
    }
}

/// A sample of about `target` bytes from the most repetitive blocks; all of the data if it is not
/// longer.
pub open spec fn hotspot_sample(data: Seq<u8>, target: nat, size: nat) -> Seq<u8> {
    let blocks = data.len() / size;
    if data.len() <= target {
        data
    } else if blocks == 0 {
        data.take(target as int)
    } else {
        blocks_of(
            data,
            size,
            order_desc(block_scores(data, size, blocks)),
            blocks_wanted(target, size),
        )
    }
}

proof fn lemma_counts_add_up(block: Seq<u8>, n: nat)
    requires
        n <= 256,
    ensures
        count_sum(block, n) <= block.len(),
        square_sum(block, n) <= count_sum(block, n) * block.len(),
    decreases n,
{
    if n > 0 {
        lemma_counts_add_up(block, (n - 1) as nat);
        let c = count_of(block, (n - 1) as u8);
        lemma_count_of_bound(block, (n - 1) as u8);
        lemma_count_sum_bound(block, n);
        let l = block.len();
        let s = count_sum(block, (n - 1) as nat);
        assert(c * c <= c * l) by (nonlinear_arith)
            requires
                c <= l,
        ;
        assert(s * l + c * l == (s + c) * l) by (nonlinear_arith);
    }
}

/// The counts of the byte values below `n`, added up.
spec fn count_sum(block: Seq<u8>, n: nat) -> nat
    decreases n,
{
    if n == 0 {
        0
    } else {
        count_sum(block, (n - 1) as nat) + count_of(block, (n - 1) as u8)
    }
}

proof fn lemma_count_sum_push(block: Seq<u8>, n: nat)
    requires
        block.len() > 0,
        n <= 256,
    ensures
        count_sum(block, n) == count_sum(block.drop_last(), n) + if block.last() < n {
            1nat
        } else {
            0
        },
    decreases n,
{
    if n > 0 {
        lemma_count_sum_push(block, (n - 1) as nat);
    }
}

proof fn lemma_count_sum_bound(block: Seq<u8>, n: nat)
    requires
        n <= 256,
    ensures
        count_sum(block, n) <= block.len(),
    decreases block.len(),
{
    if block.len() == 0 {
        lemma_count_sum_empty(block, n);
    } else {
        lemma_count_sum_push(block, n);
        lemma_count_sum_bound(block.drop_last(), n);
    }
}

proof fn lemma_count_sum_empty(block: Seq<u8>, n: nat)
    requires
        block.len() == 0,
    ensures
        count_sum(block, n) == 0,
    decreases n,
{
    if n > 0 {
        lemma_count_sum_empty(block, (n - 1) as nat);
    }
}

/// How repetitive a block is: the squares of its byte counts, added up.
pub fn block_score(block: &[u8]) -> (score: u128)
    ensures
        score as nat == square_sum(block@, 256),
{
    let counts = byte_counts(block);
    let mut score: u128 = 0;
    let mut b: usize = 0;
    let len = block.len();
    while b < 256
        invariant
            b <= 256,
            len == block@.len(),
            forall|c: u8| (#[trigger] counts@[c as int]) as nat == count_of(block@, c),
            score as nat == square_sum(block@, b as nat),
        decreases 256 - b,
    {
        proof {
            let c = count_of(block@, b as u8);
            assert(counts@[(b as u8) as int] as nat == c);
            lemma_counts_add_up(block@, (b + 1) as nat);
            let s = count_sum(block@, (b + 1) as nat);
            let l = block@.len();
            assert(s * l <= l * l) by (nonlinear_arith)
                requires
                    s <= l,
            ;
            assert(l * l <= 0xffff_ffff_ffff_ffff * 0xffff_ffff_ffff_ffff) by (nonlinear_arith)
                requires
                    l <= 0xffff_ffff_ffff_ffff,
            ;
            assert(0 <= c * c);
        }
        let c = counts[b] as u128;
        score = score + c * c;
        b += 1;
    }
    score
}

/// A sample of about `target` bytes from the most repetitive blocks of `block_size` bytes; all of
/// the data if it is not longer.
pub fn sample_hotspots(data: &[u8], target: usize, block_size: usize) -> (out: Vec<u8>)
    requires
        block_size > 0,
    ensures
        out@ == hotspot_sample(data@, target as nat, block_size as nat),
{
    let len = data.len();
    if len <= target {
        return copy_of(data);
    }
    let blocks = len / block_size;
    if blocks == 0 {
        let front = &data[0..target];
        assert(front@ =~= data@.take(target as int));
        return copy_of(front);
    }
    let ghost size = block_size as nat;
    let mut keys: Vec<u128> = Vec::with_capacity(blocks);
    let mut i: usize = 0;
    let ghost scores = block_scores(data@, size, blocks as nat);
    while i < blocks
        invariant
            i <= blocks,
            len == data@.len(),
            size == block_size,
            block_size > 0,
            blocks == len / block_size,
            scores == block_scores(data@, size, blocks as nat),
            keys@ =~= scores.take(i as int),
        decreases blocks - i,
    {
        proof {
            lemma_block_fits(len as nat, size, i as nat);
        }
        let start = i * block_size;
        let score = block_score(&data[start..start + block_size]);
        keys.push(score);
        i += 1;
    }
    assert(keys@ =~= scores);
    let order = sort_desc(&keys);
    proof {
        lemma_order_desc(keys@);
        assert(target / block_size <= blocks) by (nonlinear_arith)
            requires
                target <= len,
                blocks == len / block_size,
                block_size > 0,
        ;
    }
    let wanted: usize = if target / block_size < 1 {
        1
    } else {
        target / block_size
    };
    let mut out: Vec<u8> = Vec::new();
    let mut k: usize = 0;
    while k < wanted
        invariant
            k <= wanted <= blocks,
            len == data@.len(),
            size == block_size,
            block_size > 0,
            blocks == len / block_size,
            order@.len() == blocks,
            forall|m: int| 0 <= m < blocks ==> (#[trigger] order@[m]) < blocks,
            out@ == blocks_of(data@, size, order@, k as nat),
        decreases wanted - k,
    {
        let at = order[k];
        proof {
            lemma_block_fits(len as nat, size, at as nat);
        }
        let start = at * block_size;
        out.extend_from_slice(&data[start..start + block_size]);
        k += 1;
    }
    out
}

proof fn lemma_block_fits(len: nat, size: nat, i: nat)
    requires
        size > 0,
        i < len / size,
    ensures
        i * size + size <= len,
{
    vstd::arithmetic::div_mod::lemma_fundamental_div_mod(len as int, size as int);
    assert(i * size + size <= size * (len / size)) by (nonlinear_arith)
        requires
            i + 1 <= len / size,
    ;
}

/// A spread sample and a sample of repetitive blocks, each of about `target` bytes.
pub open spec fn analysis_corpus(data: Seq<u8>, target: nat) -> Seq<u8> {
    spread_sample(data, target, SPREAD_REGIONS as nat) + hotspot_sample(
        data,
        target,
        HOTSPOT_BLOCK_SIZE as nat,
    )
}

/// A spread sample and a sample of repetitive blocks, each of about `target_per_strategy` bytes.
pub fn build_analysis_corpus(data: &[u8], target_per_strategy: usize) -> (out: Vec<u8>)
    ensures
        out@ == analysis_corpus(data@, target_per_strategy as nat),
{
    let mut out = sample_spread_parallel(data, target_per_strategy, SPREAD_REGIONS);
    let hotspots = sample_hotspots(data, target_per_strategy, HOTSPOT_BLOCK_SIZE);
    out.extend_from_slice(&hotspots);
    out
}

/// What replacing all occurrences of a string would save, less its dictionary entry; zero where
/// it would not save anything.
pub open spec fn string_gain(size: nat, count: nat) -> nat {
    if (size - 2) * count > size + 3 {
        ((size - 2) * count - (size + 3)) as nat
    } else {
        0
    }
}

/// The gains of the first `k` windows of a list, added up.
pub open spec fn gain_sum(list: Seq<Counted>, size: nat, k: nat) -> nat
    decreases k,
{
    if k == 0 {
        0
    } else {
        gain_sum(list, size, (k - 1) as nat) + string_gain(size, list[k - 1].count)
    }
}

/// How promising strings of `size` bytes are in `data`.
pub open spec fn probe_score(data: Seq<u8>, size: nat) -> nat {
    let list = frequent_windows(data, size, occurrence_threshold(data.len()));
    gain_sum(list, size, list.len())
}

/// Lengths of strings, the most promising first, and their scores.
#[derive(Debug)]
pub struct ProbeResult {
    pub sizes: Vec<usize>,
    pub scores: Vec<u128>,
}

/// The scores of the lengths from the least to the largest.
pub open spec fn all_scores(data: Seq<u8>) -> Seq<u128> {
    Seq::new(126, |i: int| probe_score(data, (i + 3) as nat) as u128)
}

/// The lengths, the most promising first.
pub open spec fn probe_sizes(data: Seq<u8>) -> Seq<usize> {
    let order = order_desc(all_scores(data));
    Seq::new(126, |i: int| (order[i] + 3) as usize)
}

/// Their scores.
pub open spec fn probe_scores(data: Seq<u8>) -> Seq<u128> {
    let order = order_desc(all_scores(data));
    Seq::new(126, |i: int| all_scores(data)[order[i] as int])
}

fn score_size(data: &[u8], size: usize) -> (score: u128)
    requires
        MIN_CHUNK_SIZE <= size <= MAX_CHUNK_SIZE,
        data@.len() <= MAX_DATA_LEN,
    ensures
        score as nat == probe_score(data@, size as nat),
{
    let threshold = occurrence_threshold_by_data_length(data.len());
    let list = list_frequent_windows(data, size, threshold);
    let ghost all = frequent_windows(data@, size as nat, threshold as nat);
    let len = data.len();
    proof {
        lemma_frequent_windows(data@, size as nat, threshold as nat);
        lemma_window_list_len(data@, size as nat, threshold as nat, window_total(data@, size as nat));
        assert(counted_views(list@).len() == list@.len());
    }
    let mut score: u128 = 0;
    let mut i: usize = 0;
    while i < list.len()
        invariant
            i <= list@.len(),
            MIN_CHUNK_SIZE <= size <= MAX_CHUNK_SIZE,
            len == data@.len(),
            len <= MAX_DATA_LEN,
            list@.len() <= len,
            counted_views(list@) == all,
            all.len() == list@.len(),
            forall|k: int| 0 <= k < all.len() ==> 0 < (#[trigger] all[k]).count <= len + 1,
            score as nat == gain_sum(all, size as nat, i as nat),
            score <= i * (126 * (len + 1)),
        decreases list@.len() - i,
    {
        assert(all[i as int] == list@[i as int]@);
        let c = list[i].count as u128;
        let s = size as u128;
        proof {
            assert((s - 2) * c <= 126 * (len + 1)) by (nonlinear_arith)
                requires
                    s <= 128,
                    s >= 2,
                    c <= len + 1,
            ;
            let m = 126 * (len + 1);
            assert(i * m + m == (i + 1) * m) by (nonlinear_arith);
            assert((i + 1) * m <= 0x20_0000_0000_0000 * (126 * 0x20_0000_0000_0000))
                by (nonlinear_arith)
                requires
                    i + 1 <= 0x20_0000_0000_0000,
                    m <= 126 * 0x20_0000_0000_0000,
                    m >= 0,
            ;
        }
        let saved: u128 = (s - 2) * c;
        if saved > s + 3 {
            score = score + (saved - (s + 3));
        }
        i += 1;
    }
    score
}

proof fn lemma_window_list_len(data: Seq<u8>, size: nat, threshold: nat, n: nat)
    ensures
        frequent(data, size, threshold, n).len() <= n,
    decreases n,
{
    if n > 0 {
        lemma_window_list_len(data, size, threshold, (n - 1) as nat);
    }
}

/// Scores all lengths of strings on a sample.
pub fn probe_chunk_sizes(data: &[u8]) -> (r: ProbeResult)
    requires
        data@.len() <= MAX_DATA_LEN,
    ensures
        r.sizes@ == probe_sizes(data@),
        r.scores@ == probe_scores(data@),
        forall|i: int| 0 <= i < r.sizes@.len() ==> MIN_CHUNK_SIZE <= (#[trigger] r.sizes@[i])
                <= MAX_CHUNK_SIZE,
{
    let mut keys: Vec<u128> = Vec::with_capacity(126);
    let ghost scores = all_scores(data@);
    let mut i: usize = 0;
    while i < 126
        invariant
            i <= 126,
            data@.len() <= MAX_DATA_LEN,
            scores == all_scores(data@),
            keys@ =~= scores.take(i as int),
        decreases 126 - i,
    {
        let score = score_size(data, i + MIN_CHUNK_SIZE);
        keys.push(score);
        i += 1;
    }
    assert(keys@ =~= scores);
    let order = sort_desc(&keys);
    proof {
        lemma_order_desc(keys@);
    }
    let mut sizes: Vec<usize> = Vec::with_capacity(126);
    let mut values: Vec<u128> = Vec::with_capacity(126);
    let mut k: usize = 0;
    while k < 126
        invariant
            k <= 126,
            keys@ == scores,
            scores == all_scores(data@),
            order@ == order_desc(scores),
            order@.len() == 126,
            keys@.len() == 126,
            forall|m: int| 0 <= m < 126 ==> (#[trigger] order@[m]) < 126,
            sizes@ =~= probe_sizes(data@).take(k as int),
            values@ =~= probe_scores(data@).take(k as int),
        decreases 126 - k,
    {
        let at = order[k];
        sizes.push(at + MIN_CHUNK_SIZE);
        values.push(keys[at]);
        k += 1;
    }
    assert(sizes@ =~= probe_sizes(data@));
    assert(values@ =~= probe_scores(data@));
    ProbeResult { sizes, scores: values }
}

/// The positions among the first `n` whose score is positive.
pub open spec fn positive(scores: Seq<u128>, n: nat) -> Seq<usize>
    decreases n,
{
    if n == 0 {
        seq![]
    } else {
        let before = positive(scores, (n - 1) as nat);
        if scores[n - 1] > 0 {
            before.push((n - 1) as usize)
        } else {
            before
        }
    }
}

/// Whether the scores are nearly flat: the fourth positive score is at least `percent` percent of
/// the first.
pub open spec fn uniform(scores: Seq<u128>, percent: nat) -> bool {
    let p = positive(scores, scores.len());
    p.len() >= 4 && 100 * scores[p[3] as int] >= percent * scores[p[0] as int]
}

fn list_positive(scores: &[u128]) -> (p: Vec<usize>)
    ensures
        p@ == positive(scores@, scores@.len()),
        forall|i: int| 0 <= i < p@.len() ==> (#[trigger] p@[i]) < scores@.len(),
{
    let mut p: Vec<usize> = Vec::new();
    let mut i: usize = 0;
    while i < scores.len()
        invariant
            i <= scores@.len(),
            p@ == positive(scores@, i as nat),
            forall|k: int| 0 <= k < p@.len() ==> (#[trigger] p@[k]) < i,
        decreases scores@.len() - i,
    {
        if scores[i] > 0 {
            p.push(i);
        }
        i += 1;
    }
    p
}

/// Whether `100 * a >= percent * b`.
fn reaches(a: u128, b: u128, percent: u8) -> (r: bool)
    requires
        percent <= 100,
    ensures
        r == (100 * a >= percent * b),
{
    // With b = 100 q + r, percent * b is 100 * (percent * q) + percent * r.
    let q = b / 100;
    let rest = b % 100;
    let p = percent as u128;
    proof {
        assert(p * q <= 100 * q) by (nonlinear_arith)
            requires
                p <= 100,
        ;
        assert(p * rest <= 100 * 99) by (nonlinear_arith)
            requires
                p <= 100,
                rest <= 99,
        ;
        assert(p * b == 100 * (p * q) + p * rest) by (nonlinear_arith)
            requires
                b == 100 * q + rest,
        ;
    }
    let whole = p * q;
    let part = p * rest;
    a >= whole && a - whole >= (part + 99) / 100
}

/// Whether the probe's scores are nearly flat: the fourth positive score is at least `percent`
/// percent of the first.
pub fn probe_is_uniform(probe: &ProbeResult, percent: u8) -> (r: bool)
    requires
        percent <= 100,
    ensures
        r == uniform(probe.scores@, percent as nat),
{
    let p = list_positive(&probe.scores);
    if p.len() < 4 {
        return false;
    }
    reaches(probe.scores[p[3]], probe.scores[p[0]], percent)
}

/// The sizes at the first `n` of the given positions.
pub open spec fn sizes_at(sizes: Seq<usize>, positions: Seq<usize>, n: nat) -> Seq<usize> {
    Seq::new(n, |i: int| sizes[positions[i] as int])
}

/// Those of the first `n` positions whose score is at least a fifth of the first.
pub open spec fn strong(scores: Seq<u128>, p: Seq<usize>, n: nat) -> Seq<usize>
    decreases n,
{
    if n == 0 {
        seq![]
    } else {
        let before = strong(scores, p, (n - 1) as nat);
        if 5 * scores[p[n - 1] as int] >= scores[p[0] as int] {
            before.push(p[n - 1])
        } else {
            before
        }
    }
}

/// The lengths for the full analysis: the first three positive ones of a flat probe, else up to
/// eight that score at least a fifth of the best.
pub open spec fn analysis_sizes(sizes: Seq<usize>, scores: Seq<u128>) -> Seq<usize> {
    let p = positive(scores, scores.len());
    if uniform(scores, 90) {
        sizes_at(sizes, p, 3)
    } else {
        let good = strong(scores, p, p.len());
        sizes_at(
            sizes,
            good,
            if good.len() < 8 {
                good.len()
            } else {
                8
            },
        )
    }
}

/// The lengths for the full analysis.
pub fn select_analysis_sizes(probe: &ProbeResult) -> (out: Vec<usize>)
    requires
        probe.sizes@.len() == probe.scores@.len(),
    ensures
        out@ == analysis_sizes(probe.sizes@, probe.scores@),
        forall|i: int| 0 <= i < out@.len() ==> probe.sizes@.contains(#[trigger] out@[i]),
{
    let p = list_positive(&probe.scores);
    let flat = probe_is_uniform(probe, 90);
    let mut good: Vec<usize> = Vec::new();
    let limit: usize;
    if flat {
        good = p;
        limit = 3;
    } else {
        let mut i: usize = 0;
        while i < p.len()
            invariant
                i <= p@.len(),
                p@ == positive(probe.scores@, probe.scores@.len()),
                forall|k: int| 0 <= k < p@.len() ==> (#[trigger] p@[k]) < probe.scores@.len(),
                forall|k: int| 0 <= k < good@.len() ==> (#[trigger] good@[k]) < probe.scores@.len(),
                good@ == strong(probe.scores@, p@, i as nat),
            decreases p@.len() - i,
        {
            let s = probe.scores[p[i]];
            let top = probe.scores[p[0]];
            if s >= top / 5 + if top % 5 == 0 {
                0
            } else {
                1
            } {
                good.push(p[i]);
            }
            i += 1;
        }
        limit = 8;
    }
    let n = if good.len() < limit {
        good.len()
    } else {
        limit
    };
    let mut out: Vec<usize> = Vec::with_capacity(n);
    let mut i: usize = 0;
    while i < n
        invariant
            i <= n <= good@.len(),
            probe.sizes@.len() == probe.scores@.len(),
            forall|k: int| 0 <= k < good@.len() ==> (#[trigger] good@[k]) < probe.scores@.len(),
            out@ =~= sizes_at(probe.sizes@, good@, i as nat),
            forall|k: int| 0 <= k < out@.len() ==> probe.sizes@.contains(#[trigger] out@[k]),
        decreases n - i,
    {
        let size = probe.sizes[good[i]];
        assert(probe.sizes@[good@[i as int] as int] == size);
        out.push(size);
        i += 1;
    }
    out
}

/// A string has to occur once in every 50000 bytes, and twice in any case.
pub proof fn lemma_threshold(len: nat)
    ensures
        occurrence_threshold(len) >= 2,
        occurrence_threshold(len) > 2 ==> 50000 * occurrence_threshold(len) <= len,
        len < 50000 * (occurrence_threshold(len) + 1),
{
}

/// What replacing the occurrences of a string saves: its bytes, less two for each code and less its
/// entry, which has three bytes more than the string.
pub proof fn lemma_gain(size: nat, count: nat)
    requires
        size >= 2,
    ensures
        size * count > 2 * count + size + 3 ==> string_gain(size, count) + 2 * count + size + 3
            == size * count,
        size * count <= 2 * count + size + 3 ==> string_gain(size, count) == 0,
{
    assert((size - 2) * count == size * count - 2 * count) by (nonlinear_arith);
}

/// The score of a length is the sum of what its strings save: each string counts, and counts once.
pub proof fn lemma_gains_add_up(a: Seq<Counted>, b: Seq<Counted>, size: nat)
    ensures
        gain_sum(a + b, size, (a + b).len()) == gain_sum(a, size, a.len()) + gain_sum(
            b,
            size,
            b.len(),
        ),
        a.len() == 1 ==> gain_sum(a, size, 1) == string_gain(size, a[0].count),
{
    lemma_gain_sum_behind(a, b, size, b.len());
    reveal_with_fuel(gain_sum, 2);
}

proof fn lemma_gain_sum_front(a: Seq<Counted>, b: Seq<Counted>, size: nat, k: nat)
    requires
        k <= a.len(),
    ensures
        gain_sum(a + b, size, k) == gain_sum(a, size, k),
    decreases k,
{
    if k > 0 {
        lemma_gain_sum_front(a, b, size, (k - 1) as nat);
    }
}

proof fn lemma_gain_sum_behind(a: Seq<Counted>, b: Seq<Counted>, size: nat, k: nat)
    requires
        k <= b.len(),
    ensures
        gain_sum(a + b, size, a.len() + k) == gain_sum(a, size, a.len()) + gain_sum(b, size, k),
    decreases k,
{
    if k == 0 {
        lemma_gain_sum_front(a, b, size, a.len());
    } else {
        lemma_gain_sum_behind(a, b, size, (k - 1) as nat);
        assert((a + b)[a.len() + k - 1] == b[k - 1]);
        assert((a.len() + k - 1) as nat == a.len() + (k - 1) as nat);
    }
}

/// Regions that do not fill the data have the wanted number and size, start at the front, are the same
/// distance apart, do not overlap, and stay inside.
pub proof fn lemma_sample_offsets(len: nat, regions: nat, size: nat)
    requires
        regions > 0,
        len <= usize::MAX,
    ensures
        ({
            let s = sample_offsets(len, regions, size);
            &&& len <= size * regions ==> s.len() == 1 && s[0].0 == 0 && s[0].1 == len
            &&& len > size * regions ==> s.len() == regions && s[0].0 == 0 && forall|i: int|
                0 <= i < regions ==> (#[trigger] s[i]).1 - s[i].0 == size && s[i].1 <= len
            &&& len > size * regions ==> forall|i: int|
                0 < i < regions ==> (#[trigger] s[i]).0 - s[i - 1].0 == len / regions && s[i].0
                    >= s[i - 1].1
        }),
{
    let s = sample_offsets(len, regions, size);
    if len > size * regions {
        let step = len / regions;
        assert(0 * step == 0) by (nonlinear_arith);
        assert forall|i: int| 0 <= i < regions implies (#[trigger] s[i]).1 - s[i].0 == size
            && s[i].1 <= len && s[i].0 == i * step by {
            lemma_region_fits(len, regions, size, i as nat);
            assert(i * step >= 0) by (nonlinear_arith)
                requires
                    i >= 0,
                    step >= 0,
            ;
        }
        assert forall|i: int| 0 < i < regions implies (#[trigger] s[i]).0 - s[i - 1].0 == len
            / regions && s[i].0 >= s[i - 1].1 by {
            lemma_region_fits(len, regions, size, i as nat);
            assert(s[i - 1].0 == (i - 1) * step);
            assert(i * step == (i - 1) * step + step) by (nonlinear_arith);
        }
    }
}

proof fn lemma_regions_len(data: Seq<u8>, regions: nat, size: nat, k: nat, i: int)
    requires
        regions > 0,
        data.len() <= usize::MAX,
        data.len() > size * regions,
        k <= regions,
    ensures
        ({
            let s = regions_of(data, sample_offsets(data.len(), regions, size), k);
            &&& s.len() == k * size
            &&& 0 <= i < s.len() ==> s[i] == data[(i / size as int) * (data.len() / regions) + i
                % size as int]
        }),
    decreases k,
{
    let offsets = sample_offsets(data.len(), regions, size);
    if k == 0 {
        assert(0 * size == 0) by (nonlinear_arith);
    } else {
        let b = (k - 1) as nat;
        lemma_regions_len(data, regions, size, b, i);
        lemma_sample_offsets(data.len(), regions, size);
        lemma_region_fits(data.len(), regions, size, b);
        let step = data.len() / regions;
        let from = offsets[k - 1].0 as int;
        assert(offsets[k - 1].1 - from == size);
        assert(from == b * step) by {
            assert(b * step >= 0) by (nonlinear_arith);
        }
        let before = regions_of(data, offsets, b);
        let s = regions_of(data, offsets, k);
        assert(b * size + size == k * size) by (nonlinear_arith)
            requires
                k == b + 1,
        ;
        if before.len() <= i < s.len() {
            let r = i - b * size;
            assert(b * size == size * b) by (nonlinear_arith);
            vstd::arithmetic::div_mod::lemma_fundamental_div_mod_converse(
                i,
                size as int,
                b as int,
                r,
            );
            assert(s[i] == data.subrange(from, from + size)[r]);
        }
    }
}

/// A sample of regions is all of the data where there is no more than is wanted. Else it is made of
/// the regions one behind the other: as many bytes as the regions share out evenly, and each is the
/// byte of its region.
pub proof fn lemma_spread_sample(data: Seq<u8>, target: nat, regions: nat, i: int)
    requires
        regions > 0,
        data.len() <= usize::MAX,
    ensures
        data.len() <= target ==> spread_sample(data, target, regions) == data,
        data.len() > target ==> {
            let s = spread_sample(data, target, regions);
            let size = target / regions;
            &&& s.len() == regions * size
            &&& target - regions < s.len() <= target
            &&& 0 <= i < s.len() ==> s[i] == data[(i / size as int) * (data.len() / regions) + i
                % size as int]
        },
{
    if data.len() > target {
        let size = target / regions;
        vstd::arithmetic::div_mod::lemma_fundamental_div_mod(target as int, regions as int);
        assert(size * regions == regions * size) by (nonlinear_arith);
        lemma_regions_len(data, regions, size, regions, i);
    }
}

/// How often each of the bytes of `part` occurs in `block`, added up.
pub open spec fn pair_sum(block: Seq<u8>, part: Seq<u8>) -> nat
    decreases part.len(),
{
    if part.len() == 0 {
        0
    } else {
        pair_sum(block, part.drop_last()) + count_of(block, part.last())
    }
}

spec fn product_sum(block: Seq<u8>, part: Seq<u8>, n: nat) -> nat
    decreases n,
{
    if n == 0 {
        0
    } else {
        product_sum(block, part, (n - 1) as nat) + count_of(block, (n - 1) as u8) * count_of(
            part,
            (n - 1) as u8,
        )
    }
}

proof fn lemma_product_push(block: Seq<u8>, part: Seq<u8>, n: nat)
    requires
        part.len() > 0,
        n <= 256,
    ensures
        product_sum(block, part, n) == product_sum(block, part.drop_last(), n) + if part.last()
            < n {
            count_of(block, part.last())
        } else {
            0
        },
    decreases n,
{
    if n > 0 {
        lemma_product_push(block, part, (n - 1) as nat);
        let c = count_of(block, (n - 1) as u8);
        let p = count_of(part.drop_last(), (n - 1) as u8);
        if part.last() == (n - 1) as u8 {
            assert(c * (p + 1) == c * p + c) by (nonlinear_arith);
        }
    }
}

proof fn lemma_product_empty(block: Seq<u8>, part: Seq<u8>, n: nat)
    requires
        part.len() == 0,
    ensures
        product_sum(block, part, n) == 0,
    decreases n,
{
    if n > 0 {
        lemma_product_empty(block, part, (n - 1) as nat);
        let c = count_of(block, (n - 1) as u8);
        assert(c * 0 == 0);
    }
}

proof fn lemma_product_pairs(block: Seq<u8>, part: Seq<u8>)
    ensures
        product_sum(block, part, 256) == pair_sum(block, part),
    decreases part.len(),
{
    if part.len() == 0 {
        lemma_product_empty(block, part, 256);
    } else {
        lemma_product_push(block, part, 256);
        lemma_product_pairs(block, part.drop_last());
    }
}

proof fn lemma_product_square(block: Seq<u8>, n: nat)
    ensures
        product_sum(block, block, n) == square_sum(block, n),
    decreases n,
{
    if n > 0 {
        lemma_product_square(block, (n - 1) as nat);
    }
}

/// The score of a block is the number of pairs of equal bytes in it: how often each of its bytes
/// occurs, added up over all its places.
pub proof fn lemma_block_score_is_pairs(block: Seq<u8>)
    ensures
        square_sum(block, 256) == pair_sum(block, block),
{
    lemma_product_square(block, 256);
    lemma_product_pairs(block, block);
}

proof fn lemma_positive_front(scores: Seq<u128>, n: nat, m: nat)
    requires
        m <= scores.len() <= usize::MAX,
        n <= scores.len(),
        forall|i: int| 0 <= i < m ==> (#[trigger] scores[i]) > 0,
        forall|i: int| m <= i < scores.len() ==> (#[trigger] scores[i]) == 0,
    ensures
        positive(scores, n).len() == if n < m {
            n
        } else {
            m
        },
        forall|i: int| 0 <= i < positive(scores, n).len() ==> #[trigger] positive(scores, n)[i] == i,
    decreases n,
{
    if n > 0 {
        lemma_positive_front(scores, (n - 1) as nat, m);
        let before = positive(scores, (n - 1) as nat);
        if n - 1 < m {
            assert(scores[n - 1] > 0);
            assert(positive(scores, n) == before.push((n - 1) as usize));
        } else {
            assert(scores[n - 1] == 0);
        }
    }
}

proof fn lemma_positive_count(scores: Seq<u128>, n: nat) -> (m: nat)
    requires
        n <= scores.len(),
        forall|i: int, j: int| 0 <= i <= j < scores.len() ==> scores[i] >= scores[j],
    ensures
        m <= n,
        forall|i: int| 0 <= i < m ==> (#[trigger] scores[i]) > 0,
        forall|i: int| m <= i < n ==> (#[trigger] scores[i]) == 0,
    decreases n,
{
    if n == 0 || scores[n - 1] > 0 {
        n
    } else {
        lemma_positive_count(scores, (n - 1) as nat)
    }
}

proof fn lemma_strong_front(scores: Seq<u128>, p: Seq<usize>, n: nat)
    requires
        n <= p.len() <= scores.len(),
        forall|i: int| 0 <= i < p.len() ==> #[trigger] p[i] == i,
        forall|i: int, j: int| 0 <= i <= j < scores.len() ==> scores[i] >= scores[j],
    ensures
        ({
            let s = strong(scores, p, n);
            &&& s.len() <= n
            &&& forall|i: int| 0 <= i < s.len() ==> #[trigger] s[i] == i
            &&& forall|i: int| 0 <= i < s.len() ==> 5 * (#[trigger] scores[i]) >= scores[0]
            &&& s.len() < n ==> 5 * scores[s.len() as int] < scores[0]
        }),
    decreases n,
{
    if n > 0 {
        lemma_strong_front(scores, p, (n - 1) as nat);
        let before = strong(scores, p, (n - 1) as nat);
        assert(p[n - 1] == n - 1);
        assert(p[0] == 0);
        if before.len() < n - 1 {
            assert(scores[before.len() as int] >= scores[n - 1]);
        }
    }
}

/// The lengths for the full analysis are those with the best scores. Where at least four score, and
/// the fourth scores nine tenths of the best or more, they are the first three. Else they are those
/// that score a fifth of the best or more, up to eight; the next one scores less.
pub proof fn lemma_sizes_selected(sizes: Seq<usize>, scores: Seq<u128>)
    requires
        sizes.len() == scores.len(),
        scores.len() <= usize::MAX,
        forall|i: int, j: int| 0 <= i <= j < scores.len() ==> scores[i] >= scores[j],
    ensures
        ({
            let r = analysis_sizes(sizes, scores);
            let flat = scores.len() >= 4 && scores[3] > 0 && 10 * scores[3] >= 9 * scores[0];
            &&& flat ==> r == sizes.take(3)
            &&& !flat ==> {
                &&& r.len() <= 8
                &&& r.len() <= sizes.len()
                &&& r == sizes.take(r.len() as int)
                &&& forall|i: int|
                    0 <= i < r.len() ==> (#[trigger] scores[i]) > 0 && 5 * scores[i] >= scores[0]
                &&& r.len() < 8 && r.len() < sizes.len() ==> scores[r.len() as int] == 0 || 5
                    * scores[r.len() as int] < scores[0]
            }
        }),
{
    let m = lemma_positive_count(scores, scores.len());
    lemma_positive_front(scores, scores.len(), m);
    let p = positive(scores, scores.len());
    let r = analysis_sizes(sizes, scores);
    let flat = scores.len() >= 4 && scores[3] > 0 && 10 * scores[3] >= 9 * scores[0];
    if p.len() >= 4 {
        assert(p[3] == 3);
        assert(p[0] == 0);
        assert(scores[3] > 0);
    } else if scores.len() >= 4 {
        assert(scores[3] == 0);
    }
    assert(uniform(scores, 90) == flat);
    if flat {
        assert(p[1] == 1 && p[2] == 2);
        assert(r =~= sizes.take(3));
    } else {
        lemma_strong_front(scores, p, p.len());
        assert(r =~= sizes.take(r.len() as int));
    }
}

/// A probe scores each length from 3 to 128, each once and by what its strings save; the best score
/// comes first, and of equal scores that of the lesser length.
pub proof fn lemma_probe_ranks(data: Seq<u8>, i: int, j: int)
    requires
        0 <= i < j < 126,
    ensures
        ({
            let a = probe_sizes(data)[i];
            let b = probe_sizes(data)[j];
            &&& probe_sizes(data).len() == 126
            &&& 3 <= a <= 128
            &&& a != b
            &&& probe_scores(data)[i] == probe_score(data, a as nat) as u128
            &&& probe_scores(data)[i] >= probe_scores(data)[j]
            &&& probe_scores(data)[i] == probe_scores(data)[j] ==> a < b
        }),
{
    lemma_order_desc(all_scores(data));
    let keys = all_scores(data);
    let x = order_desc(keys)[i];
    let y = order_desc(keys)[j];
    assert(key_leq(keys, x, y));
    assert(keys[x as int] == probe_score(data, (x + 3) as nat) as u128);
}

/// The blocks of a hotspot sample are the most repetitive ones: none that was left out has more pairs
/// of equal bytes than one that was taken.
pub proof fn lemma_hotspots_are_best(data: Seq<u8>, size: nat, n: nat, taken: int, left: int)
    requires
        size > 0,
        n == data.len() / size,
        data.len() <= usize::MAX,
        0 <= taken < left < n,
    ensures
        ({
            let order = order_desc(block_scores(data, size, n));
            let a = data.subrange(order[taken] * size, order[taken] * size + size);
            let b = data.subrange(order[left] * size, order[left] * size + size);
            pair_sum(a, a) >= pair_sum(b, b)
        }),
{
    let keys = block_scores(data, size, n);
    assert(n <= data.len()) by {
        vstd::arithmetic::div_mod::lemma_div_is_ordered_by_denominator(
            data.len() as int,
            1,
            size as int,
        );
    }
    lemma_order_desc(keys);
    let order = order_desc(keys);
    let x = order[taken];
    let y = order[left];
    assert(key_leq(keys, x, y));
    lemma_block_fits(data.len(), size, x as nat);
    lemma_block_fits(data.len(), size, y as nat);
    let a = data.subrange(x * size, x * size + size);
    let b = data.subrange(y * size, y * size + size);
    lemma_score_bound(a);
    lemma_score_bound(b);
    lemma_block_score_is_pairs(a);
    lemma_block_score_is_pairs(b);
}

proof fn lemma_score_bound(block: Seq<u8>)
    requires
        block.len() <= usize::MAX,
    ensures
        square_sum(block, 256) <= u128::MAX,
{
    lemma_counts_add_up(block, 256);
    lemma_count_sum_bound(block, 256);
    let s = count_sum(block, 256);
    let l = block.len();
    assert(s * l <= 0xffff_ffff_ffff_ffff * 0xffff_ffff_ffff_ffff) by (nonlinear_arith)
        requires
            s <= l,
            l <= 0xffff_ffff_ffff_ffff,
    ;
}

proof fn lemma_blocks_len(data: Seq<u8>, size: nat, order: Seq<usize>, k: nat)
    requires
        size > 0,
        k <= order.len(),
        forall|i: int| 0 <= i < order.len() ==> (#[trigger] order[i]) < data.len() / size,
    ensures
        blocks_of(data, size, order, k).len() == k * size,
    decreases k,
{
    if k == 0 {
        assert(0 * size == 0) by (nonlinear_arith);
    } else {
        lemma_blocks_len(data, size, order, (k - 1) as nat);
        let at = order[k - 1];
        lemma_block_fits(data.len(), size, at as nat);
        assert(at * size >= 0) by (nonlinear_arith);
        assert(k * size == (k - 1) * size + size) by (nonlinear_arith);
    }
}

/// A sample of repetitive blocks is all of the data where there is no more than is wanted. Else it has as
/// many whole blocks as are wanted, one at least, and the first bytes where there is no whole block.
pub proof fn lemma_hotspot_len(data: Seq<u8>, target: nat, size: nat)
    requires
        size > 0,
        data.len() <= usize::MAX,
    ensures
        ({
            let s = hotspot_sample(data, target, size);
            &&& data.len() <= target ==> s == data
            &&& target < data.len() < size ==> s == data.take(target as int)
            &&& target < data.len() && size <= data.len() && target < size ==> s.len() == size
            &&& target < data.len() && size <= target ==> target - size < s.len() <= target
                && s.len() % size == 0
        }),
{
    let blocks = data.len() / size;
    let n = target / size;
    vstd::arithmetic::div_mod::lemma_fundamental_div_mod(data.len() as int, size as int);
    vstd::arithmetic::div_mod::lemma_fundamental_div_mod(target as int, size as int);
    assert(blocks == 0 <==> data.len() < size) by (nonlinear_arith)
        requires
            data.len() == size * blocks + data.len() % size,
            0 <= data.len() % size < size,
            size > 0,
            blocks >= 0,
    ;
    assert(n == 0 <==> target < size) by (nonlinear_arith)
        requires
            target == size * n + target % size,
            0 <= target % size < size,
            size > 0,
            n >= 0,
    ;
    if data.len() > target && blocks > 0 {
        let keys = block_scores(data, size, blocks);
        assert(blocks <= data.len()) by {
            vstd::arithmetic::div_mod::lemma_div_is_ordered_by_denominator(
                data.len() as int,
                1,
                size as int,
            );
        }
        lemma_order_desc(keys);
        assert(n <= blocks) by {
            vstd::arithmetic::div_mod::lemma_div_is_ordered(
                target as int,
                data.len() as int,
                size as int,
            );
        }
        lemma_blocks_len(data, size, order_desc(keys), blocks_wanted(target, size));
        assert(size * n == n * size) by (nonlinear_arith);
        vstd::arithmetic::div_mod::lemma_mod_multiples_basic(n as int, size as int);
        assert(1 * size == size);
    }
}

} // verus!
