use duckomp::candidates::{find_occurrences_for_sizes, select_best_chunks, Candidate, SAMPLE_REGION_SIZE};
use duckomp::crossref::parallel_cross_reference_sample;
use duckomp::rounding::{nearest_quotient, scale_count};
use duckomp::sampling::{
    block_score, build_analysis_corpus, compute_sample_offsets, occurrence_threshold_by_data_length,
    probe_chunk_sizes, probe_is_uniform, sample_hotspots, sample_spread_parallel,
    select_analysis_sizes, ProbeResult,
};
use duckomp::sort::{is_bytes_leq, sort_desc, sort_ranked};
use duckomp::stages::{
    analyse, analyse_again, cross_ref_regions, judge_stage, number_chunks, probe_sample,
    probe_sample_size, retry_sample_size, Verdict,
};
use duckomp::windows::{list_frequent_windows, mark_first};

fn noise(n: usize) -> Vec<u8> {
    let mut x = 0xfeed_beef_1234_5679u64;
    (0..n)
        .map(|_| {
            x ^= x << 13;
            x ^= x >> 7;
            x ^= x << 17;
            (x >> 32) as u8
        })
        .collect()
}

#[test]
fn thresholds_grow_with_the_data() {
    assert_eq!(occurrence_threshold_by_data_length(0), 2);
    assert_eq!(occurrence_threshold_by_data_length(149_999), 2);
    assert_eq!(occurrence_threshold_by_data_length(150_000), 3);
}

#[test]
fn sample_offsets_are_spread() {
    assert_eq!(compute_sample_offsets(100, 4, 25), vec![(0, 100)]);
    assert_eq!(compute_sample_offsets(103, 4, 20), vec![(0, 20), (25, 45), (50, 70), (75, 95)]);
}

#[test]
fn spread_samples() {
    let data: Vec<u8> = (0..100).collect();
    assert_eq!(sample_spread_parallel(&data, 100, 4), data);
    assert_eq!(sample_spread_parallel(&data, 9, 4), vec![0, 1, 25, 26, 50, 51, 75, 76]);
}

#[test]
fn hotspots_are_the_most_repetitive_blocks() {
    let data = b"abcdaaaaababcdef";
    assert_eq!(block_score(b"aabc"), 4 + 1 + 1);
    assert_eq!(sample_hotspots(data, 8, 4), b"aaaaabab");
    assert_eq!(sample_hotspots(data, 3, 4), b"aaaa");
    assert_eq!(sample_hotspots(data, 100, 4), data);
    assert_eq!(sample_hotspots(b"abc", 2, 4), b"ab");
}

#[test]
fn corpus_is_spread_and_hotspots() {
    let data = b"0123456789";
    assert_eq!(build_analysis_corpus(data, 10), b"01234567890123456789");
}

#[test]
fn windows_are_counted() {
    let list = list_frequent_windows(b"abcabcab", 3, 2);
    let rows: Vec<(&[u8], usize)> = list.iter().map(|w| (w.chunk.as_slice(), w.count)).collect();
    assert_eq!(rows, vec![(&b"abc"[..], 2), (b"bca", 2), (b"cab", 2)]);
    assert!(list_frequent_windows(b"ab", 3, 1).is_empty());
    assert_eq!(
        mark_first(&[b"a".to_vec(), b"b".to_vec(), b"a".to_vec()]),
        vec![true, true, false]
    );
}

#[test]
fn probes_score_sizes() {
    let data = b"abcdefgh".repeat(50);
    let p = probe_chunk_sizes(&data);
    assert_eq!(p.sizes.len(), 126);
    let score = |size: usize| -> i64 {
        let n = data.len() - size + 1;
        (0..8)
            .map(|r| {
                let c = (n + 7 - r) / 8;
                let s = (size as i64 - 2) * c as i64 - (3 + size) as i64;
                if c >= 2 && s > 0 {
                    s
                } else {
                    0
                }
            })
            .sum()
    };
    for (size, s) in p.sizes.iter().zip(&p.scores) {
        assert_eq!(*s as i64, score(*size), "{size}");
    }
    assert!(p.scores.windows(2).all(|w| w[0] >= w[1]));
}

fn probe(list: &[(usize, u128)]) -> ProbeResult {
    ProbeResult {
        sizes: list.iter().map(|p| p.0).collect(),
        scores: list.iter().map(|p| p.1).collect(),
    }
}

#[test]
fn flat_probes_use_few_sizes() {
    let flat = probe(&[(5, 100), (6, 99), (7, 95), (8, 90), (9, 10), (3, 0)]);
    assert!(probe_is_uniform(&flat, 90));
    assert_eq!(select_analysis_sizes(&flat), vec![5, 6, 7]);
    let steep = probe(&[(5, 100), (6, 99), (7, 95), (8, 89), (9, 20), (10, 19)]);
    assert!(!probe_is_uniform(&steep, 90));
    assert_eq!(select_analysis_sizes(&steep), vec![5, 6, 7, 8, 9]);
    assert!(!probe_is_uniform(&probe(&[(5, 1), (6, 1), (7, 1)]), 90));
    assert_eq!(select_analysis_sizes(&probe(&[(5, 0)])), Vec::<usize>::new());
    let many: Vec<(usize, u128)> = (0..12).map(|i| (3 + i, 100 - 5 * i as u128)).collect();
    assert_eq!(select_analysis_sizes(&probe(&many)), vec![3, 4, 5, 6, 7, 8, 9, 10]);
}

#[test]
fn candidates_are_ranked() {
    let c = find_occurrences_for_sizes(b"abcdabcdabcdxyxyxyxy", &[4, 2], Some(3));
    let rows: Vec<(&[u8], usize, usize, u128)> =
        c.iter().map(|c| (c.chunk.as_slice(), c.max_count, c.chunk_size, c.size_score)).collect();
    assert_eq!(rows[0], (&b"abcd"[..], 3, 4, 12));
    assert_eq!(rows[1], (&b"xyxy"[..], 3, 4, 12));
    assert_eq!(rows[2], (&b"xy"[..], 4, 2, 8));
    assert!(find_occurrences_for_sizes(b"", &[4], None).is_empty());
}

fn candidate(s: &str, count: usize) -> Candidate {
    Candidate {
        chunk: s.as_bytes().to_vec(),
        max_count: count,
        chunk_size: s.len(),
        size_score: (s.len() * count) as u128,
    }
}

#[test]
fn best_chunks_save_bytes() {
    let list = [
        candidate("ab", 100),
        candidate("abc", 7),
        candidate("abc", 50),
        candidate("wxyz", 4),
        candidate("abcde", 3),
        candidate("pqrs", 5),
    ];
    assert_eq!(
        select_best_chunks(&list, 10),
        vec![b"pqrs".to_vec(), b"abcde".to_vec(), b"wxyz".to_vec(), b"abc".to_vec()]
    );
    assert_eq!(select_best_chunks(&list, 1), vec![b"pqrs".to_vec()]);
}

#[test]
fn cross_references_need_several_regions() {
    let mut data = noise(4 * SAMPLE_REGION_SIZE + 4);
    let step = data.len() / 2;
    for k in 0..40 {
        for base in [0, step] {
            data[base + 100 * k..base + 100 * k + 8].copy_from_slice(b"REPEATED");
        }
        data[50 + 100 * k..50 + 100 * k + 8].copy_from_slice(b"ONCEONLY");
    }
    let c = parallel_cross_reference_sample(&data, 2, &[8], 10);
    assert!(c.iter().any(|c| c.chunk == b"REPEATED"));
    assert!(c.iter().all(|c| c.chunk != b"ONCEONLY"));
}

#[test]
fn stage_decisions() {
    assert_eq!(judge_stage(100_000, 90_000, false), Verdict::Commit);
    assert_eq!(judge_stage(100_000, 99_900, false), Verdict::Commit);
    assert_eq!(judge_stage(100_000, 99_901, false), Verdict::CommitAndStop);
    assert_eq!(judge_stage(100_000, 100_000, false), Verdict::Discard);
    assert_eq!(judge_stage(100_000, 90_000, true), Verdict::CommitAndStop);
    assert_eq!(judge_stage(100_000, 100_000, true), Verdict::Discard);
}

#[test]
fn sample_sizes() {
    assert_eq!(probe_sample_size(2_000_000), 2_000_000);
    assert_eq!(probe_sample_size(2_000_001), 1_000_000);
    assert_eq!(probe_sample_size(20_000_001), 2_000_000);
    assert_eq!(retry_sample_size(2_000_000), 2_000_000);
    assert_eq!(retry_sample_size(20_000_000), 5_000_000);
    assert_eq!(retry_sample_size(100_000_000), 8_000_000);
    assert_eq!(retry_sample_size(100_000_001), 12_000_000);
    assert_eq!(cross_ref_regions(0, false), 4);
    assert_eq!(cross_ref_regions(100_000_000, false), 24);
    assert_eq!(cross_ref_regions(100_000_000, true), 12);
}

#[test]
fn analyses_find_what_repeats() {
    let mut data = noise(3000);
    for k in 0..30 {
        data[100 * k..100 * k + 10].copy_from_slice(b"0123456789");
    }
    let (sizes, _) = probe_sample(&data);
    assert!(!sizes.is_empty());
    let best = analyse(&data, data.len(), false, &[10]);
    assert_eq!(best[0], b"0123456789");
    assert_eq!(analyse_again(&data, data.len(), &[10])[0], b"0123456789");
    let n = best.len();
    let m = number_chunks(best);
    assert_eq!((m.len(), m[&1].as_slice()), (n, &b"0123456789"[..]));
}

#[test]
fn counts_are_scaled_as_doubles_are() {
    for (total, sample, len) in
        [(7usize, 3usize, 10usize), (100, 262144, 1000003), (123457, 1, 3), (99, 12345, 98765432)]
    {
        let fraction = sample as f64 / len as f64;
        assert_eq!(scale_count(total, sample, len), (total as f64 / fraction) as usize);
    }
    let (m, e) = nearest_quotient(1, 3);
    assert_eq!(m as f64 / 2f64.powi(e as i32), 1.0 / 3.0);
}

#[test]
fn orders_are_stable() {
    assert_eq!(sort_desc(&[3, 9, 3, 10, 9]), vec![3, 1, 4, 0, 2]);
    assert_eq!(
        sort_ranked(&[1, 1, 2, 1], &[0, 0, 0, 5], &[b"b".to_vec(), b"a".to_vec(), vec![], vec![]]),
        vec![2, 3, 1, 0]
    );
    assert!(is_bytes_leq(b"ab", b"abc") && !is_bytes_leq(b"b", b"abc") && is_bytes_leq(b"", b""));
}
