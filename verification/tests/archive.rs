use std::collections::HashMap;

use duckomp::archive::{compress_file, compress_folder, pack_chunks, CompressError};
use duckomp::chunk::{
    adaptive_stage_label, adaptive_summary, compress_adaptive, compress_adaptive_chunk_data,
    decode_adaptive_chunk, plan_stages, should_reverse_chunk, AdaptiveSummary, ChunkError, CodedChunk,
    DictGain, EgapGain, EntropyBand, StagePlan, CHUNK_FLAG_DEENTROPY, CHUNK_FLAG_EGAP, CHUNK_FLAG_LZ77,
    CHUNK_FLAG_POST_ENTROPY, CHUNK_FLAG_REVERSED,
};
use duckomp::chunked::{
    calculate_chunk_size, chunk_bounds, chunk_count, ChunkSampler, ChunkedPhase, ChunkedStages,
    SampleKind,
};
use duckomp::container::{
    build_archive_header, build_directory, build_stage_header, file_ranges, read_archive_header,
    undo_dict_stages, unpack_archive, FileEntry, PackError, Stage, UnpackError,
};
use duckomp::deentropy::{
    apply_byte_permutation, apply_deentropy, build_shift_permutation, deentropy_plans,
    deentropy_transform, inverse_deentropy_transform, invert_permutation, select_deentropy,
    unique_transitions, DeentropyMeta, DeentropyMode, MetaError, ShiftEntry,
};
use duckomp::dict::{
    add_byte_counts, decode_dict_stage, emit_literals, encode_with_map, least_used,
    select_escape_byte, DictError, ENCODE_CHUNK_SIZE,
};
use duckomp::egap::{entropy_encode, EgapError};
use duckomp::folder::{list_files, order_files, FolderFile};
use duckomp::lz77::{distinct_bytes, lz77_compress, lz77_compress_chunked};
use duckomp::lz77_model::LzError;
use duckomp::paths::{restored_name, safe_components};
use duckomp::stages::{number_chunks, run_compression_stages, Verdict};

fn entropy(data: &[u8]) -> f64 {
    let mut counts = [0u64; 256];
    for &b in data {
        counts[b as usize] += 1;
    }
    let len = data.len() as f64;
    counts
        .iter()
        .filter(|&&c| c > 0)
        .map(|&c| {
            let p = c as f64 / len;
            -p * p.log2()
        })
        .sum()
}

fn band(data: &[u8]) -> EntropyBand {
    let h = entropy(data);
    if h > 7.9 {
        EntropyBand::Saturated
    } else if h >= 7.5 {
        EntropyBand::Random
    } else if h >= 7.0 {
        EntropyBand::High
    } else if h > 6.5 {
        EntropyBand::Medium
    } else {
        EntropyBand::Low
    }
}

fn reduction(after: usize, before: usize) -> f64 {
    if before == 0 {
        0.0
    } else {
        (1.0 - after as f64 / before as f64) * 100.0
    }
}

fn dict_gain(after: usize, before: usize) -> DictGain {
    let pct = reduction(after, before);
    if pct >= 50.0 {
        DictGain::Half
    } else if pct >= 20.0 {
        DictGain::High
    } else if pct >= 5.0 {
        DictGain::Medium
    } else {
        DictGain::Small
    }
}

fn egap_gain(after: usize, before: usize) -> EgapGain {
    let pct = reduction(after, before);
    if pct < 1.0 {
        EgapGain::Flat
    } else if pct >= 5.0 {
        EgapGain::Good
    } else {
        EgapGain::Fair
    }
}

fn noise(n: usize) -> Vec<u8> {
    let mut x = 0x1234_5678_9abc_def1u64;
    (0..n)
        .map(|_| {
            x ^= x << 13;
            x ^= x >> 7;
            x ^= x << 17;
            (x >> 32) as u8
        })
        .collect()
}

fn text() -> Vec<u8> {
    let words = ["the", "river", "runs", "under", "seven", "bridges", "before", "it", "meets", "sea"];
    let picks = noise(3000);
    let mut out = Vec::new();
    for p in picks {
        out.extend(words[(p % 10) as usize].as_bytes());
        out.push(b' ');
    }
    out
}

#[test]
fn shifts_without_conflicts_land() {
    let e = |symbol: u8, offset: i8| ShiftEntry { symbol, offset };
    let p = build_shift_permutation(&[e(10, 5), e(0, 0), e(15, -5), e(250, 100)]);
    assert_eq!((p[10], p[15], p[250], p[0]), (15, 10, 94, 0));
    assert_eq!(p, build_shift_permutation(&[e(10, 5), e(15, -5), e(250, 100)]));
    let chain = build_shift_permutation(&[e(1, 1), e(2, 1), e(3, 1)]);
    assert_eq!((chain[1], chain[2], chain[3], chain[4]), (2, 3, 4, 1));
    let none: Vec<u8> = (0..=255).collect();
    assert_eq!(build_shift_permutation(&[e(7, 0), e(9, 0)]).to_vec(), none);
}

#[test]
fn deentropy_meta_round_trips() {
    let meta = DeentropyMeta {
        mode: DeentropyMode::ReverseShift,
        shifts: vec![ShiftEntry { symbol: 65, offset: -1 }, ShiftEntry { symbol: 9, offset: 1 }],
    };
    assert_eq!(meta.meta_size(), 6);
    assert_eq!(meta.serialize(), vec![3, 2, 65, 255, 9, 1]);
    let (back, used) = DeentropyMeta::deserialize(&[3, 2, 65, 255, 9, 1, 77]).unwrap();
    assert_eq!((back.mode, back.shifts, used), (meta.mode, meta.shifts, 6));
    assert_eq!(DeentropyMeta::none().serialize(), vec![0, 0]);
}

#[test]
fn deentropy_meta_errors() {
    let err = |d: &[u8]| DeentropyMeta::deserialize(d).err();
    assert_eq!(err(&[1]), Some(MetaError::Truncated));
    assert_eq!(err(&[4, 0]), Some(MetaError::InvalidMode(4)));
    assert_eq!(err(&[1, 4, 0, 0, 0, 0, 0, 0, 0, 0]), Some(MetaError::TooManyShifts));
    assert_eq!(err(&[1, 2, 0, 0, 0]), Some(MetaError::TruncatedShifts));
}

#[test]
fn shifts_swap_symbols() {
    let p = build_shift_permutation(&[
        ShiftEntry { symbol: 10, offset: 1 },
        ShiftEntry { symbol: 255, offset: 1 },
        ShiftEntry { symbol: 7, offset: 0 },
    ]);
    assert_eq!((p[10], p[11], p[255], p[0], p[7]), (11, 10, 0, 255, 7));
    let inv = invert_permutation(&p);
    for b in 0..=255u8 {
        assert_eq!(inv[p[b as usize] as usize], b);
    }
    assert_eq!(apply_byte_permutation(&[10, 11, 12], &p), vec![11, 10, 12]);
    let chained = build_shift_permutation(&[
        ShiftEntry { symbol: 5, offset: 1 },
        ShiftEntry { symbol: 6, offset: 1 },
    ]);
    assert_eq!((chained[5], chained[6], chained[7]), (6, 7, 5));
}

#[test]
fn transforms_are_undone() {
    let data = text()[..500].to_vec();
    let plans = deentropy_plans(&data);
    assert_eq!(plans.len(), 1 + 26 * 2);
    for meta in &plans {
        let out = apply_deentropy(&data, meta);
        assert_eq!(inverse_deentropy_transform(&out, meta), data);
    }
    assert_eq!(plans[0].mode, DeentropyMode::Reverse);
    assert_eq!(inverse_deentropy_transform(&data, &DeentropyMeta::none()), data);
}

#[test]
fn transforms_must_gain_enough() {
    let data = vec![b'a'; 100];
    // Everything costs the same: nothing is gained.
    let (out, meta) = deentropy_transform(&data, |_d: &[u8]| 100usize);
    assert_eq!((out, meta.mode), (data.clone(), DeentropyMode::Identity));
    // Anything but the data itself costs little: the first plan wins.
    let mut data = vec![b'a'; 99];
    data.push(b'b');
    let first = data.clone();
    let (out, meta) =
        deentropy_transform(&data, |d: &[u8]| if d == first.as_slice() { 100usize } else { 82 });
    assert_eq!(meta.mode, DeentropyMode::Reverse);
    assert_eq!(out[0], b'b');
    let (_, meta) =
        deentropy_transform(&data, |d: &[u8]| if d == first.as_slice() { 100usize } else { 83 });
    assert_eq!(meta.mode, DeentropyMode::Identity);
    let (out, meta) = deentropy_transform(b"short", |_d: &[u8]| 0usize);
    assert_eq!((out, meta.mode), (b"short".to_vec(), DeentropyMode::Identity));
}

#[test]
fn transforms_are_selected_by_cost() {
    let mut data = vec![b'a'; 70];
    data.extend(vec![b'b'; 5]);
    let plans = deentropy_plans(&data);
    let mut costs = vec![1000usize; plans.len()];
    costs[3] = 10;
    let (out, meta) = select_deentropy(&data, 500, &costs);
    assert_eq!((meta.mode, meta.shifts), (plans[3].mode, plans[3].shifts.clone()));
    assert_eq!(out, apply_deentropy(&data, &plans[3]));
}

#[test]
fn transitions_are_counted_once() {
    assert_eq!(unique_transitions(b"ababab"), 2);
    assert_eq!(unique_transitions(b"a"), 0);
    assert_eq!(unique_transitions(b"aaa"), 1);
}

fn map(list: &[(u8, &str)]) -> HashMap<u8, Vec<u8>> {
    list.iter().map(|(c, s)| (*c, s.as_bytes().to_vec())).collect()
}

#[test]
fn escape_bytes_are_rare() {
    assert_eq!(select_escape_byte(b"abc"), 0);
    assert_eq!(select_escape_byte(&[0, 1, 3]), 2);
    let mut all: Vec<u8> = (0..=255).collect();
    all.extend(0..=9u8);
    assert_eq!(select_escape_byte(&all), 10);
    let mut counts = [0u64; 256];
    add_byte_counts(&mut counts, &[0, 0, 1]);
    add_byte_counts(&mut counts, &[1, 2]);
    assert_eq!((counts[0], counts[1], counts[2], least_used(&counts)), (2, 2, 1, 3));
}

#[test]
fn literals_escape_the_escape_byte() {
    let mut out = vec![1];
    emit_literals(&mut out, b"a~b~~", b'~');
    assert_eq!(out, b"\x01a~\0b~\0~\0");
}

#[test]
fn dictionary_codes_the_longest_strings() {
    let m = map(&[(1, "abc"), (2, "abcd"), (3, "bcde")]);
    assert_eq!(encode_with_map(b"xabcde~abc", b'~', &m), b"x~\x02e~\0~\x01");
    assert_eq!(decode_dict_stage(b"x~\x02e~\0~\x01", b'~', &m).unwrap(), b"xabcde~abc");
    assert_eq!(encode_with_map(b"plain~", b'~', &HashMap::new()), b"plain~\0");
}

#[test]
fn dictionary_errors() {
    let m = map(&[(1, "abc")]);
    assert_eq!(decode_dict_stage(b"a~", b'~', &m), Err(DictError::EndsAfterEscape));
    assert_eq!(decode_dict_stage(b"a~\x05", b'~', &m), Err(DictError::UnknownCode(5)));
}

#[test]
fn dictionary_codes_large_data_in_chunks() {
    let m = map(&[(7, "abcd")]);
    let data = b"abcd".repeat(2 * ENCODE_CHUNK_SIZE / 4 + 1);
    let out = encode_with_map(&data, 0, &m);
    assert_eq!(out, b"\0\x07".repeat(data.len() / 4));
    assert_eq!(decode_dict_stage(&out, 0, &m).unwrap(), data);
    let odd = [b"x".to_vec(), data].concat();
    let out = encode_with_map(&odd, 0, &m);
    assert_eq!(decode_dict_stage(&out, 0, &m).unwrap(), odd);
}

#[test]
fn stage_plans() {
    let plan = |d, e| plan_stages(d, e);
    let on = |run_egap, run_lz77| StagePlan { run_egap, run_lz77 };
    assert_eq!(plan(DictGain::Half, EntropyBand::Low), on(false, false));
    assert_eq!(plan(DictGain::High, EntropyBand::Random), on(false, false));
    assert_eq!(plan(DictGain::Small, EntropyBand::Saturated), on(false, false));
    assert_eq!(plan(DictGain::High, EntropyBand::Medium), on(true, true));
    assert_eq!(plan(DictGain::Medium, EntropyBand::High), on(true, false));
    assert_eq!(plan(DictGain::Small, EntropyBand::High), on(false, true));
}

#[test]
fn adaptive_chunks_round_trip() {
    for data in [Vec::new(), text(), noise(3000), vec![1u8; 5000]] {
        for gain in [DictGain::Half, DictGain::High, DictGain::Medium, DictGain::Small] {
            let coded = compress_adaptive(data.clone(), gain, band, egap_gain);
            assert_eq!(decode_adaptive_chunk(&coded.data, coded.flags).unwrap(), data);
        }
    }
    let coded = compress_adaptive(text(), DictGain::Small, band, egap_gain);
    assert_eq!(coded.flags & CHUNK_FLAG_LZ77, CHUNK_FLAG_LZ77);
    assert_eq!(coded.flags & CHUNK_FLAG_EGAP, 0);
    let coded = compress_adaptive(text(), DictGain::Medium, band, egap_gain);
    assert_eq!(coded.flags & CHUNK_FLAG_EGAP, CHUNK_FLAG_EGAP);
}

#[test]
fn transformed_chunks_round_trip() {
    let cost = |d: &[u8]| if d.first() == Some(&b'z') { 10usize } else { 1000 };
    let mut data = text()[..2000].to_vec();
    data.push(b'z');
    let coded = compress_adaptive_chunk_data(&data, EntropyBand::Low, cost);
    assert_eq!(coded.flags, CHUNK_FLAG_DEENTROPY | CHUNK_FLAG_EGAP);
    assert_eq!(&coded.data[..6], b"\x02\0EGAP");
    assert_eq!(decode_adaptive_chunk(&coded.data, coded.flags).unwrap(), data);
    let coded = compress_adaptive_chunk_data(&data, EntropyBand::Medium, cost);
    assert_eq!((coded.flags, coded.data), (CHUNK_FLAG_EGAP, entropy_encode(&data)));
    let coded = compress_adaptive_chunk_data(&data, EntropyBand::Saturated, cost);
    assert_eq!((coded.flags, coded.data), (0, data.clone()));
    let all: Vec<u8> = (0..=255u8).collect();
    let coded = compress_adaptive_chunk_data(&all, EntropyBand::Low, cost);
    assert_eq!((coded.flags, coded.data), (0, all));
}

/// What coding would cost: the entropy, less where few pairs of bytes follow each other.
fn estimated_cost(data: &[u8]) -> usize {
    if data.is_empty() {
        return 0;
    }
    let distinct = distinct_bytes(data);
    let most = (distinct * distinct).max(1);
    let structure = 0.7 + 0.3 * (unique_transitions(data) as f64 / most as f64);
    ((entropy(data) * data.len() as f64 * structure) / 8.0).ceil() as usize + 10 + 6 * distinct
}

#[test]
fn transformed_chunks_round_trip_by_the_estimate() {
    let runs: Vec<u8> = (0..4000).map(|i| (i / 40 % 7 * 3) as u8).collect();
    for data in [text()[..3000].to_vec(), runs, b"ab".repeat(50), b"short".to_vec(), Vec::new()] {
        let coded = compress_adaptive_chunk_data(&data, band(&data), estimated_cost);
        assert_eq!(decode_adaptive_chunk(&coded.data, coded.flags).unwrap(), data);
    }
}

#[test]
fn chunk_errors() {
    let bad = |d: &[u8], f: u8| decode_adaptive_chunk(d, f).err();
    assert_eq!(bad(b"x", CHUNK_FLAG_EGAP), Some(ChunkError::Egap(EgapError::MissingMagic)));
    assert_eq!(bad(b"x", CHUNK_FLAG_POST_ENTROPY), Some(ChunkError::Egap(EgapError::MissingMagic)));
    assert_eq!(bad(b"x", CHUNK_FLAG_LZ77), Some(ChunkError::Lz77(LzError::TooShort)));
    assert_eq!(bad(b"x", CHUNK_FLAG_DEENTROPY), Some(ChunkError::Meta(MetaError::Truncated)));
}

#[test]
fn labels_name_the_stages() {
    assert_eq!(adaptive_stage_label(0), "dict only");
    assert_eq!(
        adaptive_stage_label(
            CHUNK_FLAG_EGAP | CHUNK_FLAG_LZ77 | CHUNK_FLAG_DEENTROPY | CHUNK_FLAG_POST_ENTROPY
        ),
        "dict+deent+egap+lz77+post-ent"
    );
    assert_eq!(adaptive_stage_label(CHUNK_FLAG_REVERSED), "dict (rev)");
    assert_eq!(
        adaptive_summary(&[0, CHUNK_FLAG_EGAP, CHUNK_FLAG_EGAP | CHUNK_FLAG_LZ77, CHUNK_FLAG_REVERSED]),
        AdaptiveSummary { dict_only: 2, egap: 2, lz77: 1, post_entropy: 0, deentropy: 0, reversed: 1 }
    );
}

#[test]
fn reversal_is_tried_on_large_chunks() {
    assert!(!should_reverse_chunk(&vec![b'a'; 1023]));
    assert!(!should_reverse_chunk(&vec![b'a'; 2048]));
    let t = text();
    let rev: Vec<u8> = t.iter().rev().copied().collect();
    assert_eq!(
        should_reverse_chunk(&t[..4000]),
        lz77_compress(&rev[t.len() - 4000..]).len() < lz77_compress(&t[..4000]).len()
    );
}

#[test]
fn stage_headers_list_the_codes() {
    let stages: Vec<Stage> = vec![(b'~', map(&[(2, "xyz"), (1, "abcd")])), (9, HashMap::new())];
    assert_eq!(build_stage_header(&stages).unwrap(), b"\x02~\x02\x01\x04\0abcd\x02\x03\0xyz\x09\0");
    let full: HashMap<u8, Vec<u8>> = (0..=255u8).map(|c| (c, vec![c])).collect();
    assert_eq!(build_stage_header(&[(0, full)]), Err(PackError::TooManyCodes));
    let many: Vec<Stage> = (0..256).map(|_| (0u8, HashMap::new())).collect();
    assert_eq!(build_stage_header(&many), Err(PackError::TooManyStages));
}

fn file(path: &str, file_size: u64) -> FileEntry {
    FileEntry { relative_path: path.as_bytes().to_vec(), file_size }
}

#[test]
fn directories_list_the_files() {
    assert_eq!(
        build_directory(&[file("a/b", 5), file("c", 256)]).unwrap(),
        b"\x02\0\0\0\x03\0a/b\x05\0\0\0\0\0\0\0\x01\0c\0\x01\0\0\0\0\0\0"
    );
    assert_eq!(build_directory(&[file(&"x".repeat(65536), 0)]), Err(PackError::PathTooLong));
}

#[test]
fn headers_round_trip() {
    let stages: Vec<Stage> = vec![(b'~', map(&[(1, "abcd")]))];
    let bytes =
        build_archive_header(&Some(vec![file("f", 10)]), 10, 77, &stages, &[(3, 8), (0, 2)]).unwrap();
    let mut expected = b"DUCKOMP1\x01\x0a\0\0\0\0\0\0\0\x02\0\0\0\x4d\0\0\0".to_vec();
    expected.extend(b"\x01\0\0\0\x01\0f\x0a\0\0\0\0\0\0\0");
    expected.extend(b"\x01~\x01\x01\x04\0abcd");
    expected.extend(b"\x03\x08\0\0\0\0\0\0\0\0\x02\0\0\0\0\0\0\0");
    assert_eq!(bytes, expected);
    let h = read_archive_header(&bytes).unwrap();
    assert_eq!((h.format_flags, h.original_size, h.chunk_size), (1, 10, 77));
    assert_eq!((h.files.len(), h.files[0].file_size, h.stages.len()), (1, 10, 1));
    assert_eq!((h.chunks, h.payload_start), (vec![(3, 8), (0, 2)], bytes.len()));
}

#[test]
fn header_errors() {
    let stages: Vec<Stage> = vec![(b'~', map(&[(1, "abcd")]))];
    let bytes =
        build_archive_header(&Some(vec![file("f", 10)]), 10, 77, &stages, &[(3, 8)]).unwrap();
    let at = |n: usize| read_archive_header(&bytes[..n]).err();
    assert_eq!(at(24), Some(UnpackError::TooShort));
    assert_eq!(at(28), Some(UnpackError::TruncatedFileCount));
    assert_eq!(at(30), Some(UnpackError::TruncatedDirectory));
    assert_eq!(at(31), Some(UnpackError::TruncatedPath));
    assert_eq!(at(39), Some(UnpackError::TruncatedFileSize));
    assert_eq!(at(40), Some(UnpackError::TruncatedStageCount));
    assert_eq!(at(42), Some(UnpackError::TruncatedStageHeader));
    assert_eq!(at(45), Some(UnpackError::TruncatedCodeEntry));
    assert_eq!(at(49), Some(UnpackError::TruncatedChunkData));
    assert_eq!(at(58), Some(UnpackError::TruncatedChunkMetadata));
    assert_eq!(at(59), None);
    let mut other = bytes.clone();
    other[0] = b'X';
    assert_eq!(read_archive_header(&other).err(), Some(UnpackError::NotAnArchive));
}

#[test]
fn files_round_trip() {
    for data in [text()[..6000].to_vec(), noise(3000), vec![0u8; 10], b"x".to_vec()] {
        let packed = compress_file(&data, dict_gain, band, egap_gain).unwrap();
        assert_eq!(unpack_archive(&packed).unwrap(), data);
    }
    let data = text()[..6000].to_vec();
    let packed = compress_file(&data, dict_gain, band, egap_gain).unwrap();
    assert!(packed.len() < data.len());
    assert_eq!(compress_file(b"", dict_gain, band, egap_gain), Err(CompressError::EmptyFile));
}

fn named(path: &str, contents: &[u8]) -> FolderFile {
    FolderFile { path: path.as_bytes().to_vec(), contents: contents.to_vec() }
}

fn extract(packed: &[u8]) -> Vec<FolderFile> {
    let data = unpack_archive(packed).unwrap();
    let h = read_archive_header(packed).unwrap();
    let ranges = file_ranges(&h.files, data.len());
    assert_eq!(ranges.len(), h.files.len());
    h.files
        .into_iter()
        .zip(ranges)
        .map(|(f, (a, b))| FolderFile { path: f.relative_path, contents: data[a..b].to_vec() })
        .collect()
}

#[test]
fn folders_round_trip() {
    let t = text()[..4000].to_vec();
    let files = [named("b/c.bin", &t[1000..]), named("empty", b""), named("a.txt", &t[..1000])];
    let packed = compress_folder(&files, dict_gain, band, egap_gain).unwrap();
    assert_eq!(unpack_archive(&packed).unwrap(), t);
    let h = read_archive_header(&packed).unwrap();
    assert_eq!(h.files, vec![file("a.txt", 1000), file("b/c.bin", 3000), file("empty", 0)]);
    assert_eq!(file_ranges(&h.files, t.len()), vec![(0, 1000), (1000, t.len()), (t.len(), t.len())]);
    let back = extract(&packed);
    assert_eq!(back.len(), 3);
    for f in &files {
        assert!(back.contains(f));
    }
    assert_eq!(compress_folder(&[], dict_gain, band, egap_gain), Err(CompressError::NoFiles));
    let long = [named(&"x".repeat(65536), b"abc")];
    assert_eq!(
        compress_folder(&long, dict_gain, band, egap_gain),
        Err(CompressError::Pack(PackError::PathTooLong))
    );
}

#[test]
fn folders_are_sorted_by_path() {
    let files = [named("b", b"2"), named("a", b"1")];
    let packed = compress_folder(&files, dict_gain, band, egap_gain).unwrap();
    assert_eq!(extract(&packed), vec![named("a", b"1"), named("b", b"2")]);
    assert_eq!(unpack_archive(&packed).unwrap(), b"12");
    let mut expected = b"DUCKOMP1\x01".to_vec();
    expected.extend(2u64.to_le_bytes());
    for n in [1u32, 2, 2] {
        expected.extend(n.to_le_bytes());
    }
    for name in [b"a", b"b"] {
        expected.extend(1u16.to_le_bytes());
        expected.extend(name);
        expected.extend(1u64.to_le_bytes());
    }
    expected.extend([0, 0]);
    expected.extend(2u64.to_le_bytes());
    expected.extend(b"12");
    assert_eq!(packed, expected);
    let none = [named("y", b""), named("x", b"")];
    let packed = compress_folder(&none, dict_gain, band, egap_gain).unwrap();
    assert_eq!(extract(&packed), vec![named("x", b""), named("y", b"")]);
}

#[test]
fn files_are_ordered_byte_by_byte() {
    let paths: Vec<Vec<u8>> =
        ["b", "a/b", "a", "B", "a.txt", "", "a"].iter().map(|s| s.as_bytes().to_vec()).collect();
    assert_eq!(order_files(&paths), vec![5, 3, 2, 6, 4, 1, 0]);
    assert_eq!(order_files(&[]), Vec::<usize>::new());
    let (order, list) = list_files(&paths[..3], &[10, 20, 30]);
    assert_eq!(order, vec![2, 1, 0]);
    assert_eq!(list, vec![file("a", 30), file("a/b", 20), file("b", 10)]);
}

#[test]
fn file_ranges_stop_at_missing_data() {
    assert_eq!(file_ranges(&[file("a", 4), file("b", 7), file("c", 1)], 10), vec![(0, 4)]);
    assert_eq!(file_ranges(&[file("a", u64::MAX)], 10), vec![]);
}

#[test]
fn archives_with_errors() {
    let mut plain = build_archive_header(&None, 5, 5, &[], &[(0, 5)]).unwrap();
    plain.extend(b"hello");
    assert_eq!(unpack_archive(&plain).unwrap(), b"hello");
    assert!(matches!(
        unpack_archive(&plain[..plain.len() - 1]),
        Err(UnpackError::ChunkTruncated { index: 0, need: 5, offset: 0, have: 4 })
    ));
    let mut wrong = build_archive_header(&None, 6, 5, &[], &[(0, 5)]).unwrap();
    wrong.extend(b"hello");
    assert!(matches!(
        unpack_archive(&wrong),
        Err(UnpackError::SizeMismatch { found: 5, expected: 6 })
    ));
    let mut coded = build_archive_header(&None, 5, 5, &[], &[(CHUNK_FLAG_LZ77, 5)]).unwrap();
    coded.extend(b"hello");
    assert!(matches!(
        unpack_archive(&coded),
        Err(UnpackError::Chunk(ChunkError::Lz77(LzError::TooShort)))
    ));
    let stages: Vec<Stage> = vec![(b'h', HashMap::new())];
    let mut dict = build_archive_header(&None, 5, 5, &stages, &[(0, 5)]).unwrap();
    dict.extend(b"hello");
    assert!(matches!(
        unpack_archive(&dict),
        Err(UnpackError::Dict(DictError::UnknownCode(b'e')))
    ));
}

#[test]
fn archives_with_a_common_lz77_pass() {
    let t = text();
    let mut packed = build_archive_header(&None, t.len() as u64, 1, &[], &[(0, t.len() as u64)]).unwrap();
    packed[8] |= 2;
    packed.extend(lz77_compress_chunked(&t, &[]));
    assert_eq!(unpack_archive(&packed).unwrap(), t);
    packed.truncate(packed.len() - 1);
    assert!(matches!(unpack_archive(&packed), Err(UnpackError::Lz77(LzError::Truncated))));
}

#[test]
fn stages_shrink_and_are_undone() {
    let t = text()[..8000].to_vec();
    let (stages, data) = run_compression_stages(&t);
    assert!(!stages.is_empty() && data.len() < t.len());
    assert_eq!(undo_dict_stages(data, &stages).unwrap(), t);
    let n = noise(4000);
    let (stages, data) = run_compression_stages(&n);
    assert_eq!((stages.len(), data), (0, n));
}

fn encode_all(chunks: &[Vec<u8>], escape: u8, m: &HashMap<u8, Vec<u8>>) -> Vec<Vec<u8>> {
    chunks.iter().map(|c| encode_with_map(c, escape, m)).collect()
}

#[test]
fn chunked_stages_round_trip() {
    let t = text()[..8000].to_vec();
    let size = 3000;
    let total = t.len();
    let mut chunks: Vec<Vec<u8>> = (0..chunk_count(total, size))
        .map(|i| {
            let (a, b) = chunk_bounds(i, size, total);
            t[a..b].to_vec()
        })
        .collect();
    assert_eq!(chunks.len(), 3);
    assert_eq!(chunks.concat(), t);
    let pieces = chunks.clone();
    let mut state = ChunkedStages::begin(total);
    let mut stages: Vec<Stage> = Vec::new();
    while let Some(n) = state.wanted_sample() {
        let now: usize = chunks.iter().map(|c| c.len()).sum();
        let mut sampler = ChunkSampler::new(now, n, chunks.len());
        for c in &chunks {
            if !sampler.is_full() {
                sampler.add_chunk(c);
            }
        }
        let sample = sampler.finish();
        let (next, found) = state.take_sample(&sample);
        state = next;
        if let Some(best) = found {
            let m = number_chunks(best);
            let mut counts = [0u64; 256];
            for c in &chunks {
                add_byte_counts(&mut counts, c);
            }
            let escape = least_used(&counts);
            let coded = encode_all(&chunks, escape, &m);
            let (next, verdict) = state.take_encoded(coded.iter().map(|c| c.len()).sum());
            state = next;
            if verdict != Verdict::Discard {
                stages.push((escape, m));
                chunks = coded;
            }
        }
    }
    assert!(matches!(state.phase, ChunkedPhase::Done));
    assert!(!stages.is_empty());
    assert!(chunks.concat().len() < total);
    assert!(stages.len() <= 16);
    assert_eq!(chunks.len(), pieces.len());
    for (chunk, piece) in chunks.iter().zip(&pieces) {
        assert_eq!(&undo_dict_stages(chunk.clone(), &stages).unwrap(), piece);
    }
    assert_eq!(undo_dict_stages(chunks.concat(), &stages).unwrap(), t);
    let coded: Vec<CodedChunk> = chunks
        .into_iter()
        .map(|c| compress_adaptive(c, DictGain::Medium, |_| EntropyBand::Low, |_, _| EgapGain::Fair))
        .collect();
    let packed = pack_chunks(&None, total as u64, size, &stages, &coded).unwrap();
    assert_eq!(unpack_archive(&packed).unwrap(), t);
}

#[test]
fn chunks_stand_behind_their_header() {
    let chunks = [
        CodedChunk { data: b"ab".to_vec(), flags: 0 },
        CodedChunk { data: b"cde".to_vec(), flags: 0 },
    ];
    let mut expected = build_archive_header(&None, 5, 2, &[], &[(0, 2), (0, 3)]).unwrap();
    expected.extend_from_slice(b"abcde");
    let packed = pack_chunks(&None, 5, 2, &[], &chunks).unwrap();
    assert_eq!(packed, expected);
    assert_eq!(unpack_archive(&packed).unwrap(), b"abcde");
    let long = FileEntry { relative_path: vec![b'x'; 65536], file_size: 5 };
    assert_eq!(pack_chunks(&Some(vec![long]), 5, 2, &[], &chunks), Err(PackError::PathTooLong));
}

#[test]
fn samples_are_drawn_by_phase() {
    let state = |phase: ChunkedPhase| ChunkedStages { iteration: 1, total: 9, last_good: None, phase };
    let probe = state(ChunkedPhase::Probe);
    assert_eq!(probe.sample_kind(false), SampleKind::Spread);
    assert_eq!(probe.sample_kind(true), SampleKind::Chunks);
    let hot = state(ChunkedPhase::Hotspots { flat: false });
    assert_eq!(hot.sample_kind(false), SampleKind::Hotspots);
    assert_eq!(hot.sample_kind(true), SampleKind::Chunks);
    let analyse = state(ChunkedPhase::Analyse { sizes: vec![4], flat: true });
    assert_eq!(analyse.sample_kind(false), SampleKind::Whole);
    assert_eq!(analyse.sample_kind(true), SampleKind::Chunks);
    let retry = state(ChunkedPhase::Retry { sizes: vec![4] });
    assert_eq!(retry.sample_kind(false), SampleKind::Spread);
    assert_eq!(retry.sample_kind(true), SampleKind::Chunks);
}

#[test]
fn at_most_sixteen_stages_stay() {
    let mut total = 1 << 40;
    let mut stayed = 0;
    let mut state = ChunkedStages::begin(total);
    for _ in 0..40 {
        state.phase = match state.phase {
            ChunkedPhase::Probe => ChunkedPhase::Encode { sizes: vec![4], second_attempt: false },
            other => other,
        };
        let (next, verdict) = state.take_encoded(total / 2);
        state = next;
        if verdict != Verdict::Discard {
            stayed += 1;
            total /= 2;
        }
    }
    assert_eq!(stayed, 16);
    assert!(matches!(state.phase, ChunkedPhase::Done));
}

#[test]
fn samplers_take_all_or_a_share() {
    let mut s = ChunkSampler::new(6, 10, 2);
    s.add_chunk(b"abc");
    s.add_chunk(b"def");
    assert_eq!(s.finish(), b"abcdef");
    let mut s = ChunkSampler::new(100, 8, 2);
    s.add_chunk(b"abc");
    assert!(!s.is_full());
    s.add_chunk(&(0..50u8).collect::<Vec<u8>>());
    let out = s.finish();
    assert_eq!(out, b"abc\x00\x0c\x18\x24");
}

#[test]
fn chunk_sizes_stay_in_their_bounds() {
    const MB: usize = 1024 * 1024;
    assert_eq!(calculate_chunk_size(100 * MB, 4), 64 * MB);
    assert_eq!(calculate_chunk_size(1600 * MB, 8), 100 * MB);
    assert_eq!(calculate_chunk_size(100_000 * MB, 1), 512 * MB);
    assert_eq!(calculate_chunk_size(128 * MB, 0), 128 * MB);
    assert_eq!((chunk_count(10, 4), chunk_count(8, 4), chunk_count(0, 4)), (3, 2, 0));
    assert_eq!(chunk_bounds(2, 4, 10), (8, 10));
}

#[test]
fn paths_stay_inside() {
    let parts = |s: &str| -> Vec<String> {
        safe_components(s.as_bytes())
            .into_iter()
            .map(|c| String::from_utf8(c).unwrap())
            .collect()
    };
    assert_eq!(parts("a/b/c.txt"), vec!["a", "b", "c.txt"]);
    assert_eq!(parts("../..\\x//./y/.."), vec!["x", "y"]);
    assert_eq!(parts("/..."), vec!["..."]);
    assert_eq!(parts(""), Vec::<String>::new());
}

#[test]
fn restored_names_lose_the_ending() {
    assert_eq!(restored_name(b"dir/file.txt.duckomp"), b"dir/file.txt");
    assert_eq!(restored_name(b"FILE.DuckOmp"), b"FILE");
    assert_eq!(restored_name(b"file.zip"), b"file.zip.decompressed");
    assert_eq!(restored_name(b"x"), b"x.decompressed");
    assert_eq!(restored_name(b".duckomp"), b"");
    assert_eq!(restored_name("x.duc\u{212a}omp".as_bytes()), b"x.d");
    assert_eq!(restored_name("x.DUC\u{212a}OMP".as_bytes()), b"x.D");
    let accented = "x.d\u{fc}ckomp".as_bytes();
    assert_eq!(restored_name(accented), [accented, b".decompressed"].concat());
}
