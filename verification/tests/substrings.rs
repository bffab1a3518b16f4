use duckomp::repeats::{Pass, Repeats};
use duckomp::spans::{segment_data, Span};
use duckomp::scanning::{Hits, Sampler, Scanner};
use duckomp::substrings::{
    affixes, best_candidate, clean_chunk, extend_pattern, find_neighbour, growth, rank_samples,
    summarize, Growth, MAX_EXTENSION,
};
use duckomp::tally::Tally;
use duckomp::windows::WindowCount;

fn sample(pieces: &[&[u8]]) -> Tally {
    let mut s = Sampler::begin();
    for p in pieces {
        s.feed(p);
    }
    s.finish()
}

fn keys(t: &Tally) -> Vec<Vec<u8>> {
    t.entries().into_iter().map(|e| e.chunk).collect()
}

#[test]
fn samples_are_taken_every_hundred_bytes() {
    let data: Vec<u8> = (0..230).map(|i| i as u8).collect();
    let t = sample(&[&data]);
    let at = |i: usize, n: usize| data[i..i + n].to_vec();
    assert_eq!(
        keys(&t),
        vec![
            at(0, 14), at(0, 15), at(0, 16), at(100, 14), at(100, 15), at(100, 16), at(200, 14),
            at(200, 15), at(200, 16),
        ]
    );
    assert_eq!(t.added_count(), 9);
}

#[test]
fn samples_at_the_end_are_shorter() {
    let data: Vec<u8> = (0..115).map(|i| i as u8).collect();
    let lens: Vec<usize> = keys(&sample(&[&data])).iter().map(|k| k.len()).collect();
    assert_eq!(lens, vec![14, 15, 16, 14, 15]);
    assert_eq!(sample(&[&data[..114]]).added_count(), 3);
    assert_eq!(sample(&[&data[..14]]).added_count(), 0);
    assert_eq!(sample(&[]).added_count(), 0);
}

#[test]
fn samples_do_not_depend_on_the_pieces() {
    let data: Vec<u8> = (0..730).map(|i| (i * 7 % 251) as u8).collect();
    let whole = keys(&sample(&[&data]));
    assert_eq!(whole.len(), 24);
    for n in [1, 5, 99, 100, 101, 113, 116, 729] {
        let pieces: Vec<&[u8]> = data.chunks(n).collect();
        assert_eq!(keys(&sample(&pieces)), whole);
    }
    assert_eq!(keys(&sample(&[b"", &data[..3], b"", &data[3..]])), whole);
}

#[test]
fn tallies_count_in_order_of_first_sight() {
    let mut t = Tally::new();
    for k in ["b", "a", "b", "", "b"] {
        t.add(k.as_bytes());
    }
    let list: Vec<(Vec<u8>, usize)> = t.entries().into_iter().map(|e| (e.chunk, e.count)).collect();
    assert_eq!(list, vec![(b"b".to_vec(), 3), (b"a".to_vec(), 1), (Vec::new(), 1)]);
}

fn entry(s: &str, count: usize) -> WindowCount {
    WindowCount { chunk: s.as_bytes().to_vec(), count }
}

#[test]
fn samples_are_ranked_by_coverage_and_length() {
    let list = vec![entry("aaaa", 3), entry("bbb", 4), entry("cc", 9), entry("ab", 9)];
    let out = rank_samples(&list);
    assert_eq!(out, vec![b"ab".to_vec(), b"cc".to_vec(), b"aaaa".to_vec(), b"bbb".to_vec()]);
    let many: Vec<WindowCount> = (0..60).map(|i| entry(&format!("{:03}", i), 60 - i)).collect();
    let out = rank_samples(&many);
    assert_eq!((out.len(), out[0].as_slice(), out[49].as_slice()), (50, &b"000"[..], &b"049"[..]));
}

fn scan(patterns: &[&str], store: &[bool], pieces: &[&str]) -> Hits {
    let p: Vec<Vec<u8>> = patterns.iter().map(|s| s.as_bytes().to_vec()).collect();
    let mut s = Scanner::begin(p, store.to_vec());
    for piece in pieces {
        s.feed(piece.as_bytes());
    }
    s.finish()
}

#[test]
fn scans_count_matches_as_they_end() {
    let h = scan(&["abcd", "b"], &[true, true], &["abcdef"]);
    assert_eq!(h.counts, vec![0, 1]);
    assert_eq!(h.offsets, vec![vec![], vec![1]]);
    let h = scan(&["bc", "abc"], &[true, true], &["xabcabc"]);
    assert_eq!(h.counts, vec![0, 2]);
    assert_eq!(h.offsets, vec![vec![], vec![1, 4]]);
}

#[test]
fn scans_do_not_overlap_and_keep_places_on_demand() {
    let h = scan(&["aa"], &[true], &["aaaaa"]);
    assert_eq!((h.counts, h.offsets), (vec![2], vec![vec![0, 2]]));
    let h = scan(&["aa", "a"], &[false, true], &["aaa"]);
    assert_eq!((h.counts, h.offsets), (vec![0, 3], vec![vec![], vec![0, 1, 2]]));
    let h = scan(&["x"], &[false], &["xxx"]);
    assert_eq!((h.counts, h.offsets), (vec![3], vec![vec![]]));
    let h = scan(&["x"], &[true], &["-x", "x-"]);
    assert_eq!((h.counts, h.offsets), (vec![2], vec![vec![1, 2]]));
    let h = scan(&[], &[], &["abc"]);
    assert_eq!((h.counts, h.offsets), (vec![], Vec::<Vec<usize>>::new()));
}

#[test]
fn matches_across_pieces_are_counted_once() {
    let h = scan(&["abc"], &[true], &["xxab", "cxxa", "b", "c", "abc"]);
    assert_eq!((h.counts, h.offsets), (vec![3], vec![vec![2, 7, 10]]));
    let h = scan(&["aa"], &[true], &["aaa", "aa", "a"]);
    assert_eq!((h.counts, h.offsets), (vec![3], vec![vec![0, 2, 4]]));
    let text = "the cat sat on the mat with the other cat that sat".repeat(3);
    let patterns = ["the", "at", "cat s", "th", "sat on the mat"];
    let store = [true, true, true, true, true];
    let whole = scan(&patterns, &store, &[&text]);
    for n in [1, 2, 3, 7, 13, 40] {
        let pieces: Vec<&str> =
            (0..text.len()).step_by(n).map(|i| &text[i..text.len().min(i + n)]).collect();
        let h = scan(&patterns, &store, &pieces);
        assert_eq!((&h.counts, &h.offsets), (&whole.counts, &whole.offsets));
    }
}

#[test]
fn the_best_candidate_covers_most_and_comes_last() {
    let p = vec![vec![0u8; 4], vec![1u8; 6], vec![2u8; 3], vec![3u8; 2]];
    assert_eq!(best_candidate(&p, &vec![30, 23, 40, 24]), Some(2));
    assert_eq!(best_candidate(&p, &vec![23, 23, 23, 23]), None);
    assert_eq!(best_candidate(&p, &vec![24, 24, 0, 0]), Some(1));
}

#[test]
fn neighbours_in_common() {
    let data = b"xab-xab-xab";
    let offs = vec![1usize, 5, 9];
    assert_eq!(find_neighbour(data, &offs, 2, true, false), Some(b'-'));
    assert_eq!(find_neighbour(data, &offs, 2, true, true), None);
    assert_eq!(find_neighbour(data, &offs, 2, false, true), Some(b'x'));
    assert_eq!(find_neighbour(data, &vec![0, 4], 1, false, false), Some(b'-'));
    assert_eq!(find_neighbour(data, &vec![0, 4], 1, false, true), None);
    assert_eq!(find_neighbour(data, &vec![1, 2], 1, true, false), None);
    assert_eq!(find_neighbour(data, &Vec::new(), 1, true, false), None);
    assert_eq!(growth(data, &offs, 2, true), Growth::Before(b'x'));
    assert_eq!(growth(data, &offs, 2, false), Growth::Behind(b'-'));
    assert_eq!(growth(b"ab", &vec![0], 2, true), Growth::Stop);
}

#[test]
fn patterns_grow_on_both_sides() {
    let data = b"1<key>2<key>3<key>4";
    let p = extend_pattern(data, b"ey".to_vec(), vec![3, 9, 15], MAX_EXTENSION).unwrap();
    assert_eq!((p.bytes.as_slice(), p.offsets), (&b"<key>"[..], vec![1, 7, 13]));
    assert!(p.stopped);
    let p = extend_pattern(data, b"ey".to_vec(), vec![3, 9, 15], 1).unwrap();
    assert_eq!((p.bytes.as_slice(), p.stopped), (&b"ey>"[..], false));
}

#[test]
fn patterns_cannot_grow_below_the_start() {
    assert!(extend_pattern(b"ab1xab2", b"ab".to_vec(), vec![0, 4], 5).is_none());
    assert!(extend_pattern(b"ab1xab2", b"ab".to_vec(), vec![4], 1).unwrap().bytes == b"ab2");
}

#[test]
fn affixes_are_fronts_and_ends() {
    let list = affixes(&b"abcab".to_vec(), 2);
    assert_eq!(
        list,
        vec![b"ab".to_vec(), b"abc".to_vec(), b"cab".to_vec(), b"abca".to_vec(), b"bcab".to_vec()]
    );
    assert_eq!(affixes(&b"ab".to_vec(), 14), Vec::<Vec<u8>>::new());
}

#[test]
fn summaries_are_ordered_by_coverage() {
    let list = vec![b"ab".to_vec(), b"cd".to_vec(), b"abc".to_vec(), b"zz".to_vec()];
    let out = summarize(&b"abcd".to_vec(), 25, &list, &vec![60, 60, 24, 25]);
    let rows: Vec<(Vec<u8>, usize, u128)> =
        out.into_iter().map(|s| (s.bytes, s.count, s.score)).collect();
    assert_eq!(
        rows,
        vec![
            (b"ab".to_vec(), 60, 120),
            (b"cd".to_vec(), 60, 120),
            (b"abcd".to_vec(), 25, 100),
            (b"zz".to_vec(), 25, 50),
        ]
    );
}

#[test]
fn occurrences_are_cleaned_chunk_by_chunk() {
    let offsets = [2usize, 5, 9];
    let mut chunk = b"abcdefgh".to_vec();
    let next = clean_chunk(&mut chunk, 0, &offsets, 0, 2);
    assert_eq!((next, chunk.as_slice()), (2, &b"ab\0\0e\0\0h"[..]));
    let mut chunk = b"ijkl".to_vec();
    let next = clean_chunk(&mut chunk, 8, &offsets, next, 2);
    assert_eq!((next, chunk.as_slice()), (3, &b"i\0\0l"[..]));
    let mut chunk = b"gh".to_vec();
    assert_eq!(clean_chunk(&mut chunk, 6, &offsets, 0, 9), 2);
    assert_eq!(chunk, b"gh");
    let mut chunk = b"ij".to_vec();
    assert_eq!(clean_chunk(&mut chunk, 8, &offsets, 0, 9), 3);
    assert_eq!(chunk, b"i\0");
    let mut chunk = b"abcdefgh".to_vec();
    assert_eq!(clean_chunk(&mut chunk, 0, &[5, 2, 9], 0, 2), 2);
    assert_eq!(chunk, b"ab\0\0e\0\0h");
}

fn span(start: usize, end: usize, degree: usize) -> Span {
    Span { start, end, degree }
}

#[test]
fn spans_are_as_long_as_they_pass() {
    let all = |a: usize, b: usize, _d: usize| b - a;
    assert_eq!(segment_data(20, &all), vec![span(0, 15, 3), span(15, 20, 3)]);
    assert_eq!(segment_data(17, &all), vec![span(0, 15, 3), span(15, 17, 1)]);
    assert_eq!(segment_data(16, &all), vec![span(0, 15, 3), span(15, 16, 0)]);
    assert_eq!(segment_data(3, &all), vec![span(0, 3, 2)]);
    assert_eq!(segment_data(2, &all), vec![]);
}

#[test]
fn spans_that_nothing_passes_have_four_points() {
    let none = |_a: usize, _b: usize, _d: usize| 0;
    assert_eq!(segment_data(9, &none), vec![span(0, 4, 3), span(4, 8, 3), span(8, 9, 0)]);
    let six = |a: usize, b: usize, d: usize| if b - a == 6 && d == 3 { 6 } else { 1 };
    assert_eq!(segment_data(10, &six), vec![span(0, 6, 3), span(6, 10, 3)]);
}

const LETTERS: &[u8; 20] = b"ABCDEFGHIJKLMNOPQRST";

fn blocks(n: usize, last: Option<u8>) -> Vec<u8> {
    let mut data = Vec::new();
    for i in 0..n {
        data.extend_from_slice(LETTERS);
        data.extend((0..80).map(|j| ((i * 31 + j * 17) % 160 + 90) as u8));
        if let Some(b) = last {
            data.pop();
            data.push(b);
        }
    }
    data
}

fn search(data: &[u8], strict: bool) -> (Pass, usize) {
    let t = sample(&[data]);
    let mut s = Repeats::begin(strict, &t.entries());
    let mut passes = 0;
    while let Some((patterns, keep)) = s.wanted() {
        let keep = vec![keep; patterns.len()];
        let mut scanner = Scanner::begin(patterns, keep);
        scanner.feed(data);
        s = s.take(data, scanner.finish());
        passes += 1;
    }
    (s.pass, passes)
}

#[test]
fn repeated_strings_are_found() {
    let data = blocks(30, None);
    for (strict, expected) in [(true, 9), (false, 3)] {
        let (pass, passes) = search(&data, strict);
        assert_eq!(passes, expected);
        match pass {
            Pass::Found { bytes, offsets, rows } => {
                assert_eq!(bytes, LETTERS);
                assert_eq!(offsets, (0..30).map(|i| i * 100).collect::<Vec<usize>>());
                let shown: Vec<(&[u8], usize, u128)> =
                    rows.iter().map(|r| (r.bytes.as_slice(), r.count, r.score)).collect();
                assert_eq!(shown, vec![(&LETTERS[..], 30, 600), (&LETTERS[..14], 30, 420)]);
            }
            other => panic!("{:?}", other),
        }
    }
}

#[test]
fn rare_strings_are_not_found() {
    assert!(matches!(search(b"", true), (Pass::Nothing, 0)));
    assert!(matches!(search(&blocks(23, None), true), (Pass::Nothing, 1)));
    assert!(matches!(search(&blocks(24, None), false), (Pass::Nothing, 2)));
    match search(&blocks(24, None), true) {
        (Pass::Found { bytes, offsets, rows }, 3) => {
            assert_eq!(bytes, &LETTERS[..14]);
            assert_eq!(offsets.len(), 24);
            assert_eq!(rows.len(), 1);
            assert_eq!((rows[0].count, rows[0].score), (24, 336));
        }
        other => panic!("{:?}", other),
    }
}

#[test]
fn strings_do_not_begin_before_the_data() {
    let data = blocks(30, Some(b'z'));
    assert!(matches!(search(&data, false), (Pass::OutOfData, 2)));
    assert!(matches!(search(&data, true), (Pass::Found { .. }, 9)));
}
