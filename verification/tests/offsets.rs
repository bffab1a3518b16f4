use duckomp::fitting::fast_pow;
use duckomp::lcg::{modinv_odd_u64, plan_search, Batches, SearchError, A, C};
use duckomp::natural::Natural;
use duckomp::offsets::{
    adjacent_offsets, calculate_offsets, offset_range, pack_offsets, parse_number, parse_signed,
    Offsets, SignedLine,
};
use duckomp::pond::{plan_pond, power_checked, Pond, PondError};
use duckomp::report::{fold_numbers, report, FoldError};
use duckomp::solver::{solve, Estimate, SolverResult};

fn chars(s: &str) -> Vec<char> {
    s.chars().collect()
}

#[test]
fn numbers_are_parsed_as_std_parses_them() {
    for s in [
        "0", "42", " 42 ", "+7", "\t340282366920938463463374607431768211455\r", "00012",
        "340282366920938463463374607431768211456", "", "+", "-1", "1 2", "4x", "\u{a0}9\u{3000}",
        "++1", "1_000", "\u{661}",
    ] {
        assert_eq!(parse_number(&chars(s)), s.trim().parse::<u128>().ok(), "{s:?}");
    }
}

#[test]
fn offsets_are_distances() {
    assert_eq!(adjacent_offsets(&[5, 8, 4, 4]), vec![3, 4, 0]);
    assert_eq!(adjacent_offsets(&[5]), Vec::<u128>::new());
    assert_eq!(adjacent_offsets(&[]), Vec::<u128>::new());
    assert_eq!(offset_range(&vec![3, 9, 4]), (3, 9));
    assert_eq!(
        calculate_offsets(vec![10, 13, 17, 16, 20, 21]),
        Offsets { low: 1, high: 4, count: 6 }
    );
    assert_eq!(calculate_offsets(vec![]), Offsets { low: u128::MAX, high: 0, count: 0 });
    assert_eq!(calculate_offsets(vec![7]), Offsets { low: u128::MAX, high: 0, count: 1 });
}

fn pond(low: u128, high: u128, count: u128) -> Pond {
    plan_pond(&Offsets { low, high, count }).unwrap()
}

#[test]
fn pond_lists_every_permutation() {
    let p = pond(1, 4, 5);
    assert_eq!(p.total, 1024);
    assert_eq!(p.offsets_at(0), vec![1, 1, 1, 1, 1]);
    assert_eq!(p.offsets_at(85), vec![1, 2, 2, 2, 2]);
    assert_eq!(p.offsets_at(1022), vec![4, 4, 4, 4, 3]);
    assert_eq!(p.offsets_at(1023), vec![4, 4, 4, 4, 4]);
    let mut seen: Vec<Vec<u128>> = (0..p.total).map(|s| p.offsets_at(s)).collect();
    assert!(seen.windows(2).all(|w| w[0] < w[1]));
    seen.dedup();
    assert_eq!(seen.len(), 1024);
}

#[test]
fn pond_of_three_values() {
    let p = pond(1, 3, 5);
    assert_eq!(p.total, 243);
    assert_eq!(p.offsets_at(40), vec![1, 2, 2, 2, 2]);
    assert_eq!(p.offsets_at(41), vec![1, 2, 2, 2, 3]);
    assert_eq!(p.offsets_at(42), vec![1, 2, 2, 3, 1]);
    assert_eq!(p.offsets_at(106), vec![2, 1, 3, 3, 2]);
    assert_eq!(p.offsets_at(107), vec![2, 1, 3, 3, 3]);
}

#[test]
fn pond_entries_start_files_by_first_offset() {
    let p = pond(1, 3, 2);
    let e = p.entry(0, None);
    assert_eq!((e.first, e.line.as_str()), (1, "0: [1,1]\n"));
    assert_eq!(e.new_file.unwrap(), "output/offsets_1.txt");
    assert!(p.entry(2, Some(1)).new_file.is_none());
    let e = p.entry(5, Some(1));
    assert_eq!((e.first, e.line.as_str()), (2, "5: [2,3]\n"));
    assert_eq!(e.new_file.unwrap(), "output/offsets_2.txt");
}

#[test]
fn ponds_can_be_empty_or_too_large() {
    assert_eq!(
        plan_pond(&Offsets { low: u128::MAX, high: 0, count: 0 }),
        Err(PondError::Empty)
    );
    assert_eq!(plan_pond(&Offsets { low: 0, high: 1, count: 128 }), Err(PondError::TooLarge));
    assert_eq!(pond(0, 1, 127).total, 1 << 127);
    assert_eq!(pond(9, 9, 1000).total, 1);
    assert_eq!(power_checked(10, 38), Some(10u128.pow(38)));
    assert_eq!(power_checked(10, 39), None);
}

#[test]
fn packed_offsets_unpack() {
    let data = [10u128, 13, 17, 16, 20, 21];
    let f = fold_numbers(&data).unwrap();
    assert_eq!((f.low, f.high), (1, 4));
    let expected = [2u64, 3, 0, 3, 0].iter().fold(0, |n, d| n * 4 + d);
    assert!(f.seed.equals(&Natural::from_u64(expected)));
    assert_eq!(pond(1, 4, 5).offsets_at(expected as u128), adjacent_offsets(&data));
    let packed = pack_offsets(&vec![7, 7, 8], 7, 8);
    assert!(packed.equals(&Natural::from_u64(1)));
}

#[test]
fn packing_a_wide_range() {
    let f = fold_numbers(&[0, u128::MAX, u128::MAX - 1]).unwrap();
    assert_eq!((f.low, f.high), (1, u128::MAX));
    let top = Natural::from_u128(u128::MAX - 1);
    assert!(f.seed.equals(&top.times(&Natural::from_u128(u128::MAX))));
    assert_eq!(f.seed.bits(), 256);
}

#[test]
fn lists_without_a_seed() {
    assert_eq!(fold_numbers(&[3]).err(), Some(FoldError::TooFew));
    assert_eq!(fold_numbers(&[]).err(), Some(FoldError::TooFew));
    assert_eq!(fold_numbers(&[0, 0, u128::MAX]).err(), Some(FoldError::TooWide));
}

fn indifferent(_value: &Natural, _base: u64, _coef_bits: u32) -> Estimate {
    Estimate { e: 0, a_digits: 1, score: 0 }
}

#[test]
fn reports_list_seed_and_equation() {
    let f = fold_numbers(&[0, 16, 16]).unwrap();
    let r = solve(&f.seed, 32, 65536, &indifferent);
    assert!(r.ok && r.magic.is_zero());
    let text = report(&f, 3, &r);
    assert_eq!(
        text,
        format!(
            "Offset Low: 0\nOffset High: 16\nCount: 3\nSeed:\n272\nSolver Equation:\n{}\nVerify: true\n",
            r.equation
        )
    );
}

#[test]
fn reports_mention_a_rest() {
    let f = fold_numbers(&[0, 16, 16]).unwrap();
    let mut r = SolverResult {
        equation: String::from("seed = 2^8 + 16"),
        magic: Natural::from_u64(16),
        magic_sign: 1,
        terms: 1,
        ok: false,
    };
    assert!(report(&f, 3, &r).ends_with("seed = 2^8 + 16\nMagic: 16\nVerify: false\n"));
    r.magic_sign = -1;
    assert!(report(&f, 3, &r).contains("\nMagic: -16\n"));
}

#[test]
fn modular_inverse_of_odd_numbers() {
    for a in [1u64, 3, 5, 0xdead_beef, A, u64::MAX] {
        assert_eq!(a.wrapping_mul(modinv_odd_u64(a)), 1, "{a}");
    }
    assert_eq!(modinv_odd_u64(3), 0xaaaa_aaaa_aaaa_aaab);
    assert_eq!(modinv_odd_u64(0), 64);
}

fn outputs(seed: u64, low: i64, range: u64, n: usize) -> Vec<i64> {
    let mut state = seed;
    (0..n)
        .map(|_| {
            state = A.wrapping_mul(state).wrapping_add(C);
            low + (state % range) as i64
        })
        .collect()
}

#[test]
fn searches_find_the_generating_seed() {
    let seed = 0x0123_4567_89ab_cdef;
    let diffs = outputs(seed, 10, 91, 12);
    let mut values = vec![1000i64];
    for d in &diffs {
        values.push(values[values.len() - 1] + d);
    }
    let (found, search) = plan_search(&values).unwrap();
    assert_eq!(found, diffs);
    assert_eq!(search.offset_low, *diffs.iter().min().unwrap());
    assert_eq!(search.offset_high, *diffs.iter().max().unwrap());
    assert_eq!(search.range, (search.offset_high - search.offset_low + 1) as u64);
    assert_eq!(search.num_candidates, u64::MAX / search.range + 1);
    assert_eq!(search.target0, (diffs[0] - search.offset_low) as u64);
    // A seed that gives the offsets in the range that the offsets span is a candidate.
    let own = outputs(seed, search.offset_low, search.range, diffs.len());
    let first = A.wrapping_mul(seed).wrapping_add(C);
    let k = first / search.range;
    if own[0] == diffs[0] {
        assert_eq!(search.candidate_seed(k), seed);
    }
    assert!(search.matches_diffs(&own, seed));
    assert!(!search.matches_diffs(&own, seed.wrapping_add(1)));
}

#[test]
fn candidates_have_the_first_offset() {
    let (diffs, search) = plan_search(&[0, 7, 10, 20]).unwrap();
    assert_eq!(diffs, vec![7, 3, 10]);
    for k in [0u64, 1, 12345, 1 << 40] {
        let seed = search.candidate_seed(k);
        let first = A.wrapping_mul(seed).wrapping_add(C);
        assert_eq!(first, search.target0 + k * search.range);
        assert!(search.matches_diffs(&diffs[..1], seed));
    }
}

#[test]
fn searches_of_one_offset_have_one_candidate_less() {
    let (diffs, search) = plan_search(&[5, 3, 1]).unwrap();
    assert_eq!(diffs, vec![2, 2]);
    assert_eq!((search.range, search.num_candidates), (1, u64::MAX));
}

#[test]
fn searches_that_cannot_be() {
    assert_eq!(plan_search(&[1]).err(), Some(SearchError::TooFew));
    assert_eq!(plan_search(&[i64::MIN, 0]).err(), Some(SearchError::TooWide));
    assert_eq!(plan_search(&[i64::MIN, i64::MAX]).err(), Some(SearchError::TooWide));
    assert_eq!(plan_search(&[0, 0, i64::MAX]).err(), Some(SearchError::TooWide));
}

#[test]
fn values_are_reconstructed() {
    let (_, search) = plan_search(&[0, 7, 10, 20]).unwrap();
    let seed = 99;
    let steps = outputs(seed, search.offset_low, search.range, 3);
    let v = search.reconstruct(100, 3, seed).unwrap();
    assert_eq!(v, vec![100, 100 + steps[0], 100 + steps[0] + steps[1], 100 + steps.iter().sum::<i64>()]);
    assert_eq!(search.reconstruct(5, 0, seed), Some(vec![5]));
    assert_eq!(search.reconstruct(i64::MAX, 1, seed), None);
}

#[test]
fn batches_run_until_found_or_done() {
    let mut b = Batches::begin();
    assert_eq!(b.next_start(250), Some(0));
    b.take(100, None);
    b.take(100, None);
    assert_eq!((b.next_start(250), b.checked(250), b.number), (Some(200), 200, 2));
    b.take(100, None);
    assert_eq!((b.next_start(250), b.checked(250)), (None, 250));
    let mut b = Batches::begin();
    b.take(u64::MAX, None);
    b.take(u64::MAX, Some(17));
    assert_eq!((b.k_start, b.next_start(u64::MAX), b.found), (u64::MAX, None, Some(17)));
}

#[test]
fn powers_name_the_pond_size() {
    assert!(fast_pow(4, 5).equals(&Natural::from_u128(pond(1, 4, 5).total)));
}

#[test]
fn signed_lines_are_parsed() {
    let parse = |s: &str| parse_signed(&chars(s));
    assert_eq!(parse(" \t"), SignedLine::Blank);
    assert_eq!(parse(""), SignedLine::Blank);
    assert_eq!(parse(" -42\r"), SignedLine::Value(-42));
    assert_eq!(parse("+7"), SignedLine::Value(7));
    assert_eq!(parse("-0"), SignedLine::Value(0));
    assert_eq!(parse("9223372036854775807"), SignedLine::Value(i64::MAX));
    assert_eq!(parse("-9223372036854775808"), SignedLine::Value(i64::MIN));
    for bad in ["9223372036854775808", "-9223372036854775809", "-", "+", "1 2", "--1", "0x1"] {
        assert_eq!(parse(bad), SignedLine::Invalid);
        assert!(bad.parse::<i64>().is_err());
    }
}
