use duckomp::fitting::{best_fit_cached, coefficient_window, fast_pow, PowCache, Term};
use duckomp::natural::Natural;
use duckomp::solver::{
    base_candidates, digits, fmt_equation, fmt_term, greedy, insert_top_k, rank_bases, solve,
    verify_equation, Estimate, Ranked, COEF_BITS,
};
use num_bigint::BigUint;

fn natural(x: &BigUint) -> Natural {
    Natural::from_digits(x.to_u32_digits())
}

fn big_of(n: &Natural) -> BigUint {
    BigUint::from_slice(&n.digits)
}

fn big(x: u128) -> BigUint {
    BigUint::from(x)
}

fn approx_log2(x: &BigUint) -> f64 {
    let digits = x.to_u64_digits();
    if digits.is_empty() {
        return 0.0;
    }
    let top = digits[digits.len() - 1] as f64;
    64.0 * (digits.len() as f64 - 1.0) + top.log2()
}

fn estimate_score(base: u64, l2v: f64, coef_bits: u32) -> (u32, usize, f64) {
    let l2n = (base as f64).log2();
    let mut e = (l2v / l2n) as u32;
    let mut d = l2v - e as f64 * l2n;
    if d < 0.0 {
        if e > 0 {
            e -= 1;
        }
        d += l2n;
    }
    if d >= l2n {
        e += 1;
        d -= l2n;
    }
    let w = (coef_bits as f64 / l2n).floor() as u32;
    let ratio = d.exp2();
    let a_f = ratio.floor();
    let mut frac = ratio - a_f;
    let mut a_digits = digits(a_f as u64);
    let mut best_score = f64::NEG_INFINITY;
    let mut best_e = e;
    let mut best_a_digits = a_digits;
    for _ in 0..=w {
        if e > 0 {
            let m = frac.min(1.0 - frac).max(1e-12);
            let gap_bits = e as f64 * l2n + m.log2();
            let bits_removed = (l2v - gap_bits).max(0.0);
            if bits_removed > best_score {
                best_score = bits_removed;
                best_e = e;
                best_a_digits = a_digits;
            }
        }
        if e == 0 {
            break;
        }
        let scaled = frac * base as f64;
        a_digits += digits(base);
        frac = scaled - scaled.floor();
        e -= 1;
    }
    (best_e, best_a_digits, best_score)
}

/// An integer that orders as the score does.
fn score_key(score: f64) -> i64 {
    if score == f64::NEG_INFINITY {
        i64::MIN
    } else {
        score.abs().to_bits() as i64
    }
}

fn estimate(value: &Natural, base: u64, coef_bits: u32) -> Estimate {
    let (e, a_digits, score) = estimate_score(base, approx_log2(&big_of(value)), coef_bits);
    Estimate { e, a_digits, score: score_key(score) }
}

/// An estimate that says the same of every base.
fn indifferent(_value: &Natural, _base: u64, _coef_bits: u32) -> Estimate {
    Estimate { e: 0, a_digits: 1, score: 0 }
}

#[test]
fn fast_pow_matches_biguint_pow() {
    for base in 2u64..=200 {
        for e in 0u32..=30 {
            assert_eq!(big_of(&fast_pow(base, e)), BigUint::from(base).pow(e), "base={base} e={e}");
        }
    }
}

#[test]
fn fast_pow_of_zero_one_and_large_bases() {
    assert_eq!(big_of(&fast_pow(0, 0)), big(1));
    assert_eq!(big_of(&fast_pow(0, 5)), big(0));
    assert_eq!(big_of(&fast_pow(1, 9)), big(1));
    assert_eq!(big_of(&fast_pow((1 << 53) + 1, 2)), big(((1u128 << 53) + 1) * ((1u128 << 53) + 1)));
    assert_eq!(big_of(&fast_pow(1 << 63, 2)), big(1u128 << 126));
}

#[test]
fn pow_cache_is_consistent() {
    for base in 2u64..=64 {
        let mut c = PowCache::new(base);
        for &v in &[1u64, 2, 7, 63, 64, 100, 999, 1_000_000, 1_000_000_000] {
            let v = big(v as u128);
            c.seed(&natural(&v));
            let p = big_of(&c.p);
            assert!(p <= v, "base={base} v={v}");
            assert!(&p * BigUint::from(base) > v, "base={base} v={v}");
            assert_eq!(p, big_of(&fast_pow(c.base, c.e)), "base={base}");
        }
    }
}

#[test]
fn pow_cache_moves_both_ways() {
    let mut c = PowCache::new(10);
    assert!(!c.seeded);
    c.seed(&Natural::from_u64(123456));
    assert_eq!((c.e, big_of(&c.p)), (5, big(100000)));
    c.sync(&Natural::from_u64(99));
    assert_eq!((c.e, big_of(&c.p)), (1, big(10)));
    c.sync(&Natural::from_u64(1_000_000_000));
    assert_eq!((c.e, big_of(&c.p)), (9, big(1_000_000_000)));
    assert!(c.seeded);
}

#[test]
fn best_fit_is_consistent() {
    for base in 2u64..=20 {
        let mut c = PowCache::new(base);
        for v in 1u64..=1000 {
            let val = big(v as u128);
            let (t, gap) = best_fit_cached(&natural(&val), base, &mut c, 10);
            let term = big_of(&t.coef) * BigUint::from(base).pow(t.exp);
            let expect = if term > val { term - &val } else { &val - term };
            assert_eq!(big_of(&gap), expect, "base={base} v={v}");
            assert!(
                t.coef.bits() <= 10 + (base as f64).log2() as u64 + 1,
                "base={base} v={v} coef too big: {} bits",
                t.coef.bits()
            );
        }
    }
}

#[test]
fn best_fit_takes_the_closer_side() {
    let mut c = PowCache::new(10);
    let (t, gap) = best_fit_cached(&Natural::from_u64(999), 10, &mut c, 0);
    assert_eq!((t.exp, big_of(&t.coef), t.ceil, big_of(&gap)), (2, big(10), true, big(1)));
    let (t, gap) = best_fit_cached(&Natural::from_u64(702), 10, &mut c, 0);
    assert_eq!((t.exp, big_of(&t.coef), t.ceil, big_of(&gap)), (2, big(7), false, big(2)));
    assert_eq!(coefficient_window(10, 10), 3);
    assert_eq!(coefficient_window(2, 10), 10);
    assert_eq!(coefficient_window(1025, 10), 0);
}

#[test]
fn greedy_zeroes_seed_and_verifies() {
    let seeds = [
        big(42),
        big(123_456_789),
        big(1_776_131_265_209_184_858_631_281_479_792_477_464),
        BigUint::from(u64::MAX) * BigUint::from(u64::MAX),
        (BigUint::from(1u64) << 150) + big(999),
    ];
    for (i, seed) in seeds.iter().enumerate() {
        for &max_base in &[99u64, 1024, 65536] {
            let (terms, magic_sign, magic) =
                greedy(&natural(seed), 4000, max_base, COEF_BITS, &estimate);
            assert!(
                magic.is_zero(),
                "seed {i} base {max_base}: magic left with {} bits",
                magic.bits()
            );
            assert!(
                verify_equation(&natural(seed), &terms, magic_sign, &magic),
                "seed {i} base {max_base}: replay failed"
            );
        }
    }
}

#[test]
fn higher_bases_cannot_hurt_best_score() {
    let seed = natural(&((BigUint::from(1u64) << 500) + big(0xDEAD_BEEF)));
    let score = |max_base: u64| {
        f64::from_bits(rank_bases(&seed, max_base, 1, COEF_BITS, &estimate)[0].estimate.score as u64)
    };
    let s99 = score(99);
    let s1024 = score(1024);
    let s65536 = score(65536);
    assert!(s1024 >= s99 - 1e-9, "1024 should be >= 99: {s1024} vs {s99}");
    assert!(s65536 >= s1024 - 1e-9, "65536 should be >= 1024: {s65536} vs {s1024}");
}

#[test]
fn rank_bases_returns_sorted_top_k() {
    let seed = natural(&((BigUint::from(1u64) << 500) + big(12_345)));
    let r = rank_bases(&seed, 1024, 10, COEF_BITS, &estimate);
    assert_eq!(r.len(), 10, "must fill k slots");
    for w in r.windows(2) {
        assert!(
            w[0].estimate.score >= w[1].estimate.score,
            "must be sorted by score descending"
        );
    }
    assert!(r.iter().all(|x| x.base >= 2 && x.base <= 1024));
}

#[test]
fn rank_bases_keeps_the_order_of_equals() {
    let r = rank_bases(&Natural::from_u64(77), 100, 3, COEF_BITS, &indifferent);
    assert_eq!(r.iter().map(|x| x.base).collect::<Vec<u64>>(), vec![2, 3, 4]);
    let r = rank_bases(&Natural::from_u64(77), 3, 10, COEF_BITS, &indifferent);
    assert_eq!(r.iter().map(|x| x.base).collect::<Vec<u64>>(), vec![2, 3]);
}

#[test]
fn insert_top_k_drops_the_worst() {
    let entry = |base: u64, score: i64| Ranked { base, estimate: Estimate { e: 0, a_digits: 1, score } };
    let mut best = Vec::new();
    for (base, score) in [(2, 5), (3, 9), (4, 5), (5, 1), (6, 7)] {
        insert_top_k(&mut best, entry(base, score), 3);
    }
    assert_eq!(best, vec![entry(3, 9), entry(6, 7), entry(2, 5)]);
    insert_top_k(&mut best, entry(7, 5), 3);
    assert_eq!(best, vec![entry(3, 9), entry(6, 7), entry(2, 5)]);
}

#[test]
fn base_candidates_are_dense_then_sparse() {
    assert_eq!(base_candidates(1), Vec::<u64>::new());
    assert_eq!(base_candidates(5), vec![2, 3, 4, 5]);
    let v = base_candidates(3000);
    assert_eq!(v.len(), 1023 + 4);
    assert_eq!(v[1023..], [2000, 2048, 2560, 3000]);
    assert_eq!(v[1022], 1024);
}

#[test]
fn base_candidates_near_powers_and_round_numbers() {
    let v = base_candidates(65536);
    for c in [1024, 2000, 2048, 2560, 3000, 3072, 4096, 5120, 6144, 20000, 30000, 49152, 65536] {
        assert!(v.contains(&c), "{c}");
    }
    for c in [1025, 2001, 3500, 65535] {
        assert!(!v.contains(&c), "{c}");
    }
    assert!(v.windows(2).all(|w| w[0] < w[1]));
}

#[test]
fn digits_counts_decimal_digits() {
    assert_eq!(digits(0), 1);
    assert_eq!(digits(9), 1);
    assert_eq!(digits(10), 2);
    assert_eq!(digits(u64::MAX), 20);
}

fn term(base: u64, exp: u32, coef: u64, ceil: bool) -> Term {
    Term { base, exp, coef: Natural::from_u64(coef), ceil }
}

#[test]
fn terms_are_written_with_a_middle_dot() {
    assert_eq!(fmt_term(&term(7, 3, 1, false)), "7^3");
    assert_eq!(fmt_term(&term(7, 0, 12, true)), "12\u{b7}7^0");
}

#[test]
fn equations_are_written_with_signs() {
    let terms = vec![(1i8, term(10, 2, 3, true)), (-1i8, term(2, 3, 1, false))];
    assert_eq!(fmt_equation(&terms, -1, &Natural::from_u64(4)), "seed = 3\u{b7}10^2 - 2^3 - 4");
    assert_eq!(fmt_equation(&terms, 1, &Natural::zero()), "seed = 3\u{b7}10^2 - 2^3");
    assert_eq!(fmt_equation(&Vec::new(), 1, &Natural::from_u64(9)), "seed =  + 9");
}

#[test]
fn equations_are_verified_exactly() {
    let terms = vec![(1i8, term(10, 2, 3, true)), (-1i8, term(2, 3, 1, false))];
    let seed = Natural::from_u64(288);
    assert!(verify_equation(&seed, &terms, -1, &Natural::from_u64(4)));
    assert!(!verify_equation(&seed, &terms, 1, &Natural::from_u64(4)));
    assert!(!verify_equation(&seed, &terms, -1, &Natural::from_u64(5)));
    assert!(!verify_equation(&Natural::from_u64(301), &terms, -1, &Natural::from_u64(4)));
    assert!(!verify_equation(&Natural::from_u64(293), &terms, -1, &Natural::from_u64(4)));
}

#[test]
fn solve_returns_verified_equation() {
    let seed = natural(&big(1_776_131_265_209_184_858_631_281_479_792_477_464));
    let r = solve(&seed, 200, 1024, &estimate);
    assert!(r.ok, "verify must pass");
    assert!(r.magic.is_zero(), "small seed should be fully consumed");
    assert!(r.equation.starts_with("seed = "));
    assert!(!r.equation.contains(" + 0") && !r.equation.contains(" - 0"));
}

#[test]
fn solve_respects_max_terms_cap() {
    let mut state = 0x1234_5678_9abc_def0u64;
    let mut seed = BigUint::from(0u64);
    for _ in 0..7 {
        state = state
            .wrapping_mul(6_364_136_223_846_793_005)
            .wrapping_add(1_442_695_040_888_963_407);
        seed = (seed << 64) | BigUint::from(state);
    }
    let mask = (BigUint::from(1u64) << 400) - BigUint::from(1u64);
    seed &= mask;
    assert_eq!(seed.bits(), 400, "seed should be a full 400-bit number");
    let r = solve(&natural(&seed), 5, 1024, &estimate);
    assert!(r.ok, "verify must pass");
    assert!(r.terms <= 5, "must fold into at most 5 terms, got {}", r.terms);
    assert!(r.magic.bits() <= 32, "magic must fit a u32, got {} bits", r.magic.bits());
}

#[test]
fn folds_into_24_terms_with_u32_magic() {
    let mut state = 0xdead_beef_cafe_f00du64;
    let mut seed = BigUint::from(0u64);
    for _ in 0..64 {
        state = state.wrapping_mul(2_862_933_555_777_941_757).wrapping_add(3_037_000_493);
        seed = (seed << 32) | BigUint::from(state & 0xFFFF_FFFF);
    }
    seed |= BigUint::from(1u64) << 2047;
    assert_eq!(seed.bits(), 2048, "seed should be a full 2048-bit number");
    let r = solve(&natural(&seed), 24, 65536, &estimate);
    assert!(r.ok, "verify must pass");
    assert!(r.terms <= 24, "must fold into at most 24 terms, got {}", r.terms);
    assert!(r.magic.bits() <= 32, "magic must fit a u32, got {} bits", r.magic.bits());
}

#[test]
fn solve_is_exact_whatever_the_estimate() {
    let seed = natural(&((BigUint::from(1u64) << 300) - big(12345)));
    let r = solve(&seed, 3, 50, &indifferent);
    assert!(r.ok);
    assert!(r.terms <= 3);
    assert!(r.magic.is_zero());
}

/// The value of a written equation, read from the left: what is added and what is taken off.
fn read_back(equation: &str) -> BigUint {
    let term = |s: &str| -> BigUint {
        let (coef, power) = match s.split_once('\u{b7}') {
            Some((c, p)) => (c.parse::<BigUint>().unwrap(), p),
            None => (big(1), s),
        };
        match power.split_once('^') {
            Some((b, e)) => coef * b.parse::<BigUint>().unwrap().pow(e.parse::<u32>().unwrap()),
            None => power.parse::<BigUint>().unwrap(),
        }
    };
    let body = equation.strip_prefix("seed = ").unwrap();
    let mut plus = big(0);
    let mut minus = big(0);
    let mut negative = false;
    for word in body.split(' ').filter(|w| !w.is_empty()) {
        match word {
            "+" => negative = false,
            "-" => negative = true,
            t if negative => minus += term(t),
            t => plus += term(t),
        }
    }
    plus - minus
}

#[test]
fn equations_read_back_as_the_seed() {
    let mut seed = big(0xfeed_beef);
    for k in 0..12u32 {
        for terms in [1, 2, 7] {
            let r = solve(&natural(&seed), terms, 1024, &estimate);
            assert_eq!(read_back(&r.equation), seed);
            let r = solve(&natural(&seed), terms, 3, &indifferent);
            assert_eq!(read_back(&r.equation), seed);
        }
        seed = &seed * &seed % (BigUint::from(1u64) << 500) + big(k as u128 + 3);
    }
    assert_eq!(read_back(&solve(&Natural::zero(), 3, 9, &indifferent).equation), big(0));
}

#[test]
fn terms_and_rest_add_up_to_the_seed() {
    let seed = big(987_654_321_987_654_321_987_654_321);
    for max_terms in 0..4 {
        let (terms, sign, magic) = greedy(&natural(&seed), max_terms, 7, 40, &indifferent);
        assert!(terms.len() <= max_terms);
        assert!(magic.is_zero() || terms.len() == max_terms);
        assert!(terms.iter().all(|t| (2..=7).contains(&t.1.base)));
        assert!(verify_equation(&natural(&seed), &terms, sign, &magic));
        let (mut plus, mut minus) = (big(0), big(0));
        for (s, t) in &terms {
            let v = big_of(&t.coef) * BigUint::from(t.base).pow(t.exp);
            if *s > 0 { plus += v } else { minus += v }
        }
        if sign > 0 { plus += big_of(&magic) } else { minus += big_of(&magic) }
        assert_eq!(plus, seed.clone() + minus);
    }
}

#[test]
fn larger_limits_estimate_no_worse() {
    let seed = natural(&big(123_456_789_012_345_678_901_234_567));
    let mut best = i64::MIN;
    for limit in [2, 3, 10, 100, 1024, 2048, 5000, 100_000] {
        let score = rank_bases(&seed, limit, 3, COEF_BITS, &estimate)[0].estimate.score;
        assert!(score >= best);
        best = score;
    }
}

#[test]
fn solve_of_zero_has_no_terms() {
    let r = solve(&Natural::zero(), 3, 0, &indifferent);
    assert_eq!((r.equation.as_str(), r.terms, r.magic_sign, r.ok), ("seed = ", 0, 1, true));
}

#[test]
fn solve_writes_a_small_power() {
    let r = solve(&Natural::from_u64(1024), 4, 2, &estimate);
    assert_eq!(r.equation, "seed = 2^10");
}

#[test]
fn natural_arithmetic() {
    let a = Natural::from_u128(0x1_0000_0000_0000_0000_0000_0000u128 + 5);
    let b = Natural::from_u64(0xffff_ffff_ffff_fff0);
    let (x, y) = (big_of(&a), big_of(&b));
    assert_eq!(x, big(0x1_0000_0000_0000_0000_0000_0005));
    assert_eq!(big_of(&a.plus(&b)), &x + &y);
    assert_eq!(big_of(&a.minus(&b)), &x - &y);
    assert_eq!(big_of(&a.times(&b)), &x * &y);
    assert_eq!(big_of(&a.divided_by(&b)), &x / &y);
    assert_eq!(big_of(&a.power(3)), x.pow(3));
    assert_eq!(big_of(&a.shifted(70)), &x << 70);
    assert_eq!(a.bits(), 97);
    assert!(b.at_most(&a) && !a.at_most(&b));
    assert!(a.equals(&a.copy()) && !a.equals(&b));
    assert_eq!(a.to_decimal(), "79228162514264337593543950341");
    assert_eq!(Natural::zero().to_decimal(), "0");
    assert!(Natural::from_u64(0).is_zero());
}
