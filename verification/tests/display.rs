use duckomp::coefficients::{
    build_coeff_freqs, build_symbols, sample_step, EquationTerm, Pair, Symbols,
};
use duckomp::display::{fmt_size, hex_fmt};
use duckomp::memory::{parse_memory, shows_progress};
use duckomp::shorthand::apply_dec_shorthand;
use duckomp::windows::WindowCount;

#[test]
fn bytes_are_shown_as_text_or_hex() {
    assert_eq!(hex_fmt(b""), "<empty>");
    assert_eq!(hex_fmt(b"plain text ~!"), "plain text ~!");
    assert_eq!(hex_fmt(b"tab\t"), "0x74616209");
    assert_eq!(hex_fmt(&[0x00, 0xff, 0x7f]), "0x00ff7f");
    let long = vec![0xabu8; 65];
    assert_eq!(hex_fmt(&long), format!("0x{}..", "ab".repeat(64)));
    assert_eq!(hex_fmt(&long[..64]), format!("0x{}", "ab".repeat(64)));
    assert_eq!(hex_fmt(&vec![b'x'; 100]), "x".repeat(100));
}

#[test]
fn sizes_are_shown_as_doubles_are() {
    let expected = |b: usize| {
        if b < 1024 {
            format!("{} B", b)
        } else if b < 1048576 {
            format!("{} ({:.1} KB)", b, b as f64 / 1024.0)
        } else {
            format!("{} ({:.1} MB)", b, b as f64 / 1048576.0)
        }
    };
    for b in [
        0, 1, 1023, 1024, 1075, 1076, 1280, 1792, 52428, 1048575, 1048576, 1101004, 1101005,
        1310720, 123456789, 5_368_709_120, (1 << 53) - 1, (1 << 53) + 1, (1 << 53) + 3,
        (1 << 60) + 12345, usize::MAX, usize::MAX - 1024,
    ] {
        assert_eq!(fmt_size(b), expected(b), "{b}");
    }
    assert_eq!(fmt_size(1280), "1280 (1.2 KB)");
    assert_eq!(fmt_size(1792), "1792 (1.8 KB)");
}

fn shorthand(num: &str, pairs: &[(&str, &str)]) -> String {
    let map: Vec<(String, String)> =
        pairs.iter().map(|(a, b)| (a.to_string(), b.to_string())).collect();
    apply_dec_shorthand(num, &map)
}

#[test]
fn shorthand_replaces_what_follows_the_point() {
    assert_eq!(shorthand("12.345", &[("345", "d")]), "12.d");
    assert_eq!(shorthand("12.9345", &[("345", "d")]), "12.9345");
    assert_eq!(shorthand("1.2.34", &[("34", "d")]), "1.2.d");
}

#[test]
fn shorthand_replaces_parts_before_the_point() {
    assert_eq!(shorthand("1234", &[("23", "d")]), "1d4");
    assert_eq!(shorthand("2323", &[("23", "d")]), "dd");
    assert_eq!(shorthand("4523.1", &[("23", "d"), ("45", "f")]), "45d.1");
    assert_eq!(shorthand("1.23", &[("23", "d")]), "1.d");
    assert_eq!(shorthand("e-05", &[("05", "d")]), "e-05");
    assert_eq!(shorthand("1e-05", &[("1e", "d")]), "1e-05");
}

#[test]
fn shorthand_takes_the_first_pair_that_applies() {
    assert_eq!(shorthand("123456", &[("1234", "d"), ("56", "f")]), "df");
    assert_eq!(shorthand("123456", &[("56", "f"), ("1234", "d")]), "1234f");
    assert_eq!(shorthand("77", &[]), "77");
}

#[test]
fn shorthand_reads_back() {
    let pairs = [("123", "d"), ("45", "f"), ("99", "h")];
    for num in ["123.45", "4599.123", "123", "0.99", "45123"] {
        let short = shorthand(num, &pairs);
        let mut back = String::new();
        for c in short.chars() {
            match pairs.iter().find(|(_, v)| v.starts_with(c)) {
                Some((part, _)) => back.push_str(part),
                None => back.push(c),
            }
        }
        assert_eq!(back, num);
        assert!(short.len() < num.len());
    }
}

fn count<'a>(list: &'a [WindowCount], key: &str) -> Option<usize> {
    list.iter().find(|w| w.chunk == key.as_bytes()).map(|w| w.count)
}

fn segs(list: &[&[&str]]) -> Vec<Vec<Vec<u8>>> {
    list.iter().map(|s| s.iter().map(|n| n.as_bytes().to_vec()).collect()).collect()
}

#[test]
fn shorthand_is_final_and_no_longer() {
    let rules: Vec<(String, String)> = [("1234", "d"), ("56", "f"), ("d7", "h"), ("9", "k")]
        .iter()
        .map(|(a, b)| (a.to_string(), b.to_string()))
        .collect();
    for num in ["12347.56", "561234", "9.9", "0.1234", "", "77", "1234561234"] {
        let once = apply_dec_shorthand(num, &rules);
        assert!(once.chars().count() <= num.len());
        assert_eq!(apply_dec_shorthand(&once, &rules), once);
    }
}

#[test]
fn coefficient_parts_are_counted() {
    let (parts, wholes) = build_coeff_freqs(&segs(&[&["123.45", "7.5"], &["123.45"]]), 1);
    let names: Vec<&[u8]> = parts.iter().map(|w| w.chunk.as_slice()).collect();
    assert_eq!(names, vec![&b"45"[..], b"12", b"123", b"23"]);
    assert_eq!(count(&parts, "45"), Some(2));
    assert_eq!(count(&parts, "123"), Some(2));
    assert_eq!(count(&wholes, "123.45"), Some(2));
    assert_eq!(count(&wholes, "7.5"), Some(1));
    assert_eq!(wholes.len(), 2);
}

#[test]
fn long_parts_are_cut_and_every_nth_equation_is_taken() {
    let (parts, wholes) = build_coeff_freqs(&segs(&[&["1234567"], &["99"], &["1234567"]]), 2);
    assert_eq!(count(&parts, "123456"), Some(2));
    assert_eq!(count(&parts, "1234567"), None);
    assert_eq!(count(&parts, "67"), Some(2));
    assert_eq!(count(&parts, "99"), None);
    assert_eq!(count(&wholes, "1234567"), Some(2));
    assert_eq!(sample_step(20000), 1);
    assert_eq!(sample_step(65000), 3);
}

fn counted(list: &[(&str, usize)]) -> Vec<WindowCount> {
    list.iter().map(|(s, c)| WindowCount { chunk: s.as_bytes().to_vec(), count: *c }).collect()
}

fn pairs(list: &[Pair]) -> Vec<(String, char)> {
    list.iter().map(|p| (String::from_utf8(p.part.clone()).unwrap(), p.symbol)).collect()
}

#[test]
fn symbols_go_to_the_most_useful_parts() {
    let s = build_symbols(
        &counted(&[("12", 2), ("34", 9), ("5678", 4), ("9", 50)]),
        &counted(&[("1.5", 3), ("34", 7), ("8.25", 2)]),
    );
    assert_eq!(pairs(&s.letters), vec![("5678".into(), 'f'), ("34".into(), 'd')]);
    assert_eq!(pairs(&s.wholes), vec![("1.5".into(), '#')]);
    assert_eq!(pairs(&s.further), vec![]);
    assert_eq!(
        s.rules,
        vec![("5678".to_string(), "f".to_string()), ("34".to_string(), "d".to_string())]
    );
    assert_eq!(s.table(), "f=5678\nd=34\n#=1.5\n@=u3\n`=u2\n\n");
}

#[test]
fn further_parts_get_signs() {
    let many: Vec<String> = (0..25).map(|i| format!("{}", 100 + i)).collect();
    let list: Vec<(&str, usize)> = many.iter().map(|s| (s.as_str(), 5)).collect();
    let s = build_symbols(&counted(&list), &counted(&[("2.5", 4)]));
    assert_eq!(s.letters.len(), 20);
    assert_eq!(pairs(&s.letters)[0], ("100".into(), 'd'));
    assert_eq!(pairs(&s.letters)[19], ("119".into(), 'o'));
    assert_eq!(pairs(&s.wholes), vec![("2.5".into(), '#')]);
    // The first sign stands for the whole number, so it is no shorthand for the first further part.
    assert_eq!(
        pairs(&s.further),
        vec![("121".into(), '$'), ("122".into(), '%'), ("123".into(), '&'), ("124".into(), '*')]
    );
    assert_eq!(s.rules.len(), 24);
    assert_eq!(s.shorten(b"120"), "120");
    assert_eq!(s.shorten(b"121"), "$");
    assert_eq!(s.equation_line(&vec![eq_term(false, "2.5", 0, false)]), "#\n");
}

#[test]
fn no_symbols_leave_the_powers() {
    let s = build_symbols(&Vec::new(), &Vec::new());
    assert_eq!(s.table(), "@=u3\n`=u2\n");
    assert_eq!(s.equation_line(&Vec::new()), "0\n");
}

fn eq_term(negative: bool, text: &str, degree: usize, unit: bool) -> EquationTerm {
    EquationTerm { negative, text: text.as_bytes().to_vec(), degree, unit }
}

#[test]
fn equations_are_read_back_by_their_table() {
    let mut texts: Vec<Vec<String>> = Vec::new();
    for i in 0..60u64 {
        let n = i * i * 7919 % 9973;
        texts.push(vec![
            format!("{}.{}", n, 1234567 + i % 5),
            format!("{}", 100 + i % 26),
            "2.5".to_string(),
            format!("{}e-{}", 1 + i % 9, 3 + i % 4),
        ]);
    }
    let lists: Vec<Vec<&str>> =
        texts.iter().map(|l| l.iter().map(|s| s.as_str()).collect()).collect();
    let slices: Vec<&[&str]> = lists.iter().map(|l| l.as_slice()).collect();
    let (parts, wholes) = build_coeff_freqs(&segs(&slices), 1);
    let s = build_symbols(&parts, &wholes);
    let table = s.table();
    let listed: Vec<(char, &str)> = table
        .lines()
        .filter(|l| !l.is_empty())
        .map(|l| (l.chars().next().unwrap(), &l[2..]))
        .collect();
    let mut shortened = 0;
    for list in &texts {
        let terms: Vec<EquationTerm> =
            list.iter().rev().enumerate().rev().map(|(d, t)| eq_term(d == 2, t, d, false)).collect();
        let line = s.equation_line(&terms);
        let plain: String = terms
            .iter()
            .enumerate()
            .map(|(i, t)| {
                let sign = if t.negative { "-" } else if i == 0 { "" } else { "+" };
                let power = match t.degree {
                    0 => String::new(),
                    1 => "u".to_string(),
                    d => format!("u{}", d),
                };
                format!("{}{}{}", sign, String::from_utf8_lossy(&t.text), power)
            })
            .collect();
        let back: String = line
            .trim_end()
            .chars()
            .map(|c| match listed.iter().find(|p| p.0 == c) {
                Some(p) => p.1.to_string(),
                None => c.to_string(),
            })
            .collect();
        assert_eq!(back, plain);
        shortened += plain.len() - (line.len() - 1);
    }
    assert!(shortened > 0);
}

#[test]
fn equations_use_symbols() {
    let s = build_symbols(&counted(&[("34", 9)]), &counted(&[("1.5", 3)]));
    let line = s.equation_line(&vec![
        eq_term(true, "1.5", 3, false),
        eq_term(false, "1", 2, true),
        eq_term(true, "2.34", 1, false),
        eq_term(false, "1", 0, true),
    ]);
    assert_eq!(line, "-#@+`-2.du+1\n");
    assert_eq!(s.equation_line(&vec![eq_term(false, "7", 4, false)]), "7u4\n");
}

#[test]
fn symbols_of_a_list_keep_their_fields() {
    let s = Symbols {
        letters: vec![Pair { part: b"42".to_vec(), symbol: 'd' }],
        further: Vec::new(),
        wholes: Vec::new(),
        rules: vec![("42".to_string(), "d".to_string())],
    };
    assert_eq!(s.shorten(b"1.42"), "1.d");
    assert_eq!(s.table(), "d=42\n@=u3\n`=u2\n\n");
}

#[test]
fn memory_lines_are_read() {
    let read = |s: &str| parse_memory(&s.chars().collect::<Vec<char>>());
    assert_eq!(read("MemAvailable:   12345 kB"), Some(12345 * 1024));
    assert_eq!(read("MemAvailable:\t1"), Some(1024));
    assert_eq!(read("MemFree:   12345 kB"), None);
    assert_eq!(read("MemAvailable:12345 kB"), None);
    assert_eq!(read("MemAvailable: x kB"), None);
    assert_eq!(read("MemAvailable:"), None);
    assert_eq!(read("MemAvailable: 18446744073709551615"), None);
    assert_eq!(read(" MemAvailable: 5"), None);
}

#[test]
fn progress_is_shown_now_and_then() {
    assert!(shows_progress(1, 50));
    assert!(shows_progress(20, 1000) && !shows_progress(21, 1000));
    assert!(shows_progress(1003, 1003));
}
