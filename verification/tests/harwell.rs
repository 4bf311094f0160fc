use lumindd::harwell::{
    entry_position, from_one_based, header_line, one_based_line, parse_dims, shortfall_message,
};
use lumindd::scan::{
    is_white, numbers_in, parse_i64, parse_unsigned, parse_usize, parse_values, split_words, trim_bounds,
    NumberError,
};

fn get(col_ptr: &[usize], row_idx: &[usize], values: &[f64], ncols: usize, row: usize, col: usize) -> f64 {
    match entry_position(col_ptr, row_idx, ncols, row, col) {
        Some(k) => values[k],
        None => 0.0,
    }
}

fn chars(s: &str) -> Vec<char> {
    s.chars().collect()
}

#[test]
fn harwell_get() {
    // 3x3 identity matrix
    let col_ptr = vec![0, 1, 2, 3];
    let row_idx = vec![0, 1, 2];
    let values = vec![1.0, 1.0, 1.0];
    assert_eq!(get(&col_ptr, &row_idx, &values, 3, 0, 0), 1.0);
    assert_eq!(get(&col_ptr, &row_idx, &values, 3, 1, 1), 1.0);
    assert_eq!(get(&col_ptr, &row_idx, &values, 3, 2, 2), 1.0);
    assert_eq!(get(&col_ptr, &row_idx, &values, 3, 0, 1), 0.0);
    assert_eq!(get(&col_ptr, &row_idx, &values, 3, 1, 0), 0.0);
}

#[test]
fn harwell_roundtrip() {
    // 2x2 matrix [[1.0, 0.0], [2.0, 3.0]] stored with two entries
    let col_ptr = vec![0, 1, 2];
    let row_idx = vec![0, 1];
    let mut text = header_line(2, 2, 2);
    text.push_str(&one_based_line(&col_ptr));
    text.push_str(&one_based_line(&row_idx));
    assert_eq!(text, "lumindd sparse matrix\n2 2 2\n1 2 3\n1 2\n");

    let lines: Vec<&str> = text.lines().collect();
    assert_eq!(parse_dims(lines[1]), Some((2, 2, 2)));
    let cp = parse_values(lines[2], 3).unwrap();
    let ri = parse_values(lines[3], 2).unwrap();
    assert_eq!(from_one_based(&cp), vec![0, 1, 2]);
    assert_eq!(from_one_based(&ri), vec![0, 1]);
}

#[test]
fn entry_position_cases() {
    let col_ptr = vec![0, 2, 4];
    let row_idx = vec![0, 1, 0, 1];
    assert_eq!(entry_position(&col_ptr, &row_idx, 2, 1, 0), Some(1));
    assert_eq!(entry_position(&col_ptr, &row_idx, 2, 0, 1), Some(2));
    assert_eq!(entry_position(&col_ptr, &row_idx, 2, 5, 1), None);
    assert_eq!(entry_position(&col_ptr, &row_idx, 2, 0, 2), None);
    // an empty column
    assert_eq!(entry_position(&[0, 0, 0], &[], 2, 0, 1), None);
}

#[test]
fn one_based_conversions() {
    assert_eq!(from_one_based(&[3, 1, 0]), vec![2, 0, 0]);
    assert_eq!(one_based_line(&[]), "\n");
    assert_eq!(one_based_line(&[0, 9, 41]), "1 10 42\n");
    assert_eq!(header_line(10, 0, 7), "lumindd sparse matrix\n10 0 7\n");
    assert_eq!(shortfall_message(5, 2), "expected 5 values, got 2");
}

#[test]
fn dims_need_three_numbers() {
    assert_eq!(parse_dims("4 5"), None);
    assert_eq!(parse_dims("x 4 y 5 6 7"), Some((4, 5, 6)));
    assert_eq!(parse_dims(""), None);
}

#[test]
fn white_space_and_words() {
    assert!(is_white(' '));
    assert!(is_white('\t'));
    assert!(is_white('\n'));
    assert!(is_white('\u{a0}'));
    assert!(is_white('\u{3000}'));
    assert!(!is_white('a'));
    assert!(!is_white('\u{200b}'));
    for c in ['\u{85}', '\u{1680}', '\u{2000}', '\u{200a}', '\u{2028}', '\u{2029}', '\u{202f}', '\u{205f}'] {
        assert_eq!(is_white(c), c.is_whitespace());
    }
    let w = split_words("  ab\tc \u{3000}def\n");
    assert_eq!(w, vec![chars("ab"), chars("c"), chars("def")]);
    assert!(split_words("   ").is_empty());
    let text = "x  12 \u{a0}+3 foo";
    let mine: Vec<String> = split_words(text).iter().map(|w| w.iter().collect()).collect();
    let std_words: Vec<String> = text.split_whitespace().map(|s| s.to_string()).collect();
    assert_eq!(mine, std_words);
}

#[test]
fn parse_usize_like_std() {
    assert_eq!(parse_usize(&chars("42")), Ok(42));
    assert_eq!(parse_usize(&chars("+7")), Ok(7));
    assert_eq!(parse_usize(&chars("007")), Ok(7));
    assert_eq!(parse_usize(&chars("")), Err(NumberError::Empty));
    assert_eq!(parse_usize(&chars("+")), Err(NumberError::InvalidDigit));
    assert_eq!(parse_usize(&chars("-1")), Err(NumberError::InvalidDigit));
    assert_eq!(parse_usize(&chars("12a")), Err(NumberError::InvalidDigit));
    let max = usize::MAX.to_string();
    assert_eq!(parse_usize(&chars(&max)), Ok(usize::MAX));
    let over = format!("{}0", max);
    assert_eq!(parse_usize(&chars(&over)), Err(NumberError::TooLarge));
    let over_then_bad = format!("{}0x", max);
    assert_eq!(parse_usize(&chars(&over_then_bad)), Err(NumberError::TooLarge));
    for s in ["0", "+0", "18", "+", "-", "1 2", "\u{663}", "99999999999999999999999"] {
        let std = s.parse::<usize>();
        let mine = parse_usize(&chars(s));
        assert_eq!(std.is_ok(), mine.is_ok(), "{}", s);
        if let (Ok(a), Ok(b)) = (std.clone(), mine) {
            assert_eq!(a, b);
        }
        if let (Err(a), Err(b)) = (std, mine) {
            assert_eq!(a.to_string(), b.message());
        }
    }
}

#[test]
fn parse_values_stops_at_want() {
    assert_eq!(parse_values("1 2 3 4", 2), Ok(vec![1, 2]));
    assert_eq!(parse_values("1 2 x", 2), Ok(vec![1, 2]));
    assert_eq!(parse_values("1 x 3", 3), Err(NumberError::InvalidDigit));
    assert_eq!(parse_values("5", 3), Ok(vec![5]));
    assert_eq!(parse_values("", 3), Ok(vec![]));
    assert_eq!(numbers_in("a 1 b 2 -3 +4"), vec![1, 2, 4]);
    assert_eq!(NumberError::Empty.message(), "cannot parse integer from empty string");
}

#[test]
fn parse_i64_like_std() {
    for s in [
        "0", "-0", "+5", "-5", "-", "+", "", "--1", "-+1", "9223372036854775807", "9223372036854775808",
        "-9223372036854775808", "-9223372036854775809", "12x", "-12x", "-99999999999999999999x",
    ] {
        let std = s.parse::<i64>();
        let mine = parse_i64(&chars(s));
        match (std, mine) {
            (Ok(a), Ok(b)) => assert_eq!(a, b, "{}", s),
            (Err(a), Err(b)) => assert_eq!(a.to_string(), b.message(), "{}", s),
            (a, b) => panic!("{}: {:?} vs {:?}", s, a, b),
        }
    }
    assert_eq!(parse_i64(&chars("-9223372036854775809")), Err(NumberError::TooSmall));
}

#[test]
fn parse_unsigned_bounds() {
    assert_eq!(parse_unsigned(&chars("65535"), 65535), Ok(65535));
    assert_eq!(parse_unsigned(&chars("65536"), 65535), Err(NumberError::TooLarge));
    assert_eq!(parse_unsigned(&chars("4294967295"), 0xFFFF_FFFF), Ok(4294967295));
    for s in ["65536", "70000x", "+65535", "1_0"] {
        let std = s.parse::<u16>();
        let mine = parse_unsigned(&chars(s), 65535);
        assert_eq!(std.is_ok(), mine.is_ok(), "{}", s);
        if let (Err(a), Err(b)) = (std, mine) {
            assert_eq!(a.to_string(), b.message(), "{}", s);
        }
    }
}

#[test]
fn trimming() {
    let t = chars("  a b\t\n");
    let (a, b) = trim_bounds(&t);
    assert_eq!(t[a..b].iter().collect::<String>(), "a b");
    let t = chars(" \u{3000} ");
    let (a, b) = trim_bounds(&t);
    assert_eq!(a, b);
    for s in ["x", "  y", "z  ", "\u{85}w\u{a0}", ""] {
        let cs = chars(s);
        let (a, b) = trim_bounds(&cs);
        assert_eq!(cs[a..b].iter().collect::<String>(), s.trim());
    }
}
