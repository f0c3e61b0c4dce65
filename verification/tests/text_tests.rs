use rustfind::text::{chars_of, parse_i64_chars, parse_usize_chars, push_decimal, split_chars, string_from_chars};

fn cs(s: &str) -> Vec<char> {
    chars_of(s)
}

#[test]
fn chars_in_order() {
    assert_eq!(chars_of("aé\t"), vec!['a', 'é', '\t']);
    assert_eq!(chars_of(""), Vec::<char>::new());
}

#[test]
fn string_of_chars() {
    assert_eq!(string_from_chars(&vec!['x', 'ß', '1']), "xß1");
}

#[test]
fn split_keeps_empty_pieces() {
    let pieces = split_chars(&cs("a\t\tbc\t"), '\t');
    assert_eq!(pieces, vec![cs("a"), cs(""), cs("bc"), cs("")]);
    assert_eq!(split_chars(&cs(""), '\t'), vec![cs("")]);
}

#[test]
fn decimal_rendering() {
    let mut out = cs("n=");
    push_decimal(&mut out, 0);
    assert_eq!(out, cs("n=0"));
    let mut out = Vec::new();
    push_decimal(&mut out, u64::MAX);
    assert_eq!(out, cs("18446744073709551615"));
    let mut out = Vec::new();
    push_decimal(&mut out, 1070);
    assert_eq!(out, cs("1070"));
}

#[test]
fn usize_reading() {
    assert_eq!(parse_usize_chars(&cs("42")), Some(42));
    assert_eq!(parse_usize_chars(&cs("+42")), Some(42));
    assert_eq!(parse_usize_chars(&cs("007")), Some(7));
    assert_eq!(parse_usize_chars(&cs("-1")), None);
    assert_eq!(parse_usize_chars(&cs("")), None);
    assert_eq!(parse_usize_chars(&cs("+")), None);
    assert_eq!(parse_usize_chars(&cs("4 ")), None);
    assert_eq!(parse_usize_chars(&cs("1a")), None);
    assert_eq!(parse_usize_chars(&cs(&usize::MAX.to_string())), Some(usize::MAX));
    assert_eq!(parse_usize_chars(&cs("99999999999999999999999")), None);
}

#[test]
fn i64_reading() {
    assert_eq!(parse_i64_chars(&cs("-17")), Some(-17));
    assert_eq!(parse_i64_chars(&cs("+17")), Some(17));
    assert_eq!(parse_i64_chars(&cs("9223372036854775807")), Some(i64::MAX));
    assert_eq!(parse_i64_chars(&cs("-9223372036854775808")), Some(i64::MIN));
    assert_eq!(parse_i64_chars(&cs("9223372036854775808")), None);
    assert_eq!(parse_i64_chars(&cs("-9223372036854775809")), None);
    assert_eq!(parse_i64_chars(&cs("-")), None);
    assert_eq!(parse_i64_chars(&cs("--1")), None);
    assert_eq!(parse_i64_chars(&cs("+-1")), None);
    assert_eq!(parse_i64_chars(&cs("1-")), None);
}

#[test]
fn readers_agree_with_std() {
    for s in ["0", "+0", "-0", "12", "-12", "+", "", "x", "18446744073709551616", "9223372036854775808"] {
        assert_eq!(parse_i64_chars(&cs(s)), s.parse::<i64>().ok(), "{}", s);
        assert_eq!(parse_usize_chars(&cs(s)), s.parse::<usize>().ok(), "{}", s);
    }
}
