use os_projects::text::{
    chars_of, parse_i32, parse_usize, replace_chars, split_chars, string_of, trim_chars, usize_text,
};

#[test]
fn usize_parsing() {
    assert_eq!(parse_usize("0"), Some(0));
    assert_eq!(parse_usize("+42"), Some(42));
    assert_eq!(parse_usize("007"), Some(7));
    assert_eq!(parse_usize(""), None);
    assert_eq!(parse_usize("+"), None);
    assert_eq!(parse_usize("-1"), None);
    assert_eq!(parse_usize(" 1"), None);
    assert_eq!(parse_usize("1a"), None);
    assert_eq!(parse_usize(&usize::MAX.to_string()), Some(usize::MAX));
    assert_eq!(parse_usize("99999999999999999999999"), None);
}

#[test]
fn i32_parsing() {
    assert_eq!(parse_i32("-2147483648"), Some(i32::MIN));
    assert_eq!(parse_i32("2147483647"), Some(i32::MAX));
    assert_eq!(parse_i32("2147483648"), None);
    assert_eq!(parse_i32("-2147483649"), None);
    assert_eq!(parse_i32("-0"), Some(0));
    assert_eq!(parse_i32("+5"), Some(5));
    assert_eq!(parse_i32("-"), None);
    assert_eq!(parse_i32("--1"), None);
    assert_eq!(parse_i32(""), None);
}

#[test]
fn decimal_text() {
    assert_eq!(string_of(&usize_text(0)), "0");
    assert_eq!(string_of(&usize_text(907)), "907");
    assert_eq!(string_of(&usize_text(usize::MAX)), usize::MAX.to_string());
}

#[test]
fn trimming() {
    assert_eq!(string_of(&trim_chars(&chars_of("  a b \n"))), "a b");
    assert_eq!(string_of(&trim_chars(&chars_of(" \t\n "))), "");
    assert_eq!(string_of(&trim_chars(&chars_of("\u{2003}x\u{85}"))), "x");
}

#[test]
fn replacing() {
    let r = replace_chars(&chars_of("aaa"), &chars_of("aa"), &chars_of("b"));
    assert_eq!(string_of(&r), "ba");
    let r = replace_chars(&chars_of("${A}${A}"), &chars_of("${A}"), &chars_of(""));
    assert_eq!(string_of(&r), "");
}

#[test]
fn splitting() {
    let p = split_chars(&chars_of("a::b"), &[':']);
    let p: Vec<String> = p.iter().map(|v| string_of(v)).collect();
    assert_eq!(p, vec!["a", "", "b"]);
    let p = split_chars(&chars_of(""), &[':']);
    assert_eq!(p.len(), 1);
    let p = split_chars(&chars_of("1 2\n3"), &['\n', ' ']);
    assert_eq!(p.len(), 3);
}
