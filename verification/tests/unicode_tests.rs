use bezy::unicode::{
    char_to_hex_codepoint, compare_bytes, compare_strs, decimal_string, hex_codepoint_string,
    parse_hex_bytes, parse_hex_u32, sort_and_deduplicate_codepoints,
};

fn strings(v: &[&str]) -> Vec<String> {
    v.iter().map(|s| s.to_string()).collect()
}

#[test]
fn sort_and_deduplicate_sorts_and_drops_repeats() {
    let mut v = strings(&["0042", "0041", "00E9", "0041", "0030", "0042"]);
    sort_and_deduplicate_codepoints(&mut v);
    assert_eq!(v, strings(&["0030", "0041", "0042", "00E9"]));
}

#[test]
fn sort_and_deduplicate_empty_and_single() {
    let mut v: Vec<String> = Vec::new();
    sort_and_deduplicate_codepoints(&mut v);
    assert!(v.is_empty());
    let mut w = strings(&["1F600"]);
    sort_and_deduplicate_codepoints(&mut w);
    assert_eq!(w, strings(&["1F600"]));
}

#[test]
fn sort_and_deduplicate_is_idempotent() {
    let mut v = strings(&["b", "a", "c", "a"]);
    sort_and_deduplicate_codepoints(&mut v);
    let once = v.clone();
    sort_and_deduplicate_codepoints(&mut v);
    assert_eq!(v, once);
    assert_eq!(v, strings(&["a", "b", "c"]));
}

#[test]
fn sort_orders_by_bytes_like_str() {
    let mut v = strings(&["Z", "a", "é", "10", "9", "1"]);
    sort_and_deduplicate_codepoints(&mut v);
    let mut expected = strings(&["Z", "a", "é", "10", "9", "1"]);
    expected.sort();
    expected.dedup();
    assert_eq!(v, expected);
}

#[test]
fn compare_functions_follow_str_order() {
    assert_eq!(compare_strs("abc", "abd"), -1);
    assert_eq!(compare_strs("abd", "abc"), 1);
    assert_eq!(compare_strs("ab", "ab"), 0);
    assert_eq!(compare_strs("ab", "abc"), -1);
    assert_eq!(compare_strs("", "a"), -1);
    assert_eq!(compare_bytes(&[1, 2], &[1, 3]), -1);
    assert_eq!(compare_bytes(&[2], &[1, 9]), 1);
    assert_eq!(compare_bytes(&[], &[]), 0);
}

#[test]
fn hex_codepoint_strings_have_four_digits_at_least() {
    assert_eq!(hex_codepoint_string(0x41), "0041");
    assert_eq!(hex_codepoint_string(0), "0000");
    assert_eq!(hex_codepoint_string(0xE9), "00E9");
    assert_eq!(hex_codepoint_string(0xFFFF), "FFFF");
    assert_eq!(hex_codepoint_string(0x1F600), "1F600");
    assert_eq!(hex_codepoint_string(u32::MAX), "FFFFFFFF");
    assert_eq!(char_to_hex_codepoint('A'), "0041");
    assert_eq!(char_to_hex_codepoint('é'), "00E9");
    assert_eq!(char_to_hex_codepoint('😀'), "1F600");
}

#[test]
fn parse_hex_like_from_str_radix() {
    assert_eq!(parse_hex_u32("0041"), Some(0x41));
    assert_eq!(parse_hex_u32("ff"), Some(255));
    assert_eq!(parse_hex_u32("FfFf"), Some(0xFFFF));
    assert_eq!(parse_hex_u32("+10"), Some(16));
    assert_eq!(parse_hex_u32(""), None);
    assert_eq!(parse_hex_u32("+"), None);
    assert_eq!(parse_hex_u32("-1"), None);
    assert_eq!(parse_hex_u32("0x41"), None);
    assert_eq!(parse_hex_u32("FFFFFFFF"), Some(u32::MAX));
    assert_eq!(parse_hex_u32("100000000"), None);
    assert_eq!(parse_hex_u32("00000000FF"), Some(255));
    for s in ["0", "7", "abc", "DEAD", "+beef", "g", "12 ", "1_0"] {
        assert_eq!(parse_hex_u32(s), u32::from_str_radix(s, 16).ok(), "input {:?}", s);
    }
    assert_eq!(parse_hex_bytes(b"0x41", 2), Some(0x41));
    assert_eq!(parse_hex_bytes(b"0x41", 4), None);
}

#[test]
fn decimal_strings() {
    assert_eq!(decimal_string(0), "0");
    assert_eq!(decimal_string(7), "7");
    assert_eq!(decimal_string(10), "10");
    assert_eq!(decimal_string(1234567), "1234567");
    assert_eq!(decimal_string(usize::MAX), usize::MAX.to_string());
}
