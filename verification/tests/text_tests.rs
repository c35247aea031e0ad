use vibecheat::text::{find_str, format_hex_upper, format_i64, join_strings, parse_int, replace_str, split_whitespace_strings, trim};

#[test]
fn integer_parsing_follows_from_str_radix() {
    assert_eq!(parse_int("-128", 10, true, -128, 127), Some(-128));
    assert_eq!(parse_int("128", 10, true, -128, 127), None);
    assert_eq!(parse_int("+7", 10, false, 0, 255), Some(7));
    assert_eq!(parse_int("-0", 10, false, 0, 255), None);
    assert_eq!(parse_int("ff", 16, false, 0, 255), Some(255));
    assert_eq!(parse_int("FF", 16, false, 0, 255), Some(255));
    assert_eq!(parse_int("-", 10, true, -1, 1), None);
    assert_eq!(parse_int("", 10, true, -1, 1), None);
    assert_eq!(parse_int("1 ", 10, true, -10, 10), None);
}

#[test]
fn formatting_numbers() {
    assert_eq!(format_i64(i64::MIN), i64::MIN.to_string());
    assert_eq!(format_i64(0), "0");
    assert_eq!(format_i64(-42), "-42");
    assert_eq!(format_hex_upper(0xDEADBEEF), "DEADBEEF");
    assert_eq!(format_hex_upper(0), "0");
}

#[test]
fn text_helpers() {
    assert_eq!(trim("  a b \n"), "a b");
    assert_eq!(find_str("abcabc", "ca"), Some(2));
    assert_eq!(find_str("abc", "x"), None);
    assert_eq!(find_str("abc", ""), Some(0));
    assert_eq!(replace_str("aXbXc", "X", "--"), "a--b--c");
    assert_eq!(replace_str("aaa", "aa", "b"), "ba");
    assert_eq!(split_whitespace_strings("  a  b\tc "), vec!["a", "b", "c"]);
    assert_eq!(join_strings(&vec!["a".to_string(), "b".to_string()], ", "), "a, b");
}
