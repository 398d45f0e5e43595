use tag_aggregate::text::{parse_int, split_str, str_eq, trimmed};

#[test]
fn parse_int_plain_values() {
    assert_eq!(parse_int("0"), Some(0));
    assert_eq!(parse_int("42"), Some(42));
    assert_eq!(parse_int("+7"), Some(7));
    assert_eq!(parse_int("-13"), Some(-13));
    assert_eq!(parse_int(" 42\t"), Some(42));
    assert_eq!(parse_int("2021"), Some(2021));
}

#[test]
fn parse_int_range_limits() {
    assert_eq!(parse_int("2147483647"), Some(i32::MAX));
    assert_eq!(parse_int("-2147483648"), Some(i32::MIN));
    assert_eq!(parse_int("2147483648"), None);
    assert_eq!(parse_int("-2147483649"), None);
    assert_eq!(parse_int("99999999999999999999"), None);
}

#[test]
fn parse_int_rejects_non_numbers() {
    assert_eq!(parse_int(""), None);
    assert_eq!(parse_int("   "), None);
    assert_eq!(parse_int("12a"), None);
    assert_eq!(parse_int("a12"), None);
    assert_eq!(parse_int("-"), None);
    assert_eq!(parse_int("+"), None);
    assert_eq!(parse_int("1 2"), None);
}

#[test]
fn split_str_fields() {
    let r = split_str("a|b|c", '|');
    assert_eq!(r, vec!["a".to_string(), "b".to_string(), "c".to_string()]);
    let r = split_str("one", ',');
    assert_eq!(r, vec!["one".to_string()]);
    let r = split_str("", ',');
    assert_eq!(r, vec!["".to_string()]);
    let r = split_str("a,,b,", ',');
    assert_eq!(
        r,
        vec!["a".to_string(), "".to_string(), "b".to_string(), "".to_string()]
    );
}

#[test]
fn trimmed_strips_whitespace() {
    assert_eq!(trimmed("  x\t"), "x");
    assert_eq!(trimmed("x"), "x");
    assert_eq!(trimmed(" \r\n "), "");
    assert_eq!(trimmed(" a b "), "a b");
}

#[test]
fn str_eq_compares_contents() {
    assert!(str_eq("abc", "abc"));
    assert!(!str_eq("abc", "abd"));
    assert!(!str_eq("abc", "ab"));
    assert!(str_eq("", ""));
}
