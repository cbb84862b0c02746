use eigenstream::dec::{i64_to_dec, parse_i64, parse_i64_or_zero, parse_u64, parse_u64_or_zero,
    u64_to_dec};
use eigenstream::text::{json_escape, lowercase, str_eq, str_eq_ignore_ascii_case, str_lt};

#[test]
fn renders_u64() {
    assert_eq!(u64_to_dec(0), "0");
    assert_eq!(u64_to_dec(7), "7");
    assert_eq!(u64_to_dec(1024), "1024");
    assert_eq!(u64_to_dec(u64::MAX), "18446744073709551615");
}

#[test]
fn renders_i64() {
    assert_eq!(i64_to_dec(0), "0");
    assert_eq!(i64_to_dec(-1), "-1");
    assert_eq!(i64_to_dec(1000), "1000");
    assert_eq!(i64_to_dec(i64::MIN), "-9223372036854775808");
    assert_eq!(i64_to_dec(i64::MAX), "9223372036854775807");
}

#[test]
fn parses_i64_like_std() {
    for s in ["0", "123", "-5", "+17", "9223372036854775807", "-9223372036854775808", "", "x",
        "1x", "-", "+", "9223372036854775808", "--3", "0005"] {
        assert_eq!(parse_i64(s), s.parse::<i64>().ok(), "case {s:?}");
    }
}

#[test]
fn parses_u64_like_std() {
    for s in ["0", "42", "+42", "-1", "", "abc", "18446744073709551615", "18446744073709551616"] {
        assert_eq!(parse_u64(s), s.parse::<u64>().ok(), "case {s:?}");
    }
}

#[test]
fn lenient_parse_falls_back_to_zero() {
    assert_eq!(parse_i64_or_zero("999"), 999);
    assert_eq!(parse_i64_or_zero("bogus"), 0);
    assert_eq!(parse_u64_or_zero("77"), 77);
    assert_eq!(parse_u64_or_zero("-1"), 0);
}

#[test]
fn lexicographic_order_matches_str() {
    let cases = [("a", "b"), ("abc", "abd"), ("ab", "abc"), ("", "a"), ("b", "a"), ("x", "x"),
        ("d1", "d2"), ("0xaa", "0xab")];
    for (a, b) in cases {
        assert_eq!(str_lt(a, b), a < b, "case {a:?} < {b:?}");
    }
}

#[test]
fn string_equality() {
    assert!(str_eq("EIGEN", "EIGEN"));
    assert!(!str_eq("EIGEN", "eigen"));
    assert!(str_eq("", ""));
    assert!(str_eq_ignore_ascii_case("EiGeN", "eigen"));
    assert!(!str_eq_ignore_ascii_case("EIGEN", "EIGEN2"));
}

#[test]
fn escapes_json_strings() {
    assert_eq!(json_escape("plain"), "plain");
    assert_eq!(json_escape("say \"hi\"\\now"), "say \\\"hi\\\"\\\\now");
    assert_eq!(json_escape("a\nb\tc\rd"), "a\\nb\\tc\\rd");
}

#[test]
fn lowercase_matches_std() {
    assert_eq!(lowercase("0xABCdef"), "0xabcdef");
    assert_eq!(lowercase(""), "");
    assert_eq!(lowercase("EIGEN"), "eigen");
}
