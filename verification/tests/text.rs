use ks_cli::text::{chars_of, decimal_string, parse_decimal_u64, split_slash, split_whitespace, string_of, trimmed};

#[test]
fn decimal_formatting() {
    assert_eq!(decimal_string(0), "0");
    assert_eq!(decimal_string(7), "7");
    assert_eq!(decimal_string(45), "45");
    assert_eq!(decimal_string(1700000000), "1700000000");
    assert_eq!(decimal_string(u64::MAX), "18446744073709551615");
}

#[test]
fn u64_parsing_matches_std() {
    for s in ["0", "45", "+7", "007", "", "+", "-1", " 5", "5 ", "12a", "18446744073709551615", "18446744073709551616", "99999999999999999999"] {
        assert_eq!(parse_decimal_u64(s), s.parse::<u64>().ok(), "input {s:?}");
    }
}

#[test]
fn whitespace_handling_matches_std() {
    for s in ["", "   ", " code  --wait ", "vi", "\tnvim\u{a0}-u\u{3000}x\n", "a  b   c"] {
        let words: Vec<String> = s.split_whitespace().map(str::to_owned).collect();
        assert_eq!(split_whitespace(s), words, "input {s:?}");
        assert_eq!(string_of(&trimmed(&chars_of(s))), s.trim(), "input {s:?}");
    }
}

#[test]
fn slash_split_matches_std() {
    for s in ["", "a", "a/b", "/a", "a/", "a//b", "github/token"] {
        let parts: Vec<String> = s.split('/').map(str::to_owned).collect();
        assert_eq!(split_slash(s), parts, "input {s:?}");
    }
}
