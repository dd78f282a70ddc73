use fkill::text::{
    after_last_slash, contains_str, i32_to_string, join_strings, lines, parse_i32, parse_u32,
    replace_char, split_char, split_whitespace, trim, usize_to_string,
};

fn strs(v: &[&str]) -> Vec<String> {
    v.iter().map(|s| s.to_string()).collect()
}

#[test]
fn parse_i32_reads_signed_decimals() {
    assert_eq!(parse_i32("42"), Some(42));
    assert_eq!(parse_i32("-7"), Some(-7));
    assert_eq!(parse_i32("+5"), Some(5));
    assert_eq!(parse_i32("0"), Some(0));
    assert_eq!(parse_i32("-2147483648"), Some(i32::MIN));
    assert_eq!(parse_i32("2147483647"), Some(i32::MAX));
}

#[test]
fn parse_i32_refuses_what_std_refuses() {
    assert_eq!(parse_i32("2147483648"), None);
    assert_eq!(parse_i32("-2147483649"), None);
    assert_eq!(parse_i32("99999999999999999999"), None);
    assert_eq!(parse_i32(""), None);
    assert_eq!(parse_i32("-"), None);
    assert_eq!(parse_i32("+"), None);
    assert_eq!(parse_i32("12a"), None);
    assert_eq!(parse_i32(" 1"), None);
    for s in ["42", "-7", "+5", "", "-", "x1", "2147483648", "-0", "007"] {
        assert_eq!(parse_i32(s), s.parse::<i32>().ok(), "input {:?}", s);
    }
}

#[test]
fn parse_u32_matches_std() {
    for s in ["0", "+1", "-0", "-1", "4294967295", "4294967296", "", "abc", "501"] {
        assert_eq!(parse_u32(s), s.parse::<u32>().ok(), "input {:?}", s);
    }
}

#[test]
fn split_whitespace_matches_std() {
    for s in ["", "  ", "a", " a  b\tc\n", "x\u{a0}y", "  lead", "trail  "] {
        let expected: Vec<String> = s.split_whitespace().map(|t| t.to_string()).collect();
        assert_eq!(split_whitespace(s), expected, "input {:?}", s);
    }
}

#[test]
fn split_char_matches_std() {
    for s in ["", "a b", " a", "a ", "a  b", "abc"] {
        let expected: Vec<String> = s.split(' ').map(|t| t.to_string()).collect();
        assert_eq!(split_char(s, ' '), expected, "input {:?}", s);
    }
}

#[test]
fn lines_matches_std() {
    for s in ["", "a", "a\n", "a\nb", "a\r\nb\r\n", "a\r", "\n\n", "x\r\ry\n"] {
        let expected: Vec<String> = s.lines().map(|t| t.to_string()).collect();
        assert_eq!(lines(s), expected, "input {:?}", s);
    }
}

#[test]
fn trim_matches_std() {
    for s in ["", "  ", " a ", "\t501\n", "a b", "\u{3000}x\u{85}"] {
        assert_eq!(trim(s), s.trim(), "input {:?}", s);
    }
}

#[test]
fn joins_and_replaces() {
    assert_eq!(join_strings(&strs(&["a", "b", "c"]), " "), "a b c");
    assert_eq!(join_strings(&strs(&[]), "; "), "");
    assert_eq!(join_strings(&strs(&["x"]), "; "), "x");
    assert_eq!(replace_char("a\tb\t", '\t', ' '), "a b ");
}

#[test]
fn substring_search() {
    assert!(contains_str("chrome helper", "helper"));
    assert!(contains_str("abc", ""));
    assert!(!contains_str("abc", "abcd"));
    assert!(!contains_str("abc", "ac"));
    assert!(contains_str("abc", "abc"));
}

#[test]
fn base_name_after_last_slash() {
    assert_eq!(after_last_slash("/usr/bin/zsh"), "zsh");
    assert_eq!(after_last_slash("zsh"), "zsh");
    assert_eq!(after_last_slash("/usr/bin/"), "");
    assert_eq!(after_last_slash("/Applications/Google Chrome.app/Contents/MacOS/Google Chrome"), "Google Chrome");
}

#[test]
fn decimal_numerals() {
    assert_eq!(i32_to_string(0), "0");
    assert_eq!(i32_to_string(1234), "1234");
    assert_eq!(i32_to_string(-56), "-56");
    assert_eq!(i32_to_string(i32::MIN), i32::MIN.to_string());
    assert_eq!(usize_to_string(0), "0");
    assert_eq!(usize_to_string(1000), "1000");
}
