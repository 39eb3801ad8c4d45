use aoc25::text::{chars_of, find_char, parse_i64, parse_u64, split_lines};

fn chars(s: &str) -> Vec<char> {
    s.chars().collect()
}

#[test]
fn lines_end_at_line_feeds() {
    let lines = split_lines(&chars_of("ab\r\ncd\n\nef\r"));
    assert_eq!(lines, vec![chars("ab"), chars("cd"), chars(""), chars("ef\r")]);
    assert_eq!(split_lines(&chars_of("x\n")), vec![chars("x")]);
    assert!(split_lines(&chars_of("")).is_empty());
}

#[test]
fn numbers_are_digits_that_fit() {
    assert_eq!(parse_u64(&chars("0")), Some(0));
    assert_eq!(parse_u64(&chars("+17")), Some(17));
    assert_eq!(parse_u64(&chars("007")), Some(7));
    assert_eq!(parse_u64(&chars("18446744073709551615")), Some(u64::MAX));
    assert_eq!(parse_u64(&chars("18446744073709551616")), None);
    assert_eq!(parse_u64(&chars("")), None);
    assert_eq!(parse_u64(&chars("+")), None);
    assert_eq!(parse_u64(&chars("-1")), None);
    assert_eq!(parse_u64(&chars("1 ")), None);
}

#[test]
fn a_character_is_found_at_its_first_place() {
    assert_eq!(find_char(&chars("a-b-c"), '-'), 1);
    assert_eq!(find_char(&chars("abc"), '-'), 3);
}

#[test]
fn signed_numbers_reach_both_ends() {
    assert_eq!(parse_i64(&chars("-9223372036854775808")), Some(i64::MIN));
    assert_eq!(parse_i64(&chars("9223372036854775807")), Some(i64::MAX));
    assert_eq!(parse_i64(&chars("9223372036854775808")), None);
    assert_eq!(parse_i64(&chars("-9223372036854775809")), None);
    assert_eq!(parse_i64(&chars("+12")), Some(12));
    assert_eq!(parse_i64(&chars("-+12")), None);
    assert_eq!(parse_i64(&chars("-")), None);
    assert_eq!(parse_i64(&chars("")), None);
}
