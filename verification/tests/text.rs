use mono_merger::text::{chars_of, format_i64, lines, parse_i64, split, string_from, string_of};

fn pieces(text: &str, delimiter: char) -> Vec<String> {
    split(&chars_of(text), delimiter).iter().map(string_of).collect()
}

fn lines_of(text: &str) -> Vec<String> {
    lines(&chars_of(text)).iter().map(string_of).collect()
}

fn parse(text: &str) -> Option<i64> {
    parse_i64(&chars_of(text))
}

#[test]
fn chars_and_strings_convert_both_ways() {
    let chars = chars_of("héllo;wörld");
    assert_eq!(chars.len(), 11);
    assert_eq!(string_of(&chars), "héllo;wörld");
    assert_eq!(string_from(&chars, 6), "wörld");
    assert_eq!(string_from(&chars, 11), "");
    assert_eq!(chars_of(""), Vec::<char>::new());
}

#[test]
fn split_gives_the_pieces_between_delimiters() {
    assert_eq!(pieces("a;b;c", ';'), vec!["a", "b", "c"]);
    assert_eq!(pieces("abc", ';'), vec!["abc"]);
}

#[test]
fn split_keeps_empty_pieces() {
    assert_eq!(pieces("a;;b;", ';'), vec!["a", "", "b", ""]);
    assert_eq!(pieces(";", ';'), vec!["", ""]);
}

#[test]
fn split_of_empty_text_is_one_empty_piece() {
    assert_eq!(pieces("", ';'), vec![""]);
}

#[test]
fn split_agrees_with_the_standard_library() {
    for text in ["", ";", "a;b", ";;a;;", "no delimiter", "x; y ;z;"] {
        let expected: Vec<String> = text.split(';').map(|piece| piece.to_string()).collect();
        assert_eq!(pieces(text, ';'), expected);
    }
}

#[test]
fn lines_end_at_line_feeds() {
    assert_eq!(lines_of("one\ntwo\nthree"), vec!["one", "two", "three"]);
}

#[test]
fn lines_have_no_empty_last_line() {
    assert_eq!(lines_of("one\ntwo\n"), vec!["one", "two"]);
    assert_eq!(lines_of("\n"), vec![""]);
    assert_eq!(lines_of("one\n\n"), vec!["one", ""]);
}

#[test]
fn lines_of_empty_text_are_none() {
    assert_eq!(lines_of(""), Vec::<String>::new());
}

#[test]
fn lines_drop_a_carriage_return_before_a_line_feed() {
    assert_eq!(lines_of("one\r\ntwo\r\n"), vec!["one", "two"]);
    assert_eq!(lines_of("one\r\r\ntwo"), vec!["one\r", "two"]);
}

#[test]
fn lines_keep_a_carriage_return_without_line_feed() {
    assert_eq!(lines_of("one\ntwo\r"), vec!["one", "two\r"]);
    assert_eq!(lines_of("o\rne\n"), vec!["o\rne"]);
}

#[test]
fn lines_agree_with_the_standard_library() {
    for text in ["", "\n", "a", "a\n", "a\r\n", "a\r", "\r\n\r\n", "a\n\nb", "a\r\nb\rc\n", "\r"] {
        let expected: Vec<String> = text.lines().map(|line| line.to_string()).collect();
        assert_eq!(lines_of(text), expected);
    }
}

#[test]
fn parse_reads_signed_decimal_numbers() {
    assert_eq!(parse("0"), Some(0));
    assert_eq!(parse("1431648000"), Some(1431648000));
    assert_eq!(parse("-17"), Some(-17));
    assert_eq!(parse("+17"), Some(17));
    assert_eq!(parse("-0"), Some(0));
    assert_eq!(parse("007"), Some(7));
}

#[test]
fn parse_reads_the_limits_of_64_bits() {
    assert_eq!(parse("9223372036854775807"), Some(i64::MAX));
    assert_eq!(parse("-9223372036854775808"), Some(i64::MIN));
}

#[test]
fn parse_refuses_numbers_beyond_64_bits() {
    assert_eq!(parse("9223372036854775808"), None);
    assert_eq!(parse("-9223372036854775809"), None);
    assert_eq!(parse("99999999999999999999999999"), None);
}

#[test]
fn parse_refuses_what_is_no_number() {
    assert_eq!(parse(""), None);
    assert_eq!(parse("-"), None);
    assert_eq!(parse("+"), None);
    assert_eq!(parse("12a"), None);
    assert_eq!(parse(" 12"), None);
    assert_eq!(parse("12 "), None);
    assert_eq!(parse("1_000"), None);
    assert_eq!(parse("--1"), None);
    assert_eq!(parse("1.5"), None);
    assert_eq!(parse("١٢"), None);
}

#[test]
fn parse_agrees_with_the_standard_library() {
    for text in [
        "", "0", "-0", "+0", "5", "-5", "+5", "-", "+", "a", "1a", "a1", "00012",
        "9223372036854775807", "9223372036854775808", "-9223372036854775808",
        "-9223372036854775809", "18446744073709551616", "+-1", "1-",
    ] {
        assert_eq!(parse(text), text.parse::<i64>().ok());
    }
}

#[test]
fn format_writes_decimal_numbers() {
    assert_eq!(format_i64(0), "0");
    assert_eq!(format_i64(7), "7");
    assert_eq!(format_i64(10), "10");
    assert_eq!(format_i64(1431648000), "1431648000");
    assert_eq!(format_i64(-1), "-1");
    assert_eq!(format_i64(-120), "-120");
    assert_eq!(format_i64(i64::MAX), "9223372036854775807");
    assert_eq!(format_i64(i64::MIN), "-9223372036854775808");
}

#[test]
fn format_and_parse_give_the_number_back() {
    for value in [0, 1, -1, 9, 10, 99, 100, -100, 1431648000, i64::MAX, i64::MIN, i64::MIN + 1] {
        assert_eq!(format_i64(value), value.to_string());
        assert_eq!(parse(&format_i64(value)), Some(value));
    }
}
