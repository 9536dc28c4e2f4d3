//! End-to-end scans: the driver over whole patterns.

use text_io::{run_scan, ByteStream, Error};

fn stream(s: &str) -> ByteStream {
    ByteStream::new(s.as_bytes().to_vec())
}

fn scan_u32(pattern: &str, input: &str, names: Vec<&'static str>) -> Result<Vec<u32>, Error> {
    let mut st = stream(input);
    run_scan::<u32>(&pattern.as_bytes().to_vec(), &mut st, &names)
}

fn scan_string(
    pattern: &str,
    input: &str,
    names: Vec<&'static str>,
) -> Result<Vec<String>, Error> {
    let mut st = stream(input);
    run_scan::<String>(&pattern.as_bytes().to_vec(), &mut st, &names)
}

#[test]
fn literal_pattern_matches_itself() {
    assert_eq!(scan_u32("The answer", "The answer", vec![]), Ok(vec![]));
}

#[test]
fn delimited_capture_after_marker() {
    // the byte after `{}` delimits the capture and then matches as a literal
    let r = scan_u32("The answer is {}!", "The answer is 42!", vec!["i"]);
    assert_eq!(r, Ok(vec![42]));
}

#[test]
fn escaped_brace_mismatch_fails() {
    let r = scan_u32("The {}{{}}!", "The answer is 42!", vec!["i"]);
    assert!(r.is_err());
}

#[test]
fn whitespace_capture_trims_both_sides() {
    let r = scan_u32("{}", "  7  ", vec!["i"]);
    assert_eq!(r, Ok(vec![7]));
}

#[test]
fn three_byte_marker_leaves_rest_for_later() {
    let pattern = "{,}".as_bytes().to_vec();
    let mut st = stream("a,b,c");
    let names = vec!["first"];
    let r = run_scan::<String>(&pattern, &mut st, &names);
    assert_eq!(r, Ok(vec!["a".to_string()]));
    // the delimiter was consumed as a literal; "b,c" is left in the stream
    assert_eq!(st.next(), Some(b'b'));
    assert_eq!(st.next(), Some(b','));
    assert_eq!(st.next(), Some(b'c'));
    assert_eq!(st.next(), None);
}

#[test]
fn truncated_utf8_reports_valid_prefix_length() {
    // 'a' is valid, then a truncated three-byte encoding follows
    let mut st = ByteStream::new(vec![b'a', 0xe2, 0x82]);
    let pattern = "{}".as_bytes().to_vec();
    let names = vec!["s"];
    let r = run_scan::<String>(&pattern, &mut st, &names);
    assert_eq!(r, Err(Error::PartialUtf8(1, vec![b'a', 0xe2, 0x82])));
}

#[test]
fn invalid_utf8_from_first_byte() {
    let mut st = ByteStream::new(vec![0xff, b'a']);
    let pattern = "{}".as_bytes().to_vec();
    let names = vec!["s"];
    let r = run_scan::<String>(&pattern, &mut st, &names);
    assert_eq!(r, Err(Error::InvalidUtf8(vec![0xff, b'a'])));
}

#[test]
fn literal_mismatch_reports_exact_bytes() {
    // divergence at the third byte, never a later one
    let r = scan_u32("abc", "abd!", vec![]);
    assert_eq!(r, Err(Error::UnexpectedValue(b'c', Some(b'd'))));
}

#[test]
fn literal_mismatch_at_end_of_stream() {
    let r = scan_u32("abc", "ab", vec![]);
    assert_eq!(r, Err(Error::UnexpectedValue(b'c', None)));
}

#[test]
fn missing_match_when_pattern_has_no_marker() {
    let r = scan_u32("plain", "plain", vec!["i"]);
    assert_eq!(r, Err(Error::MissingMatch));
}

#[test]
fn missing_match_when_marker_has_no_slot() {
    let r = scan_u32("{}", "7", vec![]);
    assert_eq!(r, Err(Error::MissingMatch));
}

#[test]
fn missing_closing_brace_at_pattern_end() {
    let r = scan_u32("x{", "x", vec!["i"]);
    assert_eq!(r, Err(Error::MissingClosingBrace));
}

#[test]
fn missing_closing_brace_in_malformed_marker() {
    let r = scan_u32("{a!", "za!", vec!["i"]);
    assert_eq!(r, Err(Error::MissingClosingBrace));
}

#[test]
fn all_whitespace_input_gives_empty_capture() {
    // an empty capture is legal and is passed through to conversion
    let r = scan_string("{}", "   ", vec!["s"]);
    assert_eq!(r, Ok(vec!["".to_string()]));
    // a number cannot be parsed from the empty text
    let r2 = scan_u32("{}", "   ", vec!["i"]);
    assert_eq!(r2, Err(Error::Parse("".to_string(), "i")));
}

#[test]
fn delimited_capture_excludes_delimiter() {
    let r = scan_string("{,}", "hello,rest", vec!["s"]);
    assert_eq!(r, Ok(vec!["hello".to_string()]));
}

#[test]
fn delimiter_never_found_fails_on_the_delimiter() {
    // the span is decoded, then the delimiter must match at end of stream
    let r = scan_string("{,}", "abc", vec!["s"]);
    assert_eq!(r, Err(Error::UnexpectedValue(b',', None)));
}

#[test]
fn parse_failure_carries_text_and_slot_name() {
    let r = scan_u32("The answer is {}!", "The answer is many!", vec!["answer"]);
    assert_eq!(r, Err(Error::Parse("many".to_string(), "answer")));
}

#[test]
fn two_captures_fill_in_order() {
    let r = scan_u32("{ }and {}", "12 and 34", vec!["a", "b"]);
    assert_eq!(r, Ok(vec![12, 34]));
}

#[test]
fn empty_pattern_over_empty_input() {
    assert_eq!(scan_u32("", "", vec![]), Ok(vec![]));
}

#[test]
fn delimited_capture_keeps_leading_whitespace() {
    // only whitespace-bounded captures trim; a delimited one takes everything
    let r = scan_string("{,}", " a,b", vec!["s"]);
    assert_eq!(r, Ok(vec![" a".to_string()]));
}

#[test]
fn multibyte_text_is_decoded() {
    // would fail if the byte run were not really decoded as UTF-8
    let r = scan_string("{}", "h\u{e9}llo", vec!["s"]);
    assert_eq!(r, Ok(vec!["h\u{e9}llo".to_string()]));
}

#[test]
fn round_trip_format_then_scan() {
    // format a value into the pattern, scan it back, recover the value
    let v: u32 = 4294967295;
    let text = text_io::convert::u32_to_string(v);
    let input = format!("count: {}", text);
    let r = scan_u32("count: {}", &input, vec!["c"]);
    assert_eq!(r, Ok(vec![v]));
}

#[test]
fn round_trip_with_escaped_brace_literals() {
    // `{{` in the pattern stands for one literal `{` in the text
    let input = "a{b 99";
    let r = scan_u32("a{{b {}", input, vec!["n"]);
    assert_eq!(r, Ok(vec![99]));
}
