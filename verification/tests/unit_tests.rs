//! The individual components: literal matcher, capture extraction,
//! conversion and error rendering.

use text_io::convert::{u32_to_string, u64_to_string, FromText};
use text_io::{match_next, parse_capture, ByteStream, Error};

fn stream(s: &str) -> ByteStream {
    ByteStream::new(s.as_bytes().to_vec())
}

#[test]
fn match_next_consumes_on_success() {
    let mut st = stream("xy");
    assert_eq!(match_next(b'x', &mut st), Ok(()));
    assert_eq!(st.next(), Some(b'y'));
}

#[test]
fn match_next_reports_expected_and_actual() {
    let mut st = stream("a");
    assert_eq!(match_next(b'b', &mut st), Err(Error::UnexpectedValue(b'b', Some(b'a'))));
    let mut empty = stream("");
    assert_eq!(match_next(b'b', &mut empty), Err(Error::UnexpectedValue(b'b', None)));
}

#[test]
fn parse_capture_delimited_leaves_delimiter() {
    let mut st = stream("41,rest");
    let r: Result<u32, Error> = parse_capture("n", Some(b','), &mut st);
    assert_eq!(r, Ok(41));
    // the delimiter is not consumed by the capture itself
    assert_eq!(st.next(), Some(b','));
}

#[test]
fn parse_capture_whitespace_bounded() {
    let mut st = stream("\t\r\n 77 tail");
    let r: Result<u32, Error> = parse_capture("n", None, &mut st);
    assert_eq!(r, Ok(77));
    // the boundary byte is left unconsumed
    assert_eq!(st.next(), Some(b' '));
    assert_eq!(st.next(), Some(b't'));
}

#[test]
fn u32_from_text_bounds() {
    assert_eq!(u32::from_text("0"), Some(0));
    assert_eq!(u32::from_text("042"), Some(42));
    assert_eq!(u32::from_text("4294967295"), Some(u32::MAX));
    assert_eq!(u32::from_text("4294967296"), None);
    assert_eq!(u32::from_text("99999999999"), None);
    assert_eq!(u32::from_text(""), None);
    assert_eq!(u32::from_text("1a"), None);
    assert_eq!(u32::from_text("-1"), None);
    assert_eq!(u32::from_text("+1"), None);
}

#[test]
fn i32_from_text_signs_and_bounds() {
    assert_eq!(i32::from_text("-42"), Some(-42));
    assert_eq!(i32::from_text("42"), Some(42));
    assert_eq!(i32::from_text("-0"), Some(0));
    assert_eq!(i32::from_text("-2147483648"), Some(i32::MIN));
    assert_eq!(i32::from_text("-2147483649"), None);
    assert_eq!(i32::from_text("2147483647"), Some(i32::MAX));
    assert_eq!(i32::from_text("2147483648"), None);
    assert_eq!(i32::from_text("-"), None);
    assert_eq!(i32::from_text("--1"), None);
}

#[test]
fn scan_negative_number() {
    let mut st = stream("t = -7");
    let names = vec!["t"];
    let r = text_io::run_scan::<i32>(&"t = {}".as_bytes().to_vec(), &mut st, &names);
    assert_eq!(r, Ok(vec![-7]));
}

#[test]
fn string_from_text_is_identity() {
    assert_eq!(String::from_text("any text"), Some("any text".to_string()));
    assert_eq!(String::from_text(""), Some("".to_string()));
}

#[test]
fn decimal_rendering() {
    assert_eq!(u32_to_string(0), "0");
    assert_eq!(u32_to_string(7), "7");
    assert_eq!(u32_to_string(12345), "12345");
    assert_eq!(u32_to_string(4294967295), "4294967295");
    assert_eq!(u64_to_string(18446744073709551615), "18446744073709551615");
}

#[test]
fn error_descriptions() {
    assert_eq!(
        Error::MissingMatch.description(),
        "pattern has no capture marker for a requested value"
    );
    assert_eq!(Error::MissingClosingBrace.description(), "pattern ends inside a capture marker");
    assert_eq!(
        Error::UnexpectedValue(b'a', None).description(),
        "found value not matching the pattern"
    );
    assert_eq!(Error::InvalidUtf8(vec![0xff]).description(), "input was not valid utf8");
    assert_eq!(
        Error::PartialUtf8(1, vec![b'a', 0xff]).description(),
        "input was only partially valid utf8"
    );
    assert_eq!(
        Error::Parse("x".to_string(), "n").description(),
        "could not parse input as the target type"
    );
}

#[test]
fn error_rendering() {
    assert_eq!(
        Error::UnexpectedValue(98, Some(97)).render(),
        "found byte 97 where byte 98 was expected"
    );
    assert_eq!(
        Error::UnexpectedValue(98, None).render(),
        "found end of input where byte 98 was expected"
    );
    assert_eq!(Error::InvalidUtf8(vec![0xff, 0xfe]).render(), "input of 2 bytes was not valid utf8");
    assert_eq!(
        Error::PartialUtf8(3, vec![b'a', b'b', b'c', 0xff]).render(),
        "input was valid utf8 only in its first 3 of 4 bytes"
    );
    assert_eq!(
        Error::Parse("many".to_string(), "answer").render(),
        "could not parse many as the target type of answer"
    );
    assert_eq!(
        Error::MissingMatch.render(),
        "pattern has no capture marker for a requested value"
    );
}
