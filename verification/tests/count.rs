use cutr::count::{count, format_field, is_space, CountError, FileInfo};
use cutr::head::parse_positive_int;

#[test]
fn test_count() {
    let text = "I don't want the world. I just want yout half.\r\n";
    let info = count(text.as_bytes());
    assert!(info.is_ok());
    let expected = FileInfo { num_lines: 1, num_words: 10, num_bytes: 48, num_chars: 48 };
    assert_eq!(info.unwrap(), expected);
}

#[test]
fn test_format_field() {
    assert_eq!(format_field(1, false), "");
    assert_eq!(format_field(3, true), "       3");
    assert_eq!(format_field(10, true), "      10");
}

#[test]
fn test_parse_positive_int() {
    let res = parse_positive_int("3");
    assert!(res.is_ok());
    assert_eq!(res.unwrap(), 3);
    let res = parse_positive_int("foo");
    assert!(res.is_err());
    assert_eq!(res.unwrap_err().to_string(), "foo".to_string());
    let res = parse_positive_int("0");
    assert!(res.is_err());
    assert_eq!(res.unwrap_err().to_string(), "0".to_string());
}

#[test]
fn positive_int_takes_a_plus_sign_and_zeros() {
    assert_eq!(parse_positive_int("+3"), Ok(3));
    assert_eq!(parse_positive_int("0010"), Ok(10));
    assert_eq!(parse_positive_int("+0010"), Ok(10));
    let max = usize::MAX.to_string();
    assert_eq!(parse_positive_int(&max), Ok(usize::MAX));
}

#[test]
fn positive_int_refuses_the_rest() {
    for bad in ["", "+", "++1", "-1", "+0", "1.0", " 1", "1 ", "1+", "٣"] {
        assert_eq!(parse_positive_int(bad), Err(bad.to_string()), "{:?}", bad);
    }
    let over = format!("{}", usize::MAX as u128 + 1);
    assert_eq!(parse_positive_int(&over), Err(over.clone()));
}

#[test]
fn count_of_nothing() {
    let expected = FileInfo { num_lines: 0, num_words: 0, num_bytes: 0, num_chars: 0 };
    assert_eq!(count(b""), Ok(expected));
}

#[test]
fn count_of_a_last_line_without_line_feed() {
    let expected = FileInfo { num_lines: 2, num_words: 3, num_bytes: 11, num_chars: 11 };
    assert_eq!(count(b"one two\nend"), Ok(expected));
    let expected = FileInfo { num_lines: 3, num_words: 0, num_bytes: 3, num_chars: 3 };
    assert_eq!(count(b"\n\n\n"), Ok(expected));
}

#[test]
fn count_tells_characters_from_bytes() {
    let text = "á b\u{2003}c\u{a0}d\n€";
    let expected = FileInfo { num_lines: 2, num_words: 5, num_bytes: 15, num_chars: 9 };
    assert_eq!(count(text.as_bytes()), Ok(expected));
}

#[test]
fn count_refuses_ill_formed_text() {
    assert_eq!(count(&[b'a', 0xff, b'\n']), Err(CountError::InvalidUtf8));
    assert_eq!(count(&[0xc3]), Err(CountError::InvalidUtf8));
}

#[test]
fn white_space_is_that_of_unicode() {
    for c in '\0'..=char::MAX {
        assert_eq!(is_space(c), c.is_whitespace(), "{:?}", c);
    }
}

#[test]
fn format_field_keeps_wide_numbers_whole() {
    assert_eq!(format_field(0, true), "       0");
    assert_eq!(format_field(12345678, true), "12345678");
    assert_eq!(format_field(123456789, true), "123456789");
    assert_eq!(format_field(usize::MAX, true), format!("{:>8}", usize::MAX));
    assert_eq!(format_field(usize::MAX, false), "");
}
