use proxy::range::{content_range_value, range_value};
use proxy::text::{is_white_space, parse_i64, parse_u16, parse_usize, to_decimal};
use proxy::{parse_range, parse_total};

#[test]
fn range_open_ended() {
    assert_eq!(parse_range("bytes=0-"), (0, -1));
    assert_eq!(parse_range("bytes=1024-"), (1024, -1));
}

#[test]
fn range_closed() {
    assert_eq!(parse_range("bytes=1000-2000"), (1000, 2000));
}

#[test]
fn range_absent_or_bad() {
    assert_eq!(parse_range(""), (0, -1));
    assert_eq!(parse_range("byte=0-1"), (0, -1));
    // The suffix form is not supported and asks for the whole.
    assert_eq!(parse_range("bytes=-500"), (0, -1));
}

#[test]
fn range_multi_takes_first() {
    assert_eq!(parse_range("bytes=0-99, 200-299"), (0, 99));
}

#[test]
fn total_from_content_range() {
    assert_eq!(parse_total("bytes 0-99/12345"), Some(12345));
    assert_eq!(parse_total("bytes 0-0/1"), Some(1));
    assert_eq!(parse_total("bytes */*"), None);
    assert_eq!(parse_total("garbage"), None);
}

#[test]
fn range_edge_cases() {
    assert_eq!(parse_range("  bytes= 5 - 9  "), (5, 9));
    assert_eq!(parse_range("\u{a0}bytes=5\u{2003}-\u{3000}9\t"), (5, 9));
    assert_eq!(parse_range("bytes=+5-+9"), (5, 9));
    assert_eq!(parse_range("bytes=5--3"), (5, -3));
    assert_eq!(parse_range("bytes=5-x"), (5, -1));
    assert_eq!(parse_range("bytes=x-5"), (0, -1));
    assert_eq!(parse_range("bytes=5"), (0, -1));
    assert_eq!(parse_range("bytes=,5-9"), (0, -1));
    assert_eq!(parse_range("BYTES=5-9"), (0, -1));
    assert_eq!(parse_range("bytes=9223372036854775807-"), (9223372036854775807, -1));
    assert_eq!(parse_range("bytes=9223372036854775808-9"), (0, -1));
    assert_eq!(parse_range("bytes=1-9223372036854775808"), (1, -1));
    assert_eq!(parse_range("bytes=0-0"), (0, 0));
}

#[test]
fn total_edge_cases() {
    assert_eq!(parse_total("a/b/ 7 "), Some(7));
    assert_eq!(parse_total("/-7"), Some(-7));
    assert_eq!(parse_total("7/"), None);
    assert_eq!(parse_total("/9223372036854775808"), None);
    assert_eq!(parse_total("bytes 0-1/5\u{85}"), Some(5));
}

#[test]
fn written_ranges_read_back() {
    for start in [0i64, 1, 1000, i64::MAX] {
        for end in [i64::MIN, -3, -1, 0, 1, 2000, i64::MAX] {
            assert_eq!(parse_range(&range_value(start, end)), (start, end));
        }
    }
    assert_eq!(range_value(1000, 2000), "bytes=1000-2000");
}

#[test]
fn written_totals_read_back() {
    for total in [i64::MIN, 0, 1, 12345, i64::MAX] {
        assert_eq!(parse_total(&content_range_value(0, 99, total)), Some(total));
    }
    assert_eq!(content_range_value(0, 99, 12345), "bytes 0-99/12345");
}

#[test]
fn white_space_is_that_of_unicode() {
    for n in 0..=0x10ffffu32 {
        if let Some(c) = char::from_u32(n) {
            assert_eq!(is_white_space(c), c.is_whitespace(), "{:x}", n);
        }
    }
}

#[test]
fn integers_are_read_as_by_the_standard_library() {
    let samples = [
        "", "+", "-", "0", "-0", "+0", "00012", "12a", " 1", "1 ", "--1", "+-1", "1_000", "٣",
        "9223372036854775807", "9223372036854775808", "-9223372036854775808",
        "-9223372036854775809", "18446744073709551615", "18446744073709551616",
        "99999999999999999999999999999999999999999999999", "65535", "65536", "+65535", "-5",
        "000000000000000000000000000000000000000000000000000000065535",
    ];
    for s in samples {
        assert_eq!(parse_i64(s), s.parse::<i64>().ok(), "{}", s);
        assert_eq!(parse_usize(s), s.parse::<usize>().ok(), "{}", s);
        assert_eq!(parse_u16(s), s.parse::<u16>().ok(), "{}", s);
    }
}

#[test]
fn integers_are_written_as_by_the_standard_library() {
    for n in [0i64, 7, 10, 99, 100, -1, -10, 1234567890, i64::MAX, i64::MIN] {
        assert_eq!(to_decimal(n), n.to_string());
        assert_eq!(parse_i64(&to_decimal(n)), Some(n));
    }
}
