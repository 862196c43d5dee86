use amp_format::decimal::i64_to_decimal;
use amp_format::decimal::parse_signed;
use amp_format::decimal::parse_unsigned;
use amp_format::decimal::push_digits;
use amp_format::decimal::u64_to_decimal;
use amp_format::text::bytes_to_str;

#[test]
fn integers_are_written_in_base_ten() {
    assert_eq!(b"0".to_vec(), u64_to_decimal(0));
    assert_eq!(b"7".to_vec(), u64_to_decimal(7));
    assert_eq!(b"10".to_vec(), u64_to_decimal(10));
    assert_eq!(b"1090".to_vec(), u64_to_decimal(1090));
    assert_eq!(b"18446744073709551615".to_vec(), u64_to_decimal(u64::MAX));
    assert_eq!(b"0".to_vec(), i64_to_decimal(0));
    assert_eq!(b"-1".to_vec(), i64_to_decimal(-1));
    assert_eq!(b"-9223372036854775808".to_vec(), i64_to_decimal(i64::MIN));
    assert_eq!(b"9223372036854775807".to_vec(), i64_to_decimal(i64::MAX));
}

#[test]
fn digits_are_added_to_what_is_there() {
    let mut out = b"x=".to_vec();
    push_digits(305, &mut out);
    assert_eq!(b"x=305".to_vec(), out);
}

#[test]
fn written_integers_match_the_standard_text() {
    for v in [0u64, 9, 10, 99, 100, 12345, 4294967296, u64::MAX] {
        assert_eq!(v.to_string().into_bytes(), u64_to_decimal(v));
        assert_eq!(Some(v), parse_unsigned(&u64_to_decimal(v), u64::MAX));
    }
    for v in [i64::MIN, -4294967296, -100, -1, 0, 1, 77, i64::MAX] {
        assert_eq!(v.to_string().into_bytes(), i64_to_decimal(v));
        assert_eq!(Some(v), parse_signed(&i64_to_decimal(v), i64::MIN, i64::MAX));
    }
}

#[test]
fn unsigned_text_is_read() {
    assert_eq!(Some(0), parse_unsigned(b"0", 255));
    assert_eq!(Some(255), parse_unsigned(b"255", 255));
    assert_eq!(None, parse_unsigned(b"256", 255));
    assert_eq!(Some(42), parse_unsigned(b"+42", 255));
    assert_eq!(Some(42), parse_unsigned(b"00042", 255));
    assert_eq!(None, parse_unsigned(b"", 255));
    assert_eq!(None, parse_unsigned(b"+", 255));
    assert_eq!(None, parse_unsigned(b"-1", 255));
    assert_eq!(None, parse_unsigned(b"-0", 255));
    assert_eq!(None, parse_unsigned(b"4 2", 255));
    assert_eq!(None, parse_unsigned(b"42 ", 255));
    assert_eq!(None, parse_unsigned(b"0x2a", 255));
    assert_eq!(None, parse_unsigned(b"++1", 255));
    assert_eq!(None, parse_unsigned(b"18446744073709551616", u64::MAX));
    assert_eq!(None, parse_unsigned(b"184467440737095516150", u64::MAX));
}

#[test]
fn signed_text_is_read() {
    assert_eq!(Some(-128), parse_signed(b"-128", -128, 127));
    assert_eq!(None, parse_signed(b"-129", -128, 127));
    assert_eq!(Some(127), parse_signed(b"127", -128, 127));
    assert_eq!(Some(127), parse_signed(b"+127", -128, 127));
    assert_eq!(None, parse_signed(b"128", -128, 127));
    assert_eq!(Some(0), parse_signed(b"-0", -128, 127));
    assert_eq!(Some(-7), parse_signed(b"-007", -128, 127));
    assert_eq!(None, parse_signed(b"-", -128, 127));
    assert_eq!(None, parse_signed(b"--1", -128, 127));
    assert_eq!(None, parse_signed(b"-+1", -128, 127));
    assert_eq!(None, parse_signed(b"1-", -128, 127));
    assert_eq!(None, parse_signed(b"", -128, 127));
    assert_eq!(None, parse_signed(b"-9223372036854775809", i64::MIN, i64::MAX));
    assert_eq!(None, parse_signed(b"9223372036854775808", i64::MIN, i64::MAX));
    assert_eq!(Some(5), parse_signed(b"5", 5, 5));
    assert_eq!(None, parse_signed(b"5", 6, 9));
    assert_eq!(None, parse_signed(b"5", 9, 1));
    assert_eq!(Some(-5), parse_signed(b"-5", -9, -1));
}

#[test]
fn read_integers_match_the_standard_parser() {
    let texts: [&str; 14] = [
        "0", "-0", "+0", "127", "128", "-128", "-129", "+", "-", "", "1e3", "00000000000000000001",
        "٣", "12a",
    ];
    for text in texts {
        assert_eq!(
            text.parse::<i8>().ok().map(|v| v as i64),
            parse_signed(text.as_bytes(), i8::MIN as i64, i8::MAX as i64),
            "{:?}",
            text
        );
        assert_eq!(
            text.parse::<u8>().ok().map(|v| v as u64),
            parse_unsigned(text.as_bytes(), u8::MAX as u64),
            "{:?}",
            text
        );
    }
}

#[test]
fn bytes_are_text_where_they_are_utf8() {
    assert_eq!(Some("caf\u{e9}"), bytes_to_str(&[b'c', b'a', b'f', 0xc3, 0xa9]));
    assert_eq!(Some(""), bytes_to_str(&[]));
    assert_eq!(None, bytes_to_str(&[0xc3]));
    assert_eq!(None, bytes_to_str(&[0xed, 0xa0, 0x80]));
    assert_eq!(None, bytes_to_str(&[0xc0, 0x80]));
}
