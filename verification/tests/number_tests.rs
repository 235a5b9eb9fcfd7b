use provisioner::number::{copy_decimal, copy_signed, parse_signed, parse_unsigned};

fn decimal_text(n: u64) -> Vec<u8> {
    let mut buf = [0u8; 24];
    let k = copy_decimal(&mut buf, 0, n);
    buf[..k].to_vec()
}

fn signed_text(v: i64) -> Vec<u8> {
    let mut buf = [0u8; 24];
    let k = copy_signed(&mut buf, 0, v);
    buf[..k].to_vec()
}

#[test]
fn copy_writes_at_position_and_keeps_the_rest() {
    let mut buf = [b'x'; 8];
    assert_eq!(copy_signed(&mut buf, 2, -42), 3);
    assert_eq!(&buf, b"xx-42xxx");
    assert_eq!(copy_decimal(&mut buf, 6, 7), 1);
    assert_eq!(&buf, b"xx-42x7x");
}

#[test]
fn decimal_text_of_numbers() {
    assert_eq!(decimal_text(0), b"0".to_vec());
    assert_eq!(decimal_text(7), b"7".to_vec());
    assert_eq!(decimal_text(10), b"10".to_vec());
    assert_eq!(decimal_text(8080), b"8080".to_vec());
    assert_eq!(decimal_text(u64::MAX), u64::MAX.to_string().into_bytes());
}

#[test]
fn signed_text_of_numbers() {
    assert_eq!(signed_text(0), b"0".to_vec());
    assert_eq!(signed_text(-1), b"-1".to_vec());
    assert_eq!(signed_text(42), b"42".to_vec());
    assert_eq!(signed_text(i64::MIN), i64::MIN.to_string().into_bytes());
    assert_eq!(signed_text(i64::MAX), i64::MAX.to_string().into_bytes());
}

#[test]
fn parse_unsigned_accepts_digits_and_plus() {
    assert_eq!(parse_unsigned(b"0", 255), Some(0));
    assert_eq!(parse_unsigned(b"255", 255), Some(255));
    assert_eq!(parse_unsigned(b"+7", 255), Some(7));
    assert_eq!(parse_unsigned(b"007", 255), Some(7));
    assert_eq!(parse_unsigned(b"18446744073709551615", u64::MAX), Some(u64::MAX));
}

#[test]
fn parse_unsigned_rejects_what_str_parse_rejects() {
    assert_eq!(parse_unsigned(b"256", 255), None);
    assert_eq!(parse_unsigned(b"", 255), None);
    assert_eq!(parse_unsigned(b"+", 255), None);
    assert_eq!(parse_unsigned(b"-1", 255), None);
    assert_eq!(parse_unsigned(b"-0", 255), None);
    assert_eq!(parse_unsigned(b"1a", 255), None);
    assert_eq!(parse_unsigned(b" 1", 255), None);
    assert_eq!(parse_unsigned(b"18446744073709551616", u64::MAX), None);
    assert_eq!(parse_unsigned(b"99999999999999999999999x", u64::MAX), None);
}

#[test]
fn parse_unsigned_agrees_with_str_parse() {
    let samples = ["0", "1", "+1", "-1", "65535", "65536", "", "+", "x", "1_0", "00065535"];
    for s in samples {
        let expected = s.parse::<u16>().ok().map(|v| v as u64);
        assert_eq!(parse_unsigned(s.as_bytes(), u16::MAX as u64), expected, "{}", s);
    }
}

#[test]
fn parse_signed_accepts_signs() {
    assert_eq!(parse_signed(b"-128", -128, 127), Some(-128));
    assert_eq!(parse_signed(b"127", -128, 127), Some(127));
    assert_eq!(parse_signed(b"+5", -128, 127), Some(5));
    assert_eq!(parse_signed(b"-0", -128, 127), Some(0));
    assert_eq!(
        parse_signed(b"-9223372036854775808", i64::MIN, i64::MAX),
        Some(i64::MIN)
    );
}

#[test]
fn parse_signed_rejects_what_str_parse_rejects() {
    assert_eq!(parse_signed(b"-129", -128, 127), None);
    assert_eq!(parse_signed(b"128", -128, 127), None);
    assert_eq!(parse_signed(b"-", -128, 127), None);
    assert_eq!(parse_signed(b"+-1", -128, 127), None);
    assert_eq!(parse_signed(b"--1", -128, 127), None);
    assert_eq!(parse_signed(b"", -128, 127), None);
    assert_eq!(
        parse_signed(b"-9223372036854775809", i64::MIN, i64::MAX),
        None
    );
    assert_eq!(
        parse_signed(b"9223372036854775808", i64::MIN, i64::MAX),
        None
    );
}

#[test]
fn parse_signed_agrees_with_str_parse() {
    let samples = ["0", "-0", "+0", "-128", "-129", "127", "128", "-", "+", "+-3", "12a", ""];
    for s in samples {
        let expected = s.parse::<i8>().ok().map(|v| v as i64);
        assert_eq!(parse_signed(s.as_bytes(), i8::MIN as i64, i8::MAX as i64), expected, "{}", s);
    }
}

#[test]
fn text_parses_back() {
    for v in [i64::MIN, -1000, -1, 0, 1, 99, i64::MAX] {
        let t = signed_text(v);
        assert_eq!(parse_signed(&t, i64::MIN, i64::MAX), Some(v));
    }
    for n in [0u64, 9, 10, 12345, u64::MAX] {
        let t = decimal_text(n);
        assert_eq!(parse_unsigned(&t, u64::MAX), Some(n));
    }
}
