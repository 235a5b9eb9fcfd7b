use provisioner::error::ParseError;
use provisioner::form::{decode_into, encode_into, encode_pair_into, FormPairs};

// ── FormPairs ──────────────────────────────────────────────────────────

#[test]
fn single_pair() {
    let mut iter = FormPairs::new("ssid=MyWiFi");
    assert_eq!(iter.next(), Some(("ssid", "MyWiFi")));
    assert_eq!(iter.next(), None);
}

#[test]
fn multiple_pairs() {
    let mut iter = FormPairs::new("a=1&b=2&c=3");
    assert_eq!(iter.next(), Some(("a", "1")));
    assert_eq!(iter.next(), Some(("b", "2")));
    assert_eq!(iter.next(), Some(("c", "3")));
    assert_eq!(iter.next(), None);
}

#[test]
fn empty_body() {
    let mut iter = FormPairs::new("");
    assert_eq!(iter.next(), None);
}

#[test]
fn empty_value() {
    let mut iter = FormPairs::new("key=");
    assert_eq!(iter.next(), Some(("key", "")));
    assert_eq!(iter.next(), None);
}

#[test]
fn missing_equals_is_key_with_empty_value() {
    let mut iter = FormPairs::new("flag");
    assert_eq!(iter.next(), Some(("flag", "")));
    assert_eq!(iter.next(), None);
}

#[test]
fn empty_key_with_value() {
    let mut iter = FormPairs::new("=value");
    assert_eq!(iter.next(), Some(("", "value")));
    assert_eq!(iter.next(), None);
}

#[test]
fn trailing_separator() {
    let mut iter = FormPairs::new("a=1&b=2&");
    assert_eq!(iter.next(), Some(("a", "1")));
    assert_eq!(iter.next(), Some(("b", "2")));
    assert_eq!(iter.next(), None);
}

#[test]
fn leading_separator() {
    let mut iter = FormPairs::new("&a=1");
    assert_eq!(iter.next(), Some(("a", "1")));
    assert_eq!(iter.next(), None);
}

#[test]
fn consecutive_separators() {
    let mut iter = FormPairs::new("a=1&&b=2");
    assert_eq!(iter.next(), Some(("a", "1")));
    assert_eq!(iter.next(), Some(("b", "2")));
    assert_eq!(iter.next(), None);
}

#[test]
fn value_contains_equals() {
    let mut iter = FormPairs::new("op=1+1=2");
    assert_eq!(iter.next(), Some(("op", "1+1=2")));
    assert_eq!(iter.next(), None);
}

#[test]
fn iterator_does_not_decode() {
    let mut iter = FormPairs::new("msg=hello%20world+again");
    let (key, raw) = iter.next().unwrap();
    assert_eq!(key, "msg");
    assert_eq!(raw, "hello%20world+again");
    assert_eq!(iter.next(), None);
}

#[test]
fn pairs_after_end_stay_empty() {
    let mut iter = FormPairs::new("a=1&&&");
    assert_eq!(iter.next(), Some(("a", "1")));
    assert_eq!(iter.next(), None);
    assert_eq!(iter.next(), None);
}

#[test]
fn pairs_keep_non_ascii_text() {
    let mut iter = FormPairs::new("n\u{e9}=caf\u{e9}&x");
    assert_eq!(iter.next(), Some(("n\u{e9}", "caf\u{e9}")));
    assert_eq!(iter.next(), Some(("x", "")));
    assert_eq!(iter.next(), None);
}

// ── decode_into ────────────────────────────────────────────────────────

#[test]
fn decode_plain() {
    let mut buf = [0u8; 32];
    let result = decode_into("hello", &mut buf).unwrap();
    assert_eq!(result, "hello");
}

#[test]
fn decode_plus_to_space() {
    let mut buf = [0u8; 32];
    let result = decode_into("hello+world", &mut buf).unwrap();
    assert_eq!(result, "hello world");
}

#[test]
fn decode_multiple_plus() {
    let mut buf = [0u8; 32];
    let result = decode_into("a+b+c", &mut buf).unwrap();
    assert_eq!(result, "a b c");
}

#[test]
fn decode_percent_escape_space() {
    let mut buf = [0u8; 32];
    let result = decode_into("hello%20world", &mut buf).unwrap();
    assert_eq!(result, "hello world");
}

#[test]
fn decode_percent_escape_special_chars() {
    let mut buf = [0u8; 64];
    let result = decode_into("a%3Db%26c%3Dd", &mut buf).unwrap();
    assert_eq!(result, "a=b&c=d");
}

#[test]
fn decode_mixed_plus_and_percent() {
    let mut buf = [0u8; 64];
    let result = decode_into("key%3Dval+ue", &mut buf).unwrap();
    assert_eq!(result, "key=val ue");
}

#[test]
fn decode_all_percent() {
    let mut buf = [0u8; 32];
    let result = decode_into("%48%65%6C%6C%6F", &mut buf).unwrap();
    assert_eq!(result, "Hello");
}

#[test]
fn decode_lowercase_hex() {
    let mut buf = [0u8; 32];
    let result = decode_into("%2fusr%2fbin", &mut buf).unwrap();
    assert_eq!(result, "/usr/bin");
}

#[test]
fn decode_percent_null_byte_valid_utf8() {
    let mut buf = [0u8; 32];
    let result = decode_into("a%00b", &mut buf).unwrap();
    assert_eq!(result, "a\0b");
}

#[test]
fn decode_invalid_utf8_rejected() {
    let mut buf = [0u8; 32];
    assert_eq!(
        decode_into("a%FFb", &mut buf),
        Err(ParseError::InvalidEncoding)
    );
}

#[test]
fn decode_truncated_percent_at_end() {
    let mut buf = [0u8; 32];
    assert_eq!(
        decode_into("bad%", &mut buf),
        Err(ParseError::MalformedEncoding)
    );
}

#[test]
fn decode_truncated_percent_one_hex() {
    let mut buf = [0u8; 32];
    assert_eq!(
        decode_into("bad%2", &mut buf),
        Err(ParseError::MalformedEncoding)
    );
}

#[test]
fn decode_non_hex_percent() {
    let mut buf = [0u8; 32];
    assert_eq!(
        decode_into("bad%GG", &mut buf),
        Err(ParseError::MalformedEncoding)
    );
}

#[test]
fn decode_non_hex_percent_lower() {
    let mut buf = [0u8; 32];
    assert_eq!(
        decode_into("bad%2g", &mut buf),
        Err(ParseError::MalformedEncoding)
    );
}

#[test]
fn decode_buffer_too_small() {
    let mut buf = [0u8; 3];
    assert_eq!(
        decode_into("hello", &mut buf),
        Err(ParseError::MalformedEncoding)
    );
}

#[test]
fn decode_buffer_too_small_percent() {
    let mut buf = [0u8; 2];
    assert_eq!(
        decode_into("a%20b", &mut buf),
        Err(ParseError::MalformedEncoding)
    );
}

#[test]
fn decode_empty_string() {
    let mut buf = [0u8; 1];
    let result = decode_into("", &mut buf).unwrap();
    assert_eq!(result, "");
}

#[test]
fn decode_only_plus() {
    let mut buf = [0u8; 32];
    let result = decode_into("+++", &mut buf).unwrap();
    assert_eq!(result, "   ");
}

#[test]
fn decode_exactly_fitting_buffer() {
    let mut buf = [0u8; 5];
    assert_eq!(decode_into("a%20b+c", &mut buf).unwrap(), "a b c");
}

#[test]
fn decode_leaves_partial_output_on_error() {
    let mut buf = [9u8; 6];
    assert_eq!(
        decode_into("ab+%2", &mut buf),
        Err(ParseError::MalformedEncoding)
    );
    assert_eq!(buf, [b'a', b'b', b' ', 9, 9, 9]);
}

#[test]
fn decode_leaves_tail_unchanged() {
    let mut buf = [7u8; 6];
    assert_eq!(decode_into("%41b", &mut buf).unwrap(), "Ab");
    assert_eq!(buf, [b'A', b'b', 7, 7, 7, 7]);
}

#[test]
fn decode_multibyte_utf8() {
    let mut buf = [0u8; 16];
    assert_eq!(decode_into("caf%C3%A9", &mut buf).unwrap(), "caf\u{e9}");
}

#[test]
fn decode_truncated_utf8_rejected() {
    let mut buf = [0u8; 16];
    assert_eq!(
        decode_into("caf%C3", &mut buf),
        Err(ParseError::InvalidEncoding)
    );
}

// ── Integration: FormPairs + decode_into ───────────────────────────────

#[test]
fn iterate_and_decode_each_pair() {
    let body = "ssid=My+WiFi&password=s3cr3t%21&use_dhcp=true";

    let expected = ["My WiFi", "s3cr3t!", "true"];
    let mut buf = [0u8; 64];
    let mut i = 0;

    let mut pairs = FormPairs::new(body);
    while let Some((_key, raw_value)) = pairs.next() {
        let decoded = decode_into(raw_value, &mut buf).unwrap();
        assert_eq!(decoded, expected[i], "pair {i}");
        i += 1;
    }
    assert_eq!(i, 3);
}

// ── encode_into ────────────────────────────────────────────────────────

#[test]
fn encode_plain() {
    let mut buf = [0u8; 32];
    assert_eq!(encode_into("hello", &mut buf).unwrap(), "hello");
}

#[test]
fn encode_space_to_plus() {
    let mut buf = [0u8; 32];
    assert_eq!(encode_into("hello world", &mut buf).unwrap(), "hello+world");
}

#[test]
fn encode_ampersand() {
    let mut buf = [0u8; 32];
    assert_eq!(encode_into("a&b", &mut buf).unwrap(), "a%26b");
}

#[test]
fn encode_equals() {
    let mut buf = [0u8; 32];
    assert_eq!(encode_into("a=b", &mut buf).unwrap(), "a%3Db");
}

#[test]
fn encode_percent() {
    let mut buf = [0u8; 32];
    assert_eq!(encode_into("100%", &mut buf).unwrap(), "100%25");
}

#[test]
fn encode_plus() {
    let mut buf = [0u8; 32];
    assert_eq!(encode_into("1+1", &mut buf).unwrap(), "1%2B1");
}

#[test]
fn encode_special_chars() {
    let mut buf = [0u8; 64];
    assert_eq!(encode_into("a=b&c+d", &mut buf).unwrap(), "a%3Db%26c%2Bd");
}

#[test]
fn encode_non_ascii() {
    let mut buf = [0u8; 32];
    assert_eq!(encode_into("héllo", &mut buf).unwrap(), "h%C3%A9llo");
}

#[test]
fn encode_empty_string() {
    let mut buf = [0u8; 1];
    assert_eq!(encode_into("", &mut buf).unwrap(), "");
}

#[test]
fn encode_buffer_too_small() {
    let mut buf = [0u8; 2];
    assert_eq!(
        encode_into("hello", &mut buf),
        Err(ParseError::MalformedEncoding)
    );
}

#[test]
fn encode_buffer_too_small_for_percent() {
    let mut buf = [0u8; 2];
    assert_eq!(
        encode_into("a&b", &mut buf),
        Err(ParseError::MalformedEncoding)
    );
}

#[test]
fn encode_exactly_fitting_percent() {
    let mut buf = [0u8; 3];
    assert_eq!(encode_into("&", &mut buf).unwrap(), "%26");
}

#[test]
fn encode_control_and_unreserved_bytes() {
    let mut buf = [0u8; 64];
    assert_eq!(
        encode_into("~_-./:?#[]@!$'()*,\n\t", &mut buf).unwrap(),
        "~_-./:?#[]@!$'()*,%0A%09"
    );
}

#[test]
fn encode_leaves_partial_output_on_error() {
    let mut buf = [9u8; 4];
    assert_eq!(
        encode_into("ab&", &mut buf),
        Err(ParseError::MalformedEncoding)
    );
    assert_eq!(buf, [b'a', b'b', 9, 9]);
}

// ── Round-trip: encode → decode ─────────────────────────────────────────

#[test]
fn round_trip_simple() {
    let plain = "ssid=My WiFi&password=s3cr3t!";
    let mut enc = [0u8; 128];
    let encoded = encode_into(plain, &mut enc).unwrap();

    let mut dec = [0u8; 128];
    let decoded = decode_into(encoded, &mut dec).unwrap();
    assert_eq!(decoded, plain);
}

#[test]
fn round_trip_non_ascii_and_reserved() {
    let plain = "p@ss w\u{f6}rd+100%&=\u{1f600}";
    let mut enc = [0u8; 128];
    let encoded = encode_into(plain, &mut enc).unwrap();
    assert!(!encoded.contains('&') && !encoded.contains('='));
    let mut dec = [0u8; 128];
    assert_eq!(decode_into(encoded, &mut dec).unwrap(), plain);
}

#[test]
fn round_trip_via_pairs() {
    let pairs = [("ssid", "My WiFi"), ("password", "p@ss+w0rd=&%")];
    let mut buf = [0u8; 256];
    let mut used = 0;

    for (k, v) in &pairs {
        encode_pair_into(&mut buf, &mut used, k, v).unwrap();
    }

    let body = core::str::from_utf8(&buf[..used]).unwrap();
    let mut dec_buf = [0u8; 128];
    let mut i = 0;

    let mut iter = FormPairs::new(body);
    while let Some((key, raw_value)) = iter.next() {
        let value = decode_into(raw_value, &mut dec_buf).unwrap();
        assert_eq!(key, pairs[i].0);
        assert_eq!(value, pairs[i].1);
        i += 1;
    }

    assert_eq!(i, pairs.len());
}

// ── encode_pair_into ───────────────────────────────────────────────────────

#[test]
fn encode_pair_single() {
    let mut buf = [0u8; 64];
    let mut used = 0;
    encode_pair_into(&mut buf, &mut used, "ssid", "My WiFi").unwrap();
    assert_eq!(core::str::from_utf8(&buf[..used]).unwrap(), "ssid=My+WiFi");
}

#[test]
fn encode_pair_multiple() {
    let mut buf = [0u8; 128];
    let mut used = 0;
    encode_pair_into(&mut buf, &mut used, "ssid", "My WiFi").unwrap();
    encode_pair_into(&mut buf, &mut used, "password", "s3cr3t!").unwrap();
    assert_eq!(
        core::str::from_utf8(&buf[..used]).unwrap(),
        "ssid=My+WiFi&password=s3cr3t!"
    );
}

#[test]
fn encode_pair_buffer_too_small() {
    let mut buf = [0u8; 4];
    let mut used = 0;
    assert_eq!(
        encode_pair_into(&mut buf, &mut used, "ssid", "My WiFi"),
        Err(ParseError::MalformedEncoding)
    );
}

#[test]
fn encode_pair_failure_counts_complete_pieces() {
    // `&` and the key fit, `=` does not: the count covers `&key`.
    let mut buf = [0u8; 8];
    let mut used = 3;
    assert_eq!(
        encode_pair_into(&mut buf, &mut used, "abcd", "v"),
        Err(ParseError::MalformedEncoding)
    );
    assert_eq!(used, 8);
    assert_eq!(&buf[3..8], b"&abcd");
}

#[test]
fn encode_pair_used_beyond_buffer_is_error() {
    let mut buf = [0u8; 4];
    let mut used = 10;
    assert_eq!(
        encode_pair_into(&mut buf, &mut used, "a", "b"),
        Err(ParseError::MalformedEncoding)
    );
    assert_eq!(used, 10);
}

#[test]
fn encode_pair_exactly_fitting() {
    let mut buf = [0u8; 9];
    let mut used = 0;
    encode_pair_into(&mut buf, &mut used, "k", "a b").unwrap();
    encode_pair_into(&mut buf, &mut used, "x", "").unwrap();
    assert_eq!(used, 8);
    assert_eq!(&buf[..used], b"k=a+b&x=");
}
