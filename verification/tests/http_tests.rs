use provisioner::http::{
    is_portal_probe, parse_request, write_redirect, write_response, HttpError, Method,
    PORTAL_FORM_PATH,
};

// ── parse_request ──────────────────────────────────────────────────────

#[test]
fn parse_get_request() {
    let raw = b"GET / HTTP/1.1\r\nHost: example.com\r\n\r\n";
    let req = parse_request(raw).unwrap();
    assert_eq!(req.method, Method::Get);
    assert_eq!(req.path, "/");
    assert_eq!(req.content_length, None);
    assert!(req.body.is_empty());
}

#[test]
fn parse_get_with_query_string() {
    let raw = b"GET /config?ssid=foo HTTP/1.1\r\nHost: x\r\n\r\n";
    let req = parse_request(raw).unwrap();
    assert_eq!(req.method, Method::Get);
    assert_eq!(req.path, "/config?ssid=foo");
}

#[test]
fn parse_post_with_body() {
    let raw = b"POST /submit HTTP/1.1\r\nContent-Type: application/x-www-form-urlencoded\r\nContent-Length: 7\r\n\r\nfoo=bar";
    let req = parse_request(raw).unwrap();
    assert_eq!(req.method, Method::Post);
    assert_eq!(req.path, "/submit");
    assert_eq!(req.content_length, Some(7));
    assert_eq!(req.body, b"foo=bar");
}

#[test]
fn parse_post_no_body() {
    let raw = b"POST /submit HTTP/1.1\r\nContent-Length: 0\r\n\r\n";
    let req = parse_request(raw).unwrap();
    assert_eq!(req.method, Method::Post);
    assert_eq!(req.content_length, Some(0));
    assert!(req.body.is_empty());
}

#[test]
fn parse_post_no_content_length() {
    let raw = b"POST /submit HTTP/1.1\r\nHost: x\r\n\r\n";
    let req = parse_request(raw).unwrap();
    assert_eq!(req.method, Method::Post);
    assert_eq!(req.content_length, None);
    assert!(req.body.is_empty());
}

#[test]
fn parse_content_length_with_leading_space() {
    let raw = b"POST /x HTTP/1.1\r\nContent-Length:  5\r\n\r\nhello";
    let req = parse_request(raw).unwrap();
    assert_eq!(req.content_length, Some(5));
    assert_eq!(req.body, b"hello");
}

#[test]
fn parse_case_insensitive_content_length() {
    let raw = b"POST /x HTTP/1.1\r\ncontent-length: 4\r\n\r\ntest";
    let req = parse_request(raw).unwrap();
    assert_eq!(req.content_length, Some(4));
    assert_eq!(req.body, b"test");
}

#[test]
fn parse_mixed_case_header() {
    let raw = b"POST /x HTTP/1.1\r\nContent-length: 3\r\n\r\nabc";
    let req = parse_request(raw).unwrap();
    assert_eq!(req.content_length, Some(3));
    assert_eq!(req.body, b"abc");
}

#[test]
fn parse_head_method() {
    let raw = b"HEAD / HTTP/1.1\r\nHost: x\r\n\r\n";
    let req = parse_request(raw).unwrap();
    assert_eq!(req.method, Method::Other);
}

#[test]
fn parse_options_method() {
    let raw = b"OPTIONS / HTTP/1.1\r\nHost: x\r\n\r\n";
    let req = parse_request(raw).unwrap();
    assert_eq!(req.method, Method::Other);
}

#[test]
fn parse_missing_header_separator() {
    let raw = b"GET / HTTP/1.1\r\nHost: x";
    assert_eq!(parse_request(raw), Err(HttpError::MalformedRequest));
}

#[test]
fn parse_empty_buffer() {
    assert_eq!(parse_request(b""), Err(HttpError::MalformedRequest));
}

#[test]
fn parse_invalid_content_length() {
    let raw = b"POST /x HTTP/1.1\r\nContent-Length: abc\r\n\r\nbody";
    assert_eq!(parse_request(raw), Err(HttpError::InvalidContentLength));
}

#[test]
fn parse_no_cr_in_request_line() {
    // Some clients send \n without \r; this is accepted.
    let raw = b"GET / HTTP/1.1\nHost: x\n\n";
    let req = parse_request(raw).unwrap();
    assert_eq!(req.method, Method::Get);
    assert_eq!(req.path, "/");
}

#[test]
fn parse_body_shorter_than_content_length() {
    // Graceful: the body is cut to the available bytes.
    let raw = b"POST /x HTTP/1.1\r\nContent-Length: 100\r\n\r\nshort";
    let req = parse_request(raw).unwrap();
    assert_eq!(req.body, b"short");
}

#[test]
fn parse_request_line_missing_version() {
    let raw = b"GET /\r\nHost: x\r\n\r\n";
    assert_eq!(parse_request(raw), Err(HttpError::MalformedRequest));
}

#[test]
fn parse_request_line_without_spaces() {
    let raw = b"GET\r\n\r\n";
    assert_eq!(parse_request(raw), Err(HttpError::MalformedRequest));
}

#[test]
fn parse_path_not_utf8_is_malformed() {
    let raw = b"GET /\xFF HTTP/1.1\r\n\r\n";
    assert_eq!(parse_request(raw), Err(HttpError::MalformedRequest));
}

#[test]
fn parse_content_length_with_plus_sign() {
    let raw = b"POST /x HTTP/1.1\r\nContent-Length: +2\r\n\r\nabc";
    let req = parse_request(raw).unwrap();
    assert_eq!(req.content_length, Some(2));
    assert_eq!(req.body, b"ab");
}

#[test]
fn parse_content_length_empty_value() {
    let raw = b"POST /x HTTP/1.1\r\nContent-Length:\r\n\r\n";
    assert_eq!(parse_request(raw), Err(HttpError::InvalidContentLength));
}

#[test]
fn parse_content_length_trailing_space() {
    let raw = b"POST /x HTTP/1.1\r\nContent-Length: 3 \r\n\r\nabc";
    assert_eq!(parse_request(raw), Err(HttpError::InvalidContentLength));
}

#[test]
fn parse_content_length_overflow() {
    let raw = b"POST /x HTTP/1.1\r\nContent-Length: 99999999999999999999999\r\n\r\n";
    assert_eq!(parse_request(raw), Err(HttpError::InvalidContentLength));
}

#[test]
fn parse_last_content_length_wins() {
    let raw = b"POST /x HTTP/1.1\r\nContent-Length: 1\r\ncontent-length: 2\r\n\r\nabc";
    let req = parse_request(raw).unwrap();
    assert_eq!(req.content_length, Some(2));
    assert_eq!(req.body, b"ab");
}

#[test]
fn parse_header_without_colon_is_ignored() {
    let raw = b"GET /a HTTP/1.1\r\nnonsense\r\n\r\n";
    let req = parse_request(raw).unwrap();
    assert_eq!(req.path, "/a");
    assert_eq!(req.content_length, None);
}

#[test]
fn parse_body_is_cut_to_content_length() {
    let raw = b"POST /x HTTP/1.1\r\nContent-Length: 2\r\n\r\nabcdef";
    let req = parse_request(raw).unwrap();
    assert_eq!(req.body, b"ab");
}

#[test]
fn parse_lf_separator_with_body() {
    let raw = b"POST /x HTTP/1.1\nContent-Length: 3\n\nxyz";
    let req = parse_request(raw).unwrap();
    assert_eq!(req.method, Method::Post);
    assert_eq!(req.content_length, Some(3));
    assert_eq!(req.body, b"xyz");
}

// ── write_response ─────────────────────────────────────────────────────

#[test]
fn write_200_html() {
    let mut buf = [0u8; 256];
    let n = write_response(&mut buf, 200, "text/html", b"<h1>hi</h1>").unwrap();
    let response = core::str::from_utf8(&buf[..n]).unwrap();
    assert!(response.starts_with("HTTP/1.1 200 OK\r\n"));
    assert!(response.contains("Content-Type: text/html\r\n"));
    assert!(response.contains("Content-Length: 11\r\n"));
    assert!(response.ends_with("\r\n\r\n<h1>hi</h1>"));
}

#[test]
fn write_404() {
    let mut buf = [0u8; 128];
    let n = write_response(&mut buf, 404, "text/plain", b"not found").unwrap();
    let response = core::str::from_utf8(&buf[..n]).unwrap();
    assert!(response.starts_with("HTTP/1.1 404 Not Found\r\n"));
}

#[test]
fn write_303_see_other() {
    let mut buf = [0u8; 128];
    let n = write_response(&mut buf, 303, "text/html", b"").unwrap();
    let response = core::str::from_utf8(&buf[..n]).unwrap();
    assert!(response.starts_with("HTTP/1.1 303 See Other\r\n"));
}

#[test]
fn write_response_buffer_too_small() {
    let mut buf = [0u8; 20];
    assert_eq!(
        write_response(
            &mut buf,
            200,
            "text/html",
            b"hello world, this is a long body"
        ),
        Err(HttpError::BufferTooSmall)
    );
}

#[test]
fn write_response_empty_body() {
    let mut buf = [0u8; 128];
    let n = write_response(&mut buf, 200, "text/plain", b"").unwrap();
    let response = core::str::from_utf8(&buf[..n]).unwrap();
    assert!(response.contains("Content-Length: 0\r\n"));
}

#[test]
fn write_response_exact_bytes() {
    let mut buf = [0xAAu8; 128];
    let n = write_response(&mut buf, 200, "text/plain", b"ok").unwrap();
    let expected = b"HTTP/1.1 200 OK\r\nContent-Type: text/plain\r\nContent-Length: 2\r\n\r\nok";
    assert_eq!(n, expected.len());
    assert_eq!(&buf[..n], &expected[..]);
    assert!(buf[n..].iter().all(|b| *b == 0xAA));
}

#[test]
fn write_response_exact_fit_three_digit_status() {
    let expected = b"HTTP/1.1 302 Found\r\nContent-Type: a\r\nContent-Length: 1\r\n\r\nx";
    let mut buf = [0u8; 64];
    let exact = &mut buf[..expected.len()];
    let n = write_response(exact, 302, "a", b"x").unwrap();
    assert_eq!(n, expected.len());
    assert_eq!(&buf[..n], &expected[..]);

    let mut short = [0u8; 64];
    let one_less = &mut short[..expected.len() - 1];
    assert_eq!(
        write_response(one_less, 302, "a", b"x"),
        Err(HttpError::BufferTooSmall)
    );
}

#[test]
fn write_response_too_small_leaves_buffer_unchanged() {
    let mut buf = [7u8; 10];
    assert_eq!(
        write_response(&mut buf, 200, "text/html", b"body"),
        Err(HttpError::BufferTooSmall)
    );
    assert_eq!(buf, [7u8; 10]);
}

#[test]
fn write_response_unknown_status_says_ok() {
    let mut buf = [0u8; 128];
    let n = write_response(&mut buf, 500, "text/plain", b"").unwrap();
    let response = core::str::from_utf8(&buf[..n]).unwrap();
    assert!(response.starts_with("HTTP/1.1 500 OK\r\n"));
}

#[test]
fn write_response_multi_digit_length() {
    let body = [b'z'; 1234];
    let mut buf = [0u8; 2048];
    let n = write_response(&mut buf, 200, "text/plain", &body).unwrap();
    let response = core::str::from_utf8(&buf[..n]).unwrap();
    assert!(response.contains("Content-Length: 1234\r\n"));
    assert!(response.ends_with(&"z".repeat(1234)));
}

// ── write_redirect ─────────────────────────────────────────────────────

#[test]
fn write_302_redirect() {
    let mut buf = [0u8; 256];
    let n = write_redirect(&mut buf, "http://192.168.4.1/").unwrap();
    let response = core::str::from_utf8(&buf[..n]).unwrap();
    assert!(response.starts_with("HTTP/1.1 302 Found\r\n"));
    assert!(response.contains("Location: http://192.168.4.1/\r\n"));
}

#[test]
fn write_redirect_buffer_too_small() {
    let mut buf = [0u8; 20];
    assert_eq!(
        write_redirect(&mut buf, "http://192.168.4.1/config"),
        Err(HttpError::BufferTooSmall)
    );
}

#[test]
fn write_redirect_exact_bytes() {
    let expected = b"HTTP/1.1 302 Found\r\nLocation: /\r\n\r\n";
    let mut buf = [0u8; 64];
    let exact = &mut buf[..expected.len()];
    let n = write_redirect(exact, "/").unwrap();
    assert_eq!(n, expected.len());
    assert_eq!(&buf[..n], &expected[..]);

    let mut short = [1u8; 64];
    let one_less = &mut short[..expected.len() - 1];
    assert_eq!(write_redirect(one_less, "/"), Err(HttpError::BufferTooSmall));
    assert!(short.iter().all(|b| *b == 1));
}

// ── is_portal_probe ────────────────────────────────────────────────────

#[test]
fn portal_probe_android() {
    assert!(is_portal_probe("/generate_204"));
    assert!(is_portal_probe("/gen_204"));
}

#[test]
fn portal_probe_ios() {
    assert!(is_portal_probe("/hotspot-detect.html"));
    assert!(is_portal_probe("/library/test/success.html"));
}

#[test]
fn portal_probe_windows() {
    assert!(is_portal_probe("/ncsi.txt"));
    assert!(is_portal_probe("/connecttest.txt"));
    assert!(is_portal_probe("/redirect"));
}

#[test]
fn portal_probe_firefox() {
    assert!(is_portal_probe("/canonical.html"));
    assert!(is_portal_probe("/success.txt"));
}

#[test]
fn portal_probe_legacy_android() {
    assert!(is_portal_probe("/mobile/status.php"));
}

#[test]
fn regular_path_not_probe() {
    assert!(!is_portal_probe("/"));
    assert!(!is_portal_probe("/config"));
    assert!(!is_portal_probe("/style.css"));
    assert!(!is_portal_probe(""));
}

#[test]
fn probe_match_is_exact() {
    assert!(!is_portal_probe("/generate_204/"));
    assert!(!is_portal_probe("/Generate_204"));
    assert!(!is_portal_probe("/generate_204?x=1"));
}

// ── Integration ────────────────────────────────────────────────────────

#[test]
fn parse_and_classify_probe() {
    let raw = b"GET /generate_204 HTTP/1.1\r\nHost: connectivitycheck.gstatic.com\r\n\r\n";
    let req = parse_request(raw).unwrap();
    assert!(is_portal_probe(req.path));
}

#[test]
fn parse_post_form_and_respond() {
    let raw = b"POST /config HTTP/1.1\r\nContent-Type: application/x-www-form-urlencoded\r\nContent-Length: 7\r\n\r\nfoo=bar";
    let req = parse_request(raw).unwrap();
    assert_eq!(req.method, Method::Post);
    assert_eq!(req.body, b"foo=bar");

    let mut buf = [0u8; 256];
    let n = write_response(&mut buf, 200, "text/html", b"<h1>Saved</h1>").unwrap();
    assert!(n > 0);
}

#[test]
fn probe_gets_redirect() {
    let raw = b"GET /ncsi.txt HTTP/1.1\r\nHost: www.msftncsi.com\r\n\r\n";
    let req = parse_request(raw).unwrap();
    assert!(is_portal_probe(req.path));

    let mut buf = [0u8; 256];
    let n = write_redirect(&mut buf, PORTAL_FORM_PATH).unwrap();
    let response = core::str::from_utf8(&buf[..n]).unwrap();
    assert!(response.starts_with("HTTP/1.1 302 Found\r\n"));
}

#[test]
fn parse_rejects_unsupported_version() {
    assert_eq!(
        parse_request(b"GET / FOO/1.1\r\nHost: x\r\n\r\n"),
        Err(HttpError::MalformedRequest)
    );
    assert_eq!(
        parse_request(b"GET / HTTP/2\r\n\r\n"),
        Err(HttpError::MalformedRequest)
    );
    assert_eq!(parse_request(b"GET /\r\n\r\n"), Err(HttpError::MalformedRequest));
}

#[test]
fn parse_accepts_http_1_0() {
    let req = parse_request(b"GET /a HTTP/1.0\r\n\r\n").unwrap();
    assert_eq!(req.path, "/a");
}

#[test]
fn parse_huge_content_length_cuts_body() {
    let raw = b"POST /x HTTP/1.1\r\nContent-Length: 18446744073709551615\r\n\r\nab";
    let req = parse_request(raw).unwrap();
    assert_eq!(req.method, Method::Post);
    assert_eq!(req.path, "/x");
    assert_eq!(req.content_length, Some(usize::MAX));
    assert_eq!(req.body, b"ab");
}

#[test]
fn write_response_four_digit_status_too_small() {
    let mut buf = [0u8; 64];
    assert_eq!(
        write_response(&mut buf, 1000, "text/plain", b""),
        Err(HttpError::BufferTooSmall)
    );
    let mut big = [0u8; 65];
    let n = write_response(&mut big, 1000, "text/plain", b"").unwrap();
    assert_eq!(&big[..n], &b"HTTP/1.1 1000 OK\r\nContent-Type: text/plain\r\nContent-Length: 0\r\n\r\n"[..]);
}

#[test]
fn write_response_short_status_exact_fit() {
    let expected = b"HTTP/1.1 5 OK\r\nContent-Type: a\r\nContent-Length: 0\r\n\r\n";
    let mut buf = [0u8; 64];
    let exact = &mut buf[..expected.len()];
    let n = write_response(exact, 5, "a", b"").unwrap();
    assert_eq!(&buf[..n], &expected[..]);
}
