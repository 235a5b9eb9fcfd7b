//! Minimal HTTP/1.1 request parser and response writer, covering what a
//! WiFi captive portal needs: method, path, `Content-Length` and body on
//! the way in; a status line, two headers and a body, or a redirect, on the
//! way out.
use vstd::prelude::*;
use vstd::utf8::*;
use vstd::string::StringSliceAdditionalSpecFns;
use crate::text::{first_index_of, lemma_first_index_of, lemma_first_index_of_unique, str_from_utf8,
    str_equal, bytes_equal, lemma_extend_prefix, lemma_update_as_write, lemma_ascii_literal, copy_bytes};
use crate::number::{unsigned_value, parse_unsigned, decimal, lemma_decimal_u64, digit_count,
    copy_decimal};

verus! {

broadcast use vstd::string::group_string_axioms;

/// Errors that can occur while parsing an HTTP request or writing a response.
#[derive(Debug, Clone, Copy, PartialEq, Eq)]
pub enum HttpError {
    /// The request line (method, path, version) could not be parsed.
    MalformedRequest,
    /// A header line could not be parsed.
    MalformedHeader,
    /// The `Content-Length` header value is not a valid unsigned integer.
    InvalidContentLength,
    /// The provided output buffer is too small for the response.
    BufferTooSmall,
}

/// HTTP method extracted from the request line.
#[derive(Debug, Clone, Copy, PartialEq, Eq)]
pub enum Method {
    Get,
    Post,
    /// Any method other than `GET` or `POST` (e.g. `HEAD`, `OPTIONS`).
    Other,
}

/// A parsed HTTP/1.1 request.  The path and body borrow from the input.
#[derive(Debug, Clone, PartialEq, Eq)]
pub struct Request<'a> {
    /// The HTTP method.
    pub method: Method,
    /// The request path (e.g. `"/"`, `"/config"`).
    pub path: &'a str,
    /// Value of the `Content-Length` header, if present.
    pub content_length: Option<usize>,
    /// The request body, bounded by `content_length` and by the input.
    pub body: &'a [u8],
}

// ── Model of request parsing ───────────────────────────────────────────────

/// Index of the first occurrence of `needle` in `hay`.
pub open spec fn find_seq(hay: Seq<u8>, needle: Seq<u8>) -> Option<int>
    decreases hay.len(),
{
    if hay.len() < needle.len() {
        None
    } else if hay.take(needle.len() as int) == needle {
        Some(0)
    } else if hay.len() == 0 {
        None
    } else {
        match find_seq(hay.drop_first(), needle) {
            Some(i) => Some(i + 1),
            None => None,
        }
    }
}

/// `\r\n\r\n`
pub open spec fn crlf_crlf() -> Seq<u8> {
    seq![13u8, 10, 13, 10]
}

/// `\n\n`
pub open spec fn lf_lf() -> Seq<u8> {
    seq![10u8, 10]
}

/// Where the headers end and how long the separator is: the first
/// `\r\n\r\n`, or else the first `\n\n`.
pub open spec fn header_separator(buf: Seq<u8>) -> Option<(int, int)> {
    match find_seq(buf, crlf_crlf()) {
        Some(p) => Some((p, 4)),
        None => match find_seq(buf, lf_lf()) {
            Some(p) => Some((p, 2)),
            None => None,
        },
    }
}

/// A line without its trailing `\r`, if any.
pub open spec fn strip_cr(line: Seq<u8>) -> Seq<u8> {
    if line.len() > 0 && line.last() == 13 {
        line.drop_last()
    } else {
        line
    }
}

/// `s` without its leading spaces and tabs.
pub open spec fn trim_blank(s: Seq<u8>) -> Seq<u8>
    decreases s.len(),
{
    if s.len() > 0 && (s[0] == 32 || s[0] == 9) {
        trim_blank(s.drop_first())
    } else {
        s
    }
}

/// ASCII lower-casing of one byte.
pub open spec fn ascii_lower(b: u8) -> u8 {
    if 65 <= b <= 90 {
        (b + 32) as u8
    } else {
        b
    }
}

/// `content-length`
pub open spec fn content_length_name() -> Seq<u8> {
    seq![99u8, 111, 110, 116, 101, 110, 116, 45, 108, 101, 110, 103, 116, 104]
}

/// The header name is `Content-Length`, in any ASCII case.
pub open spec fn is_content_length_name(name: Seq<u8>) -> bool {
    name.len() == content_length_name().len() && forall|i: int|
        0 <= i < name.len() ==> #[trigger] ascii_lower(name[i]) == content_length_name()[i]
}


/// What `str::parse::<usize>` accepts: an optional `+`, then one or more
/// decimal digits whose value fits in `usize`.
pub open spec fn parse_usize(s: Seq<u8>) -> Option<usize> {
    match unsigned_value(s) {
        Some(v) => if v <= usize::MAX {
            Some(v as usize)
        } else {
            None
        },
        None => None,
    }
}

/// The headers after the request line, as the parser reads them line by
/// line: every line must end in `\n`; a `Content-Length` header (any case,
/// value after `:` with leading blanks dropped) sets the length, the last
/// one winning; other lines are ignored.
pub open spec fn scan_headers(h: Seq<u8>, cl: Option<usize>) -> Result<Option<usize>, HttpError>
    decreases h.len(),
{
    if h.len() == 0 {
        Ok(cl)
    } else {
        match first_index_of(h, 10) {
            None => Err(HttpError::MalformedHeader),
            Some(le) => {
                proof {
                    lemma_first_index_of(h, 10);
                }
                let line = strip_cr(h.take(le));
                let next = h.skip(le + 1);
                if line.len() == 0 {
                    scan_headers(next, cl)
                } else {
                    match first_index_of(line, 58) {
                        None => scan_headers(next, cl),
                        Some(c) => {
                            if is_content_length_name(line.take(c)) {
                                match parse_usize(trim_blank(line.skip(c + 1))) {
                                    None => Err(HttpError::InvalidContentLength),
                                    Some(n) => scan_headers(next, Some(n)),
                                }
                            } else {
                                scan_headers(next, cl)
                            }
                        },
                    }
                }
            },
        }
    }
}

/// `HTTP/1.`
pub open spec fn http1_prefix() -> Seq<u8> {
    seq![72u8, 84, 84, 80, 47, 49, 46]
}

/// Splits a request line on spaces: the method is the first piece, the
/// path the second, and the third piece, the version, must be an HTTP/1.x
/// version (it must start with `HTTP/1.`).
pub open spec fn request_line_parts(line: Seq<u8>) -> Option<(Seq<u8>, Seq<u8>)> {
    match first_index_of(line, 32) {
        None => None,
        Some(a) => {
            let after = line.skip(a + 1);
            match first_index_of(after, 32) {
                None => None,
                Some(b) => {
                    let version = after.skip(b + 1);
                    if version.len() >= 7 && version.take(7) == http1_prefix() {
                        Some((line.take(a), after.take(b)))
                    } else {
                        None
                    }
                },
            }
        },
    }
}

/// `GET`, `POST`, or anything else.
pub open spec fn method_of(m: Seq<u8>) -> Method {
    if m == seq![71u8, 69, 84] {
        Method::Get
    } else if m == seq![80u8, 79, 83, 84] {
        Method::Post
    } else {
        Method::Other
    }
}

/// The outcome of parsing a request buffer: the method, the path bytes,
/// the content length, and where the body starts and ends in the buffer.
/// The path must be valid UTF-8.
pub open spec fn spec_parse_request(buf: Seq<u8>) -> Result<
    (Method, Seq<u8>, Option<usize>, int, int),
    HttpError,
> {
    match header_separator(buf) {
        None => Err(HttpError::MalformedRequest),
        Some((he, sl)) => {
            let headers = buf.take(he + (if sl == 4 { 2int } else { 1int }));
            let body_start = he + sl;
            match first_index_of(headers, 10) {
                None => Err(HttpError::MalformedRequest),
                Some(fle) => match request_line_parts(strip_cr(headers.take(fle))) {
                    None => Err(HttpError::MalformedRequest),
                    Some((m, p)) => {
                        if !valid_utf8(p) {
                            Err(HttpError::MalformedRequest)
                        } else {
                            match scan_headers(headers.skip(fle + 1), None) {
                                Err(e) => Err(e),
                                Ok(cl) => {
                                    let want = body_start + match cl {
                                        Some(n) => n as int,
                                        None => 0int,
                                    };
                                    let body_end = if want < buf.len() {
                                        want
                                    } else {
                                        buf.len() as int
                                    };
                                    Ok((method_of(m), p, cl, body_start, body_end))
                                },
                            }
                        }
                    },
                },
            }
        },
    }
}

// ── Lemmas ─────────────────────────────────────────────────────────────────

/// Characterises `find_seq` without recursion.
proof fn lemma_find_seq(hay: Seq<u8>, needle: Seq<u8>)
    ensures
        match find_seq(hay, needle) {
            Some(i) => 0 <= i && i + needle.len() <= hay.len() && hay.subrange(i, i + needle.len())
                == needle && forall|j: int|
                0 <= j < i ==> #[trigger] hay.subrange(j, j + needle.len()) != needle,
            None => forall|j: int|
                0 <= j && j + needle.len() <= hay.len() ==> #[trigger] hay.subrange(
                    j,
                    j + needle.len(),
                ) != needle,
        },
    decreases hay.len(),
{
    let n = needle.len() as int;
    if hay.len() < n {
    } else if hay.take(n) == needle {
        assert(hay.subrange(0, n) == hay.take(n));
    } else if hay.len() == 0 {
        assert(hay.subrange(0, n) =~= hay.take(n));
    } else {
        let t = hay.drop_first();
        lemma_find_seq(t, needle);
        assert(hay.subrange(0, n) == hay.take(n));
        match find_seq(t, needle) {
            Some(i) => {
                assert(hay.subrange(i + 1, i + 1 + n) =~= t.subrange(i, i + n));
                assert forall|j: int| 0 <= j < i + 1 implies #[trigger] hay.subrange(j, j + n)
                    != needle by {
                    if j > 0 {
                        assert(hay.subrange(j, j + n) =~= t.subrange(j - 1, j - 1 + n));
                    }
                }
            },
            None => {
                assert forall|j: int| 0 <= j && j + n <= hay.len() implies #[trigger] hay.subrange(
                    j,
                    j + n,
                ) != needle by {
                    if j > 0 {
                        assert(hay.subrange(j, j + n) =~= t.subrange(j - 1, j - 1 + n));
                    }
                }
            },
        }
    }
}

/// `find_seq` is determined by its non-recursive characterisation.
proof fn lemma_find_seq_unique(hay: Seq<u8>, needle: Seq<u8>, r: Option<int>)
    requires
        match r {
            Some(i) => 0 <= i && i + needle.len() <= hay.len() && hay.subrange(i, i + needle.len())
                == needle && forall|j: int|
                0 <= j < i ==> #[trigger] hay.subrange(j, j + needle.len()) != needle,
            None => forall|j: int|
                0 <= j && j + needle.len() <= hay.len() ==> #[trigger] hay.subrange(
                    j,
                    j + needle.len(),
                ) != needle,
        },
    ensures
        find_seq(hay, needle) == r,
{
    lemma_find_seq(hay, needle);
    let n = needle.len() as int;
    match (find_seq(hay, needle), r) {
        (Some(i), Some(k)) => {
            if i < k {
                assert(hay.subrange(i, i + n) != needle);
            } else if k < i {
                assert(hay.subrange(k, k + n) != needle);
            }
        },
        (Some(i), None) => {
            assert(hay.subrange(i, i + n) != needle);
        },
        (None, Some(k)) => {
            assert(hay.subrange(k, k + n) != needle);
        },
        (None, None) => {},
    }
}


// ── Byte scanning ──────────────────────────────────────────────────────────

/// Index of the first `needle` byte in `haystack`.
fn find_byte(haystack: &[u8], needle: u8) -> (r: Option<usize>)
    ensures
        match r {
            Some(i) => first_index_of(haystack@, needle) == Some(i as int) && i < haystack.len()
                && haystack@[i as int] == needle,
            None => first_index_of(haystack@, needle) is None,
        },
{
    let mut i: usize = 0;
    while i < haystack.len()
        invariant
            i <= haystack@.len(),
            forall|j: int| 0 <= j < i ==> haystack@[j] != needle,
        decreases haystack@.len() - i,
    {
        if haystack[i] == needle {
            proof {
                lemma_first_index_of_unique(haystack@, needle, Some(i as int));
            }
            return Some(i);
        }
        i += 1;
    }
    proof {
        lemma_first_index_of_unique(haystack@, needle, None);
    }
    None
}

/// Index of the first occurrence of `needle` in `haystack`.
fn find_subsequence(haystack: &[u8], needle: &[u8]) -> (r: Option<usize>)
    requires
        needle@.len() > 0,
    ensures
        match r {
            Some(i) => find_seq(haystack@, needle@) == Some(i as int) && i + needle.len()
                <= haystack.len(),
            None => find_seq(haystack@, needle@) is None,
        },
{
    let n = needle.len();
    if haystack.len() < n {
        proof {
            lemma_find_seq_unique(haystack@, needle@, None);
        }
        return None;
    }
    let mut i: usize = 0;
    while i <= haystack.len() - n
        invariant
            n == needle@.len(),
            n > 0,
            n <= haystack@.len(),
            i <= haystack@.len() - n + 1,
            forall|j: int| 0 <= j < i ==> #[trigger] haystack@.subrange(j, j + n) != needle@,
        decreases haystack@.len() - n + 1 - i,
    {
        let window = &haystack[i..i + n];
        if bytes_equal(window, needle) {
            proof {
                lemma_find_seq_unique(haystack@, needle@, Some(i as int));
            }
            return Some(i);
        }
        i += 1;
    }
    proof {
        lemma_find_seq_unique(haystack@, needle@, None);
    }
    None
}

/// `bytes` without leading spaces and tabs.
fn trim_left_ascii_whitespace(bytes: &[u8]) -> (r: &[u8])
    ensures
        r@ == trim_blank(bytes@),
{
    let mut start: usize = 0;
    assert(bytes@.skip(0) =~= bytes@);
    while start < bytes.len() && (bytes[start] == 32u8 || bytes[start] == 9u8)
        invariant
            start <= bytes@.len(),
            trim_blank(bytes@) == trim_blank(bytes@.skip(start as int)),
        decreases bytes@.len() - start,
    {
        assert(bytes@.skip(start as int).drop_first() =~= bytes@.skip(start + 1));
        start += 1;
    }
    let r = &bytes[start..bytes.len()];
    assert(r@ =~= bytes@.skip(start as int));
    r
}

/// `line` without a trailing `\r`.
fn strip_cr_bytes(line: &[u8]) -> (r: &[u8])
    ensures
        r@ == strip_cr(line@),
{
    if line.len() > 0 && line[line.len() - 1] == 13u8 {
        let r = &line[0..line.len() - 1];
        assert(r@ =~= line@.drop_last());
        r
    } else {
        line
    }
}

/// Whether `name` is `Content-Length` in any ASCII case.
fn is_content_length_header(name: &[u8]) -> (r: bool)
    ensures
        r == is_content_length_name(name@),
{
    let target: [u8; 14] = [99, 111, 110, 116, 101, 110, 116, 45, 108, 101, 110, 103, 116, 104];
    assert(target@ =~= content_length_name());
    if name.len() != 14 {
        return false;
    }
    let mut i: usize = 0;
    while i < 14
        invariant
            name@.len() == 14,
            target@ == content_length_name(),
            i <= 14,
            forall|j: int| 0 <= j < i ==> #[trigger] ascii_lower(name@[j]) == content_length_name()[j],
        decreases 14 - i,
    {
        let b = name[i];
        let lower = if b >= 65u8 && b <= 90u8 {
            b + 32
        } else {
            b
        };
        if lower != target[i] {
            assert(ascii_lower(name@[i as int]) != content_length_name()[i as int]);
            return false;
        }
        i += 1;
    }
    true
}

/// Parses a `Content-Length` value as `str::parse::<usize>` does.
fn parse_content_length(value: &[u8]) -> (r: Option<usize>)
    ensures
        r == parse_usize(value@),
{
    match parse_unsigned(value, usize::MAX as u64) {
        Some(n) => Some(n as usize),
        None => None,
    }
}


// ── Request parsing ────────────────────────────────────────────────────────

/// Parses `METHOD /path VERSION` into the method and the path.
fn parse_request_line(line: &[u8]) -> (r: Result<(Method, &str), HttpError>)
    ensures
        match (r, request_line_parts(line@)) {
            (Ok((m, p)), Some((mb, pb))) => m == method_of(mb) && p.spec_bytes() == pb
                && valid_utf8(pb),
            (Err(e), Some((mb, pb))) => e == HttpError::MalformedRequest && !valid_utf8(pb),
            (Err(e), None) => e == HttpError::MalformedRequest,
            _ => false,
        },
{
    let first_space = match find_byte(line, 32u8) {
        Some(a) => a,
        None => return Err(HttpError::MalformedRequest),
    };
    assert(first_space < line.len());
    let method_bytes = &line[0..first_space];
    let after = &line[first_space + 1..line.len()];
    assert(after@ =~= line@.skip(first_space + 1));
    let second_space = match find_byte(after, 32u8) {
        Some(b) => b,
        None => return Err(HttpError::MalformedRequest),
    };
    proof {
        lemma_first_index_of(after@, 32);
    }
    let version = &after[second_space + 1..after.len()];
    assert(version@ =~= after@.skip(second_space + 1));
    if version.len() < 7 {
        return Err(HttpError::MalformedRequest);
    }
    let http1: [u8; 7] = [72, 84, 84, 80, 47, 49, 46];
    assert(http1@ =~= http1_prefix());
    let version_head = &version[0..7];
    assert(version_head@ =~= version@.take(7));
    if !bytes_equal(version_head, http1.as_slice()) {
        return Err(HttpError::MalformedRequest);
    }
    let path_bytes = &after[0..second_space];
    assert(method_bytes@ =~= line@.take(first_space as int));
    assert(path_bytes@ =~= after@.take(second_space as int));
    let get: [u8; 3] = [71, 69, 84];
    let post: [u8; 4] = [80, 79, 83, 84];
    assert(get@ =~= seq![71u8, 69, 84]);
    assert(post@ =~= seq![80u8, 79, 83, 84]);
    let method = if bytes_equal(method_bytes, get.as_slice()) {
        Method::Get
    } else if bytes_equal(method_bytes, post.as_slice()) {
        Method::Post
    } else {
        Method::Other
    };
    match str_from_utf8(path_bytes) {
        Some(path) => Ok((method, path)),
        None => Err(HttpError::MalformedRequest),
    }
}

/// Reads the header lines of `headers` from `start`, as `scan_headers`
/// describes.
fn scan_header_lines(headers: &[u8], start: usize) -> (r: Result<Option<usize>, HttpError>)
    requires
        start <= headers@.len(),
    ensures
        r == scan_headers(headers@.skip(start as int), None),
{
    let mut content_length: Option<usize> = None;
    let mut pos: usize = start;
    while pos < headers.len()
        invariant
            start <= pos <= headers@.len(),
            scan_headers(headers@.skip(start as int), None) == scan_headers(
                headers@.skip(pos as int),
                content_length,
            ),
        decreases headers@.len() - pos,
    {
        let rest = &headers[pos..headers.len()];
        assert(rest@ =~= headers@.skip(pos as int));
        let line_end = match find_byte(rest, 10u8) {
            Some(i) => i,
            None => return Err(HttpError::MalformedHeader),
        };
        proof {
            lemma_first_index_of(rest@, 10);
        }
        let raw_line = &rest[0..line_end];
        assert(raw_line@ =~= rest@.take(line_end as int));
        let line = strip_cr_bytes(raw_line);
        if line.len() > 0 {
            match find_byte(line, 58u8) {
                Some(colon) => {
                    proof {
                        lemma_first_index_of(line@, 58);
                    }
                    let name = &line[0..colon];
                    let value = trim_left_ascii_whitespace(&line[colon + 1..line.len()]);
                    assert(name@ =~= line@.take(colon as int));
                    assert(line@.subrange(colon + 1, line@.len() as int) =~= line@.skip(colon + 1));
                    if is_content_length_header(name) {
                        match parse_content_length(value) {
                            Some(n) => {
                                content_length = Some(n);
                            },
                            None => return Err(HttpError::InvalidContentLength),
                        }
                    }
                },
                None => {},
            }
        }
        assert(rest@.skip(line_end + 1) =~= headers@.skip(pos + line_end + 1));
        pos = pos + line_end + 1;
    }
    assert(headers@.skip(pos as int) =~= Seq::<u8>::empty());
    Ok(content_length)
}

/// Parses a raw HTTP/1.1 request buffer into a [`Request`].
///
/// The headers must end with `\r\n\r\n` (or `\n\n`).  Only the request
/// line and `Content-Length` are interpreted; the body is cut to
/// `Content-Length` bytes, or to what the buffer holds, and is empty without
/// the header.
///
/// Fails with `MalformedRequest` when the separator or a request-line piece
/// is missing, the version is not `HTTP/1.x`, or the path is not UTF-8, with `MalformedHeader` when a header
/// line does not end in a newline, and with `InvalidContentLength` when a
/// `Content-Length` value is not an unsigned integer.
pub fn parse_request(buf: &[u8]) -> (r: Result<Request<'_>, HttpError>)
    ensures
        match (r, spec_parse_request(buf@)) {
            (Ok(req), Ok((m, p, cl, bs, be))) => req.method == m && req.path.spec_bytes() == p
                && req.content_length == cl && req.body@ == buf@.subrange(bs, be),
            (Err(e), Err(f)) => e == f,
            _ => false,
        },
{
    let sep4: [u8; 4] = [13, 10, 13, 10];
    let sep2: [u8; 2] = [10, 10];
    assert(sep4@ =~= crlf_crlf());
    assert(sep2@ =~= lf_lf());
    let (header_end, sep_len) = match find_subsequence(buf, sep4.as_slice()) {
        Some(p) => (p, 4usize),
        None => match find_subsequence(buf, sep2.as_slice()) {
            Some(p) => (p, 2usize),
            None => return Err(HttpError::MalformedRequest),
        },
    };
    proof {
        lemma_find_seq(buf@, crlf_crlf());
        lemma_find_seq(buf@, lf_lf());
        assert(header_separator(buf@) == Some((header_end as int, sep_len as int)));
    }
    assert(header_end + sep_len <= buf.len());
    let last_eol: usize = if sep_len == 4 {
        2
    } else {
        1
    };
    let headers = &buf[0..header_end + last_eol];
    let body_start = header_end + sep_len;
    assert(headers@ =~= buf@.take(header_end + last_eol));
    let first_line_end = match find_byte(headers, 10u8) {
        Some(i) => i,
        None => return Err(HttpError::MalformedRequest),
    };
    proof {
        lemma_first_index_of(headers@, 10);
    }
    let first_line = &headers[0..first_line_end];
    assert(first_line@ =~= headers@.take(first_line_end as int));
    let request_line = strip_cr_bytes(first_line);
    let (method, path) = match parse_request_line(request_line) {
        Ok(mp) => mp,
        Err(e) => return Err(e),
    };
    let content_length = match scan_header_lines(headers, first_line_end + 1) {
        Ok(cl) => cl,
        Err(e) => return Err(e),
    };
    let body_len: usize = match content_length {
        Some(n) => n,
        None => 0,
    };
    // The body ends `body_len` bytes after its start, or with the buffer.
    let body_end = if body_len < buf.len() - body_start {
        body_start + body_len
    } else {
        buf.len()
    };
    let body = &buf[body_start..body_end];
    Ok(Request { method, path, content_length, body })
}


// ── Response writing ───────────────────────────────────────────────────────


/// `\r\n`
pub open spec fn crlf() -> Seq<u8> {
    seq![13u8, 10]
}

/// `HTTP/1.1 `
pub open spec fn http_version_prefix() -> Seq<u8> {
    seq![72u8, 84, 84, 80, 47, 49, 46, 49, 32]
}

/// `Content-Type: `
pub open spec fn content_type_prefix() -> Seq<u8> {
    seq![67u8, 111, 110, 116, 101, 110, 116, 45, 84, 121, 112, 101, 58, 32]
}

/// `Content-Length: `
pub open spec fn content_length_prefix() -> Seq<u8> {
    seq![67u8, 111, 110, 116, 101, 110, 116, 45, 76, 101, 110, 103, 116, 104, 58, 32]
}

/// The reason phrase for a status: `OK` for 200, `Found` for 302,
/// `See Other` for 303, `Not Found` for 404, and `OK` for anything else.
pub open spec fn reason_phrase(status: u16) -> Seq<u8> {
    if status == 302 {
        seq![70u8, 111, 117, 110, 100]
    } else if status == 303 {
        seq![83u8, 101, 101, 32, 79, 116, 104, 101, 114]
    } else if status == 404 {
        seq![78u8, 111, 116, 32, 70, 111, 117, 110, 100]
    } else {
        seq![79u8, 75]
    }
}

/// The full response: status line, `Content-Type`, `Content-Length`, a
/// blank line, then the body.
pub open spec fn response_bytes(status: u16, content_type: Seq<u8>, body: Seq<u8>) -> Seq<u8> {
    http_version_prefix() + decimal(status as nat) + seq![32u8] + reason_phrase(status) + crlf()
        + content_type_prefix() + content_type + crlf() + content_length_prefix() + decimal(
        body.len(),
    ) + crlf() + crlf() + body
}


/// `HTTP/1.1 302 Found\r\n`
pub open spec fn redirect_status_line() -> Seq<u8> {
    seq![72u8, 84, 84, 80, 47, 49, 46, 49, 32, 51, 48, 50, 32, 70, 111, 117, 110, 100, 13, 10]
}

/// `Location: `
pub open spec fn location_prefix() -> Seq<u8> {
    seq![76u8, 111, 99, 97, 116, 105, 111, 110, 58, 32]
}

/// A `302 Found` response pointing to `location`.
pub open spec fn redirect_bytes(location: Seq<u8>) -> Seq<u8> {
    redirect_status_line() + location_prefix() + location + crlf() + crlf()
}


/// Human-readable reason phrase for common HTTP status codes.
fn status_reason(status: u16) -> (r: &'static str)
    ensures
        r.spec_bytes() == reason_phrase(status),
{
    if status == 200 {
        proof {
            reveal_strlit("OK");
            lemma_ascii_literal("OK");
        }
        "OK"
    } else if status == 302 {
        proof {
            reveal_strlit("Found");
            lemma_ascii_literal("Found");
        }
        "Found"
    } else if status == 303 {
        proof {
            reveal_strlit("See Other");
            lemma_ascii_literal("See Other");
        }
        "See Other"
    } else if status == 404 {
        proof {
            reveal_strlit("Not Found");
            lemma_ascii_literal("Not Found");
        }
        "Not Found"
    } else {
        proof {
            reveal_strlit("OK");
            lemma_ascii_literal("OK");
        }
        "OK"
    }
}



/// Copies the bytes of `src` into `dst` at `pos`.
fn copy_str(dst: &mut [u8], pos: usize, src: &str) -> (n: usize)
    requires
        pos + src.spec_bytes().len() <= old(dst).len(),
    ensures
        n == src.spec_bytes().len(),
        final(dst)@ == old(dst)@.take(pos as int) + src.spec_bytes() + old(dst)@.skip(
            pos + src.spec_bytes().len(),
        ),
{
    copy_bytes(dst, pos, src.as_bytes())
}


/// Writes the decimal digits of a status code into `dst` at `pos`.
fn copy_u16(dst: &mut [u8], pos: usize, val: u16) -> (n: usize)
    requires
        pos + decimal(val as nat).len() <= old(dst).len(),
    ensures
        n == decimal(val as nat).len(),
        final(dst)@ == old(dst)@.take(pos as int) + decimal(val as nat) + old(dst)@.skip(pos + n),
{
    copy_decimal(dst, pos, val as u64)
}


/// The length of a response, piece by piece.
proof fn lemma_response_len(status: u16, content_type: Seq<u8>, body: Seq<u8>)
    ensures
        response_bytes(status, content_type, body).len() == 48 + decimal(status as nat).len()
            + reason_phrase(status).len() + content_type.len() + decimal(body.len()).len()
            + body.len(),
{
    assert(http_version_prefix().len() == 9);
    assert(crlf().len() == 2);
    assert(content_type_prefix().len() == 14);
    assert(content_length_prefix().len() == 16);
}

/// Writes an HTTP/1.1 response with the given status, content type and
/// body into `out`; returns the number of bytes written.
///
/// When `out` cannot hold the whole response, `BufferTooSmall` is returned
/// and `out` is left unchanged.
pub fn write_response(out: &mut [u8], status: u16, content_type: &str, body: &[u8]) -> (r: Result<
    usize,
    HttpError,
>)
    ensures
        final(out)@.len() == old(out)@.len(),
        match r {
            Ok(n) => n == response_bytes(status, content_type.spec_bytes(), body@).len()
                && final(out)@ == response_bytes(status, content_type.spec_bytes(), body@)
                + old(out)@.skip(n as int),
            Err(e) => e == HttpError::BufferTooSmall && old(out)@.len() < response_bytes(
                status,
                content_type.spec_bytes(),
                body@,
            ).len() && final(out)@ == old(out)@,
        },
{
    let reason = status_reason(status);
    proof {
        lemma_decimal_u64(status as u64);
        lemma_decimal_u64(body.len() as u64);
        lemma_response_len(status, content_type.spec_bytes(), body@);
    }
    let out_len = out.len();
    assert(out_len == out@.len());
    let reason_len = reason.as_bytes().len();
    let type_len = content_type.as_bytes().len();
    assert(reason_len == reason_phrase(status).len());
    assert(type_len == content_type.spec_bytes().len());
    // Status line, the two headers and the blank line, without the
    // variable parts, take 48 bytes.
    let fixed: usize = 48 + digit_count(status as u64) + reason_len + digit_count(
        body.len() as u64,
    );
    let with_type = match fixed.checked_add(type_len) {
        Some(n) => n,
        None => return Err(HttpError::BufferTooSmall),
    };
    let needed = match with_type.checked_add(body.len()) {
        Some(n) => n,
        None => return Err(HttpError::BufferTooSmall),
    };
    assert(needed == response_bytes(status, content_type.spec_bytes(), body@).len());
    if out.len() < needed {
        return Err(HttpError::BufferTooSmall);
    }
    let ghost orig = old(out)@;
    let ghost ct = content_type.spec_bytes();
    let ghost full = response_bytes(status, ct, body@);
    let version: [u8; 9] = [72, 84, 84, 80, 47, 49, 46, 49, 32];
    let eol: [u8; 2] = [13, 10];
    let type_prefix: [u8; 14] = [67, 111, 110, 116, 101, 110, 116, 45, 84, 121, 112, 101, 58, 32];
    let length_prefix: [u8; 16] = [
        67, 111, 110, 116, 101, 110, 116, 45, 76, 101, 110, 103, 116, 104, 58, 32,
    ];
    assert(version@ =~= http_version_prefix());
    assert(eol@ =~= crlf());
    assert(type_prefix@ =~= content_type_prefix());
    assert(length_prefix@ =~= content_length_prefix());
    let ghost mut p = Seq::<u8>::empty();
    assert(out@ =~= p + orig.skip(0));
    let mut pos: usize = 0;

    // Status line.
    let ghost o = out@;
    pos += copy_bytes(out, pos, version.as_slice());
    proof {
        lemma_extend_prefix(orig, p, http_version_prefix(), o, out@);
        p = p + http_version_prefix();
    }
    let ghost o = out@;
    pos += copy_u16(out, pos, status);
    proof {
        lemma_extend_prefix(orig, p, decimal(status as nat), o, out@);
        p = p + decimal(status as nat);
    }
    let ghost o = out@;
    proof {
        lemma_update_as_write(o, pos as int, 32u8);
    }
    out[pos] = 32u8;
    pos += 1;
    proof {
        lemma_extend_prefix(orig, p, seq![32u8], o, out@);
        p = p + seq![32u8];
    }
    let ghost o = out@;
    pos += copy_str(out, pos, reason);
    proof {
        lemma_extend_prefix(orig, p, reason_phrase(status), o, out@);
        p = p + reason_phrase(status);
    }
    let ghost o = out@;
    pos += copy_bytes(out, pos, eol.as_slice());
    proof {
        lemma_extend_prefix(orig, p, crlf(), o, out@);
        p = p + crlf();
    }

    // Content-Type.
    let ghost o = out@;
    pos += copy_bytes(out, pos, type_prefix.as_slice());
    proof {
        lemma_extend_prefix(orig, p, content_type_prefix(), o, out@);
        p = p + content_type_prefix();
    }
    let ghost o = out@;
    pos += copy_str(out, pos, content_type);
    proof {
        lemma_extend_prefix(orig, p, ct, o, out@);
        p = p + ct;
    }
    let ghost o = out@;
    pos += copy_bytes(out, pos, eol.as_slice());
    proof {
        lemma_extend_prefix(orig, p, crlf(), o, out@);
        p = p + crlf();
    }

    // Content-Length.
    let ghost o = out@;
    pos += copy_bytes(out, pos, length_prefix.as_slice());
    proof {
        lemma_extend_prefix(orig, p, content_length_prefix(), o, out@);
        p = p + content_length_prefix();
    }
    let ghost o = out@;
    pos += copy_decimal(out, pos, body.len() as u64);
    proof {
        lemma_extend_prefix(orig, p, decimal(body@.len()), o, out@);
        p = p + decimal(body@.len());
    }
    let ghost o = out@;
    pos += copy_bytes(out, pos, eol.as_slice());
    proof {
        lemma_extend_prefix(orig, p, crlf(), o, out@);
        p = p + crlf();
    }
    let ghost o = out@;
    pos += copy_bytes(out, pos, eol.as_slice());
    proof {
        lemma_extend_prefix(orig, p, crlf(), o, out@);
        p = p + crlf();
    }

    // Body.
    let ghost o = out@;
    pos += copy_bytes(out, pos, body);
    proof {
        lemma_extend_prefix(orig, p, body@, o, out@);
        p = p + body@;
        assert(p =~= full);
    }
    Ok(pos)
}

/// Writes an HTTP redirect response (`302 Found`) to `location` into
/// `out`; returns the number of bytes written, or `BufferTooSmall` (with
/// `out` unchanged) when it does not fit.
pub fn write_redirect(out: &mut [u8], location: &str) -> (r: Result<usize, HttpError>)
    ensures
        final(out)@.len() == old(out)@.len(),
        match r {
            Ok(n) => n == redirect_bytes(location.spec_bytes()).len() && final(out)@
                == redirect_bytes(location.spec_bytes()) + old(out)@.skip(n as int),
            Err(e) => e == HttpError::BufferTooSmall && old(out)@.len() < redirect_bytes(
                location.spec_bytes(),
            ).len() && final(out)@ == old(out)@,
        },
{
    let out_len = out.len();
    assert(out_len == out@.len());
    let needed = match location.as_bytes().len().checked_add(34) {
        Some(n) => n,
        None => return Err(HttpError::BufferTooSmall),
    };
    assert(redirect_status_line().len() == 20 && location_prefix().len() == 10 && crlf().len() == 2);
    if out.len() < needed {
        return Err(HttpError::BufferTooSmall);
    }
    let ghost orig = old(out)@;
    let ghost loc = location.spec_bytes();
    let status_line: [u8; 20] = [
        72, 84, 84, 80, 47, 49, 46, 49, 32, 51, 48, 50, 32, 70, 111, 117, 110, 100, 13, 10,
    ];
    let location_header: [u8; 10] = [76, 111, 99, 97, 116, 105, 111, 110, 58, 32];
    let eol: [u8; 2] = [13, 10];
    assert(status_line@ =~= redirect_status_line());
    assert(location_header@ =~= location_prefix());
    assert(eol@ =~= crlf());
    let ghost mut p = Seq::<u8>::empty();
    assert(out@ =~= p + orig.skip(0));
    let mut pos: usize = 0;
    let ghost o = out@;
    pos += copy_bytes(out, pos, status_line.as_slice());
    proof {
        lemma_extend_prefix(orig, p, redirect_status_line(), o, out@);
        p = p + redirect_status_line();
    }
    let ghost o = out@;
    pos += copy_bytes(out, pos, location_header.as_slice());
    proof {
        lemma_extend_prefix(orig, p, location_prefix(), o, out@);
        p = p + location_prefix();
    }
    let ghost o = out@;
    pos += copy_str(out, pos, location);
    proof {
        lemma_extend_prefix(orig, p, loc, o, out@);
        p = p + loc;
    }
    let ghost o = out@;
    pos += copy_bytes(out, pos, eol.as_slice());
    proof {
        lemma_extend_prefix(orig, p, crlf(), o, out@);
        p = p + crlf();
    }
    let ghost o = out@;
    pos += copy_bytes(out, pos, eol.as_slice());
    proof {
        lemma_extend_prefix(orig, p, crlf(), o, out@);
        p = p + crlf();
        assert(p =~= redirect_bytes(loc));
    }
    Ok(pos)
}


// ── Captive portal probes ──────────────────────────────────────────────────

/// The paths that devices request to detect a captive portal: Android,
/// iOS / macOS, Windows, Firefox and older Android probes.
pub open spec fn is_probe_path(p: Seq<char>) -> bool {
    ||| p == "/generate_204"@
    ||| p == "/gen_204"@
    ||| p == "/hotspot-detect.html"@
    ||| p == "/library/test/success.html"@
    ||| p == "/ncsi.txt"@
    ||| p == "/connecttest.txt"@
    ||| p == "/redirect"@
    ||| p == "/canonical.html"@
    ||| p == "/success.txt"@
    ||| p == "/mobile/status.php"@
}

/// Returns `true` if `path` is a known captive-portal probe endpoint; the
/// portal answers such requests with a redirect to its form.
pub fn is_portal_probe(path: &str) -> (r: bool)
    ensures
        r == is_probe_path(path@),
{
    str_equal(path, "/generate_204") || str_equal(path, "/gen_204") || str_equal(
        path,
        "/hotspot-detect.html",
    ) || str_equal(path, "/library/test/success.html") || str_equal(path, "/ncsi.txt")
        || str_equal(path, "/connecttest.txt") || str_equal(path, "/redirect") || str_equal(
        path,
        "/canonical.html",
    ) || str_equal(path, "/success.txt") || str_equal(path, "/mobile/status.php")
}

/// The path that captive-portal probes are redirected to.
pub const PORTAL_FORM_PATH: &'static str = "/";


/// The ten probe paths: Android, iOS / macOS, Windows, Firefox and older
/// Android.
pub open spec fn probe_paths() -> Seq<Seq<char>> {
    seq![
        "/generate_204"@,
        "/gen_204"@,
        "/hotspot-detect.html"@,
        "/library/test/success.html"@,
        "/ncsi.txt"@,
        "/connecttest.txt"@,
        "/redirect"@,
        "/canonical.html"@,
        "/success.txt"@,
        "/mobile/status.php"@,
    ]
}

/// A path is answered as a probe exactly when it is one of the ten probe
/// paths; every other path, the form's own path among them, is not.
pub proof fn lemma_probe_paths_exact(p: Seq<char>)
    ensures
        is_probe_path(p) <==> probe_paths().contains(p),
        probe_paths().len() == 10,
{
    let ps = probe_paths();
    if is_probe_path(p) {
        if p == ps[0] { assert(ps[0] == "/generate_204"@); }
        assert(ps[0] == "/generate_204"@);
        assert(ps[1] == "/gen_204"@);
        assert(ps[2] == "/hotspot-detect.html"@);
        assert(ps[3] == "/library/test/success.html"@);
        assert(ps[4] == "/ncsi.txt"@);
        assert(ps[5] == "/connecttest.txt"@);
        assert(ps[6] == "/redirect"@);
        assert(ps[7] == "/canonical.html"@);
        assert(ps[8] == "/success.txt"@);
        assert(ps[9] == "/mobile/status.php"@);
    }
    if ps.contains(p) {
        let i = choose|i: int| 0 <= i < ps.len() && ps[i] == p;
        assert(0 <= i < 10);
    }
}


// ── Laws of header scanning ────────────────────────────────────────────────

/// Header lines, each followed by `\r\n`.
pub open spec fn crlf_lines(ls: Seq<Seq<u8>>) -> Seq<u8>
    decreases ls.len(),
{
    if ls.len() == 0 {
        seq![]
    } else {
        ls[0] + crlf() + crlf_lines(ls.drop_first())
    }
}

/// A line holds neither `\r` nor `\n`.
pub open spec fn plain_line(l: Seq<u8>) -> bool {
    forall|j: int| 0 <= j < l.len() ==> #[trigger] l[j] != 13 && l[j] != 10
}

/// The line is a `Content-Length` header: what comes before its first `:`
/// is `Content-Length` in any ASCII case.
pub open spec fn is_length_header(l: Seq<u8>) -> bool {
    match first_index_of(l, 58) {
        Some(c) => is_content_length_name(l.take(c)),
        None => false,
    }
}

/// The value of a `Content-Length` header: what follows its first `:`,
/// without leading blanks, read as `str::parse::<usize>` reads it.
pub open spec fn length_header_value(l: Seq<u8>) -> Option<usize> {
    match first_index_of(l, 58) {
        Some(c) => parse_usize(trim_blank(l.skip(c + 1))),
        None => None,
    }
}

/// Scanning one plain line followed by `\r\n`: a `Content-Length` header
/// sets the length (or fails on a bad value), any other line leaves it as
/// it was.
proof fn lemma_scan_one_line(l: Seq<u8>, rest: Seq<u8>, cl: Option<usize>)
    requires
        plain_line(l),
    ensures
        scan_headers(l + crlf() + rest, cl) == (if is_length_header(l) {
            match length_header_value(l) {
                Some(n) => scan_headers(rest, Some(n)),
                None => Err(HttpError::InvalidContentLength),
            }
        } else {
            scan_headers(rest, cl)
        }),
{
    let h = l + crlf() + rest;
    let le = l.len() as int;
    assert(h[le] == 13 && h[le + 1] == 10);
    assert forall|j: int| 0 <= j < le + 1 implies h[j] != 10 by {
        if j < le {
            assert(h[j] == l[j]);
        }
    }
    lemma_first_index_of_unique(h, 10, Some(le + 1));
    assert(h.take(le + 1) =~= l + seq![13u8]);
    assert(strip_cr(l + seq![13u8]) =~= l);
    assert(h.skip(le + 2) =~= rest);
    if l.len() == 0 {
        lemma_first_index_of_unique(l, 58, None);
    }
}

/// Lines with no `Content-Length` header leave the length as it was.
pub proof fn lemma_scan_without_length(hs: Seq<Seq<u8>>, cl: Option<usize>)
    requires
        forall|i: int| 0 <= i < hs.len() ==> plain_line(#[trigger] hs[i]),
        forall|i: int| 0 <= i < hs.len() ==> !is_length_header(#[trigger] hs[i]),
    ensures
        scan_headers(crlf_lines(hs), cl) == Ok::<Option<usize>, HttpError>(cl),
    decreases hs.len(),
{
    if hs.len() > 0 {
        let rest = hs.drop_first();
        assert forall|i: int| 0 <= i < rest.len() implies plain_line(#[trigger] rest[i])
            && !is_length_header(rest[i]) by {
            assert(rest[i] == hs[i + 1]);
        }
        assert(plain_line(hs[0]) && !is_length_header(hs[0]));
        lemma_scan_without_length(rest, cl);
        lemma_scan_one_line(hs[0], crlf_lines(rest), cl);
    }
}

/// The length comes from the last `Content-Length` header: when line `k`
/// is one with value `n`, no later line is one, and every earlier one has
/// a valid value, the scan gives `n`, whatever other lines surround it.
pub proof fn lemma_scan_last_length(hs: Seq<Seq<u8>>, k: int, n: usize, cl: Option<usize>)
    requires
        forall|i: int| 0 <= i < hs.len() ==> plain_line(#[trigger] hs[i]),
        0 <= k < hs.len(),
        is_length_header(hs[k]),
        length_header_value(hs[k]) == Some(n),
        forall|i: int| k < i < hs.len() ==> !is_length_header(#[trigger] hs[i]),
        forall|i: int|
            0 <= i < k && is_length_header(#[trigger] hs[i]) ==> length_header_value(hs[i]) is Some,
    ensures
        scan_headers(crlf_lines(hs), cl) == Ok::<Option<usize>, HttpError>(Some(n)),
    decreases hs.len(),
{
    let rest = hs.drop_first();
    assert forall|i: int| 0 <= i < rest.len() implies plain_line(#[trigger] rest[i]) by {
        assert(rest[i] == hs[i + 1]);
    }
    assert(plain_line(hs[0]));
    if k == 0 {
        assert forall|i: int| 0 <= i < rest.len() implies !is_length_header(#[trigger] rest[i]) by {
            assert(rest[i] == hs[i + 1]);
        }
        lemma_scan_without_length(rest, Some(n));
        lemma_scan_one_line(hs[0], crlf_lines(rest), cl);
    } else {
        assert forall|i: int| k - 1 < i < rest.len() implies !is_length_header(#[trigger] rest[i]) by {
            assert(rest[i] == hs[i + 1]);
        }
        assert forall|i: int|
            0 <= i < k - 1 && is_length_header(#[trigger] rest[i]) implies length_header_value(
            rest[i],
        ) is Some by {
            assert(rest[i] == hs[i + 1]);
        }
        assert(rest[k - 1] == hs[k]);
        let next_cl = if is_length_header(hs[0]) {
            length_header_value(hs[0])
        } else {
            cl
        };
        lemma_scan_last_length(rest, k - 1, n, next_cl);
        lemma_scan_one_line(hs[0], crlf_lines(rest), cl);
    }
}


/// A request as clients write it: the request line, each header line, and
/// a blank line, each ending in `\r\n`, then the body.
pub open spec fn request_bytes(line: Seq<u8>, hs: Seq<Seq<u8>>, body: Seq<u8>) -> Seq<u8> {
    line + crlf() + crlf_lines(hs) + crlf() + body
}

/// After the request line's `\r\n`, a `\n` is never followed by `\r` until
/// the final blank line: every header line is non-empty and plain.
proof fn lemma_no_lf_cr(hs: Seq<Seq<u8>>)
    requires
        forall|i: int| 0 <= i < hs.len() ==> plain_line(#[trigger] hs[i]) && hs[i].len() > 0,
    ensures
        ({
            let x = crlf() + crlf_lines(hs);
            forall|q: int| 0 <= q < x.len() - 1 && #[trigger] x[q] == 10 ==> x[q + 1] != 13
        }),
        crlf_lines(hs).len() >= 2 * hs.len(),
    decreases hs.len(),
{
    let x = crlf() + crlf_lines(hs);
    if hs.len() > 0 {
        let rest = hs.drop_first();
        assert forall|i: int| 0 <= i < rest.len() implies plain_line(#[trigger] rest[i])
            && rest[i].len() > 0 by {
            assert(rest[i] == hs[i + 1]);
        }
        lemma_no_lf_cr(rest);
        let h = hs[0];
        assert(plain_line(h) && h.len() > 0);
        let y = crlf() + crlf_lines(rest);
        assert(x =~= crlf() + h + y);
        assert forall|q: int| 0 <= q < x.len() - 1 && #[trigger] x[q] == 10 implies x[q + 1]
            != 13 by {
            if q == 0 {
            } else if q == 1 {
                assert(x[2] == h[0]);
            } else if q < 2 + h.len() {
                assert(x[q] == h[q - 2]);
            } else {
                let r = q - 2 - h.len();
                assert(x[q] == y[r]);
                assert(x[q + 1] == y[r + 1]);
            }
        }
    }
}

/// A request written as clients write it is parsed into its request line's
/// method and path, the length from its last `Content-Length` header, and
/// the body that follows the blank line, cut to that length and to the
/// buffer; header lines of any other kind, before or after, change nothing.
pub proof fn lemma_request_length(
    line: Seq<u8>,
    hs: Seq<Seq<u8>>,
    body: Seq<u8>,
    k: int,
    n: usize,
)
    requires
        plain_line(line),
        forall|i: int| 0 <= i < hs.len() ==> plain_line(#[trigger] hs[i]) && hs[i].len() > 0,
        request_line_parts(line) is Some,
        valid_utf8((request_line_parts(line)->0).1),
        0 <= k < hs.len(),
        is_length_header(hs[k]),
        length_header_value(hs[k]) == Some(n),
        forall|i: int| k < i < hs.len() ==> !is_length_header(#[trigger] hs[i]),
        forall|i: int|
            0 <= i < k && is_length_header(#[trigger] hs[i]) ==> length_header_value(hs[i]) is Some,
    ensures
        ({
            let buf = request_bytes(line, hs, body);
            let start = buf.len() - body.len();
            let end = if n < body.len() {
                start + n
            } else {
                buf.len() as int
            };
            spec_parse_request(buf) == Ok::<(Method, Seq<u8>, Option<usize>, int, int), HttpError>(
                (
                    method_of((request_line_parts(line)->0).0),
                    (request_line_parts(line)->0).1,
                    Some(n),
                    start,
                    end,
                ),
            )
        }),
{
    let buf = request_bytes(line, hs, body);
    let l = crlf_lines(hs);
    let x = crlf() + l;
    lemma_no_lf_cr(hs);
    let ll = line.len() as int;
    let he = ll + l.len();
    assert(buf =~= line + x + crlf() + body);
    // The separator: right after the last header line.
    assert(buf.subrange(he, he + 4) =~= crlf_crlf()) by {
        if hs.len() > 0 {
            assert(l.len() >= 2);
            assert(l[l.len() - 2] == 13 && l[l.len() - 1] == 10) by {
                lemma_crlf_lines_end(hs);
            }
            assert(buf[he] == l[l.len() - 2]);
            assert(buf[he + 1] == l[l.len() - 1]);
        } else {
            assert(l.len() == 0);
        }
    }
    assert forall|j: int| 0 <= j < he implies #[trigger] buf.subrange(j, j + 4) != crlf_crlf() by {
        if buf.subrange(j, j + 4) == crlf_crlf() {
            assert(buf[j + 1] == buf.subrange(j, j + 4)[1]);
            assert(buf[j + 2] == buf.subrange(j, j + 4)[2]);
            if j + 1 < ll {
                assert(buf[j + 1] == line[j + 1]);
            } else {
                let q = j + 1 - ll;
                assert(buf[j + 1] == x[q]);
                assert(buf[j + 2] == x[q + 1]);
            }
        }
    }
    lemma_find_seq_unique(buf, crlf_crlf(), Some(he));
    assert(header_separator(buf) == Some((he, 4int)));
    let headers = buf.take(he + 2);
    assert(headers =~= line + x);
    assert forall|j: int| 0 <= j < ll + 1 implies headers[j] != 10 by {
        if j < ll {
            assert(headers[j] == line[j]);
        }
    }
    assert(headers[ll + 1] == 10);
    lemma_first_index_of_unique(headers, 10, Some(ll + 1));
    assert(headers.take(ll + 1) =~= line + seq![13u8]);
    assert(strip_cr(line + seq![13u8]) =~= line);
    assert(headers.skip(ll + 2) =~= l);
    lemma_scan_last_length(hs, k, n, None);
}

/// Header lines end in `\r\n`.
proof fn lemma_crlf_lines_end(hs: Seq<Seq<u8>>)
    requires
        hs.len() > 0,
    ensures
        crlf_lines(hs).len() >= 2,
        crlf_lines(hs)[crlf_lines(hs).len() - 2] == 13,
        crlf_lines(hs)[crlf_lines(hs).len() - 1] == 10,
    decreases hs.len(),
{
    let rest = hs.drop_first();
    if rest.len() > 0 {
        lemma_crlf_lines_end(rest);
    } else {
        assert(crlf_lines(rest) == Seq::<u8>::empty());
    }
    let l = crlf_lines(hs);
    assert(l == hs[0] + crlf() + crlf_lines(rest));
}

} // verus!
