//! URL-encoded form body coder/decoder (`application/x-www-form-urlencoded`).
//!
//! Works on borrowed byte buffers supplied by the caller; nothing is
//! allocated.
use vstd::prelude::*;
use vstd::utf8::*;
use vstd::string::StringSliceAdditionalSpecFns;
use crate::error::ParseError;
use crate::text::{all_ascii, first_index_of, lemma_first_index_of, lemma_first_index_of_unique, lemma_ascii_valid_utf8, lemma_split_at_ascii, lemma_boundary_after_ascii, str_from_utf8};

verus! {

broadcast use vstd::string::group_string_axioms;

// ── Mathematical model ─────────────────────────────────────────────────────

/// The 4-bit value of a hexadecimal digit (`0`-`9`, `a`-`f`, `A`-`F`).
pub open spec fn hex_value(b: u8) -> Option<u8> {
    if 48 <= b <= 57 {
        Some((b - 48) as u8)
    } else if 97 <= b <= 102 {
        Some((b - 87) as u8)
    } else if 65 <= b <= 70 {
        Some((b - 55) as u8)
    } else {
        None
    }
}

/// The upper-case hexadecimal digit for a value below 16.
pub open spec fn hex_char(n: u8) -> u8 {
    if n < 10 {
        (48 + n) as u8
    } else {
        (55 + n) as u8
    }
}

/// Bytes that the encoder copies unchanged: ASCII letters and digits and
/// the punctuation `~_-./:?#[]@!$'()*,`.
pub open spec fn is_unreserved(b: u8) -> bool {
    ||| 48 <= b <= 57
    ||| 65 <= b <= 90
    ||| 97 <= b <= 122
    ||| b == 126 /* ~ */ || b == 95 /* _ */ || b == 45 /* - */ || b == 46 /* . */
    ||| b == 47 /* / */ || b == 58 /* : */ || b == 63 /* ? */ || b == 35 /* # */
    ||| b == 91 /* [ */ || b == 93 /* ] */ || b == 64 /* @ */ || b == 33 /* ! */
    ||| b == 36 /* $ */ || b == 39 /* ' */ || b == 40 /* ( */ || b == 41 /* ) */
    ||| b == 42 /* * */ || b == 44 /* , */
}

/// `%XX` with upper-case hex digits.
pub open spec fn percent_bytes(b: u8) -> Seq<u8> {
    seq![37u8, hex_char(b / 16), hex_char(b % 16)]
}

/// The encoding of one plaintext byte: space becomes `+`, unreserved bytes
/// stay, everything else (including `&`, `=`, `%`, `+`, control and
/// non-ASCII bytes) becomes `%XX`.
pub open spec fn encode_byte(b: u8) -> Seq<u8> {
    if b == 32 {
        seq![43u8]
    } else if is_unreserved(b) {
        seq![b]
    } else {
        percent_bytes(b)
    }
}

/// The URL encoding of a byte sequence.
pub open spec fn form_encode(s: Seq<u8>) -> Seq<u8>
    decreases s.len(),
{
    if s.len() == 0 {
        seq![]
    } else {
        encode_byte(s[0]) + form_encode(s.drop_first())
    }
}

/// What the encoder writes into `room` free bytes: the encodings of the
/// leading plaintext bytes, up to the first one whose encoding no longer
/// fits.
pub open spec fn encode_within(s: Seq<u8>, room: int) -> Seq<u8>
    decreases s.len(),
{
    if s.len() == 0 || encode_byte(s[0]).len() > room {
        seq![]
    } else {
        encode_byte(s[0]) + encode_within(s.drop_first(), room - encode_byte(s[0]).len())
    }
}

/// Prepends `p` to a successful decoding result.
pub open spec fn prepend(p: Seq<u8>, r: Option<Seq<u8>>) -> Option<Seq<u8>> {
    match r {
        Some(d) => Some(p + d),
        None => None,
    }
}

/// The URL decoding of a byte sequence: `+` becomes a space, `%XX` the byte
/// with hex value `XX`, other bytes stay.  `None` when a `%` is not followed
/// by two hex digits.
pub open spec fn form_decode(s: Seq<u8>) -> Option<Seq<u8>>
    decreases s.len(),
{
    if s.len() == 0 {
        Some(seq![])
    } else if s[0] == 37 {
        if s.len() < 3 {
            None
        } else {
            match (hex_value(s[1]), hex_value(s[2])) {
                (Some(h), Some(l)) => prepend(seq![(h * 16 + l) as u8], form_decode(s.skip(3))),
                _ => None,
            }
        }
    } else if s[0] == 43 {
        prepend(seq![32u8], form_decode(s.drop_first()))
    } else {
        prepend(seq![s[0]], form_decode(s.drop_first()))
    }
}

/// What the decoder writes into `room` free bytes before it stops, on
/// success or failure alike.
pub open spec fn decode_within(s: Seq<u8>, room: int) -> Seq<u8>
    decreases s.len(),
{
    if s.len() == 0 {
        seq![]
    } else if s[0] == 37 {
        if s.len() < 3 || room <= 0 {
            seq![]
        } else {
            match (hex_value(s[1]), hex_value(s[2])) {
                (Some(h), Some(l)) => seq![(h * 16 + l) as u8] + decode_within(s.skip(3), room - 1),
                _ => seq![],
            }
        }
    } else if room <= 0 {
        seq![]
    } else if s[0] == 43 {
        seq![32u8] + decode_within(s.drop_first(), room - 1)
    } else {
        seq![s[0]] + decode_within(s.drop_first(), room - 1)
    }
}

// ── Byte helpers ───────────────────────────────────────────────────────────

/// Converts a hex character (`0`-`9`, `a`-`f`, `A`-`F`) to its 4-bit value.
fn hex_val(b: u8) -> (r: Option<u8>)
    ensures
        r == hex_value(b),
{
    if b >= 48u8 && b <= 57u8 {
        Some(b - 48u8)
    } else if b >= 97u8 && b <= 102u8 {
        Some(b - 97u8 + 10)
    } else if b >= 65u8 && b <= 70u8 {
        Some(b - 65u8 + 10)
    } else {
        None
    }
}

/// The upper-case hex digit for `n`.
fn hex_digit(n: u8) -> (r: u8)
    requires
        n < 16,
    ensures
        r == hex_char(n),
{
    if n < 10 {
        48u8 + n
    } else {
        65u8 + (n - 10)
    }
}

/// `%XX` for byte `b`.
pub(crate) fn percent_encode(b: u8) -> (r: [u8; 3])
    ensures
        r@ == percent_bytes(b),
{
    assert(b >> 4 == b / 16 && b & 0x0F == b % 16) by (bit_vector);
    let r = [37u8, hex_digit(b >> 4), hex_digit(b & 0x0F)];
    assert(r@ =~= percent_bytes(b));
    r
}

fn is_unreserved_byte(b: u8) -> (r: bool)
    ensures
        r == is_unreserved(b),
{
    (b >= 48u8 && b <= 57u8) || (b >= 65u8 && b <= 90u8) || (b >= 97u8 && b <= 122u8) || b == 126u8
        || b == 95u8 || b == 45u8 || b == 46u8 || b == 47u8 || b == 58u8 || b == 63u8 || b == 35u8
        || b == 91u8 || b == 93u8 || b == 64u8 || b == 33u8 || b == 36u8 || b == 39u8
        || b == 40u8 || b == 41u8 || b == 42u8 || b == 44u8
}

// ── Lemmas ─────────────────────────────────────────────────────────────────

proof fn lemma_encode_byte_ascii(b: u8)
    ensures
        all_ascii(encode_byte(b)),
        1 <= encode_byte(b).len() <= 3,
{
}

/// The encoding is pure ASCII.
pub proof fn lemma_encode_ascii(s: Seq<u8>)
    ensures
        all_ascii(form_encode(s)),
    decreases s.len(),
{
    if s.len() > 0 {
        lemma_encode_byte_ascii(s[0]);
        lemma_encode_ascii(s.drop_first());
        let a = encode_byte(s[0]);
        let b = form_encode(s.drop_first());
        assert forall|i: int| 0 <= i < (a + b).len() implies #[trigger] (a + b)[i] < 128 by {
            if i >= a.len() {
                assert((a + b)[i] == b[i - a.len()]);
            }
        }
    }
}

/// When the whole encoding fits, the encoder writes all of it.
proof fn lemma_encode_within_full(s: Seq<u8>, room: int)
    requires
        room >= 0,
    ensures
        form_encode(s).len() <= room ==> encode_within(s, room) == form_encode(s),
        form_encode(s).len() > room ==> encode_within(s, room).len() < form_encode(s).len(),
        encode_within(s, room).len() <= form_encode(s).len(),
    decreases s.len(),
{
    if s.len() > 0 {
        lemma_encode_byte_ascii(s[0]);
        if encode_byte(s[0]).len() <= room {
            lemma_encode_within_full(s.drop_first(), room - encode_byte(s[0]).len());
        }
    }
}

/// Decoding the encoding of any bytes gives those bytes back.
pub proof fn lemma_decode_encode(s: Seq<u8>)
    ensures
        form_decode(form_encode(s)) == Some(s),
    decreases s.len(),
{
    if s.len() > 0 {
        let b = s[0];
        let c = encode_byte(b);
        let rest = form_encode(s.drop_first());
        lemma_decode_encode(s.drop_first());
        let e = c + rest;
        assert(form_encode(s) == e);
        if b == 32 {
            assert(e.drop_first() =~= rest);
        } else if is_unreserved(b) {
            assert(e.drop_first() =~= rest);
        } else {
            assert(e.skip(3) =~= rest);
            assert(hex_value(hex_char(b / 16)) == Some(b / 16));
            assert(hex_value(hex_char(b % 16)) == Some(b % 16));
        }
        assert(seq![b] + s.drop_first() =~= s);
    }
}

// ── Encoding ───────────────────────────────────────────────────────────────

/// Encodes `plain` into `out` starting at `start`; returns the number of
/// bytes written.  Stops with `MalformedEncoding` at the first byte whose
/// encoding no longer fits, leaving what was written so far.
pub(crate) fn encode_at(plain: &[u8], out: &mut [u8], start: usize) -> (r: Result<usize, ParseError>)
    requires
        start <= old(out)@.len(),
    ensures
        final(out)@.len() == old(out)@.len(),
        final(out)@ == old(out)@.take(start as int) + encode_within(plain@, old(out)@.len() - start)
            + old(out)@.skip(start + encode_within(plain@, old(out)@.len() - start).len()),
        start + encode_within(plain@, old(out)@.len() - start).len() <= old(out)@.len(),
        match r {
            Ok(n) => start + form_encode(plain@).len() <= old(out)@.len() && n == form_encode(
                plain@,
            ).len() && encode_within(plain@, old(out)@.len() - start) == form_encode(plain@),
            Err(e) => e == ParseError::MalformedEncoding && start + form_encode(plain@).len()
                > old(out)@.len(),
        },
{
    let ghost room0: int = old(out)@.len() - start;
    let mut pos: usize = start;
    let mut i: usize = 0;
    proof {
        lemma_encode_within_full(plain@, room0);
        assert(plain@.skip(0) =~= plain@);
        assert(out@ =~= old(out)@.take(start as int) + Seq::<u8>::empty() + old(out)@.skip(start as int));
    }
    while i < plain.len()
        invariant
            start <= pos <= out@.len(),
            out@.len() == old(out)@.len(),
            room0 == old(out)@.len() - start,
            i <= plain@.len(),
            encode_within(plain@, room0) == out@.subrange(start as int, pos as int) + encode_within(
                plain@.skip(i as int),
                room0 - (pos - start),
            ),
            form_encode(plain@).len() == (pos - start) + form_encode(plain@.skip(i as int)).len(),
            out@.take(start as int) == old(out)@.take(start as int),
            out@.skip(pos as int) == old(out)@.skip(pos as int),
        decreases plain@.len() - i,
    {
        let b = plain[i];
        let ghost rest = plain@.skip(i as int);
        proof {
            assert(rest[0] == b);
            assert(rest.drop_first() =~= plain@.skip(i + 1));
            lemma_encode_byte_ascii(b);
            lemma_encode_within_full(rest, room0 - (pos - start));
        }
        let ghost before = out@;
        if b == 32u8 {
            if pos >= out.len() {
                proof {
                    assert(encode_within(rest, room0 - (pos - start)) =~= Seq::<u8>::empty());
                    assert(out@.subrange(start as int, pos as int) + Seq::<u8>::empty()
                        =~= out@.subrange(start as int, pos as int));
                    assert(out@ =~= old(out)@.take(start as int) + out@.subrange(start as int, pos as int)
                        + old(out)@.skip(pos as int));
                }
                return Err(ParseError::MalformedEncoding);
            }
            out[pos] = 43u8;
            pos += 1;
        } else if is_unreserved_byte(b) {
            if pos >= out.len() {
                proof {
                    assert(encode_within(rest, room0 - (pos - start)) =~= Seq::<u8>::empty());
                    assert(out@.subrange(start as int, pos as int) + Seq::<u8>::empty()
                        =~= out@.subrange(start as int, pos as int));
                    assert(out@ =~= old(out)@.take(start as int) + out@.subrange(start as int, pos as int)
                        + old(out)@.skip(pos as int));
                }
                return Err(ParseError::MalformedEncoding);
            }
            out[pos] = b;
            pos += 1;
        } else {
            if out.len() - pos < 3 {
                proof {
                    assert(encode_within(rest, room0 - (pos - start)) =~= Seq::<u8>::empty());
                    assert(out@.subrange(start as int, pos as int) + Seq::<u8>::empty()
                        =~= out@.subrange(start as int, pos as int));
                    assert(out@ =~= old(out)@.take(start as int) + out@.subrange(start as int, pos as int)
                        + old(out)@.skip(pos as int));
                }
                return Err(ParseError::MalformedEncoding);
            }
            let encoded = percent_encode(b);
            out[pos] = encoded[0];
            out[pos + 1] = encoded[1];
            out[pos + 2] = encoded[2];
            pos += 3;
        }
        proof {
            let c = encode_byte(b);
            let old_pos = pos - c.len();
            assert(out@.subrange(start as int, pos as int) =~= before.subrange(
                start as int,
                old_pos as int,
            ) + c);
            assert(out@.skip(pos as int) =~= before.skip(pos as int));
            assert(before.skip(pos as int) =~= before.skip(old_pos as int).skip(c.len() as int));
            assert(old(out)@.skip(pos as int) =~= old(out)@.skip(old_pos as int).skip(c.len() as int));
            assert(out@.take(start as int) =~= before.take(start as int));
        }
        i += 1;
    }
    proof {
        assert(plain@.skip(i as int) =~= Seq::<u8>::empty());
        assert(out@.subrange(start as int, pos as int) + Seq::<u8>::empty()
            =~= out@.subrange(start as int, pos as int));
        assert(out@ =~= old(out)@.take(start as int) + out@.subrange(start as int, pos as int)
            + old(out)@.skip(pos as int));
    }
    Ok(pos - start)
}


/// Encodes a plaintext value into URL-encoded form (`+` for space, `%XX` for
/// reserved bytes), writing into `out`, and returns the encoded prefix of
/// `out`.  The encoding is compatible with [`decode_into`].
///
/// Fails with `MalformedEncoding` when `out` is too small; the bytes that
/// fitted are then left written.
pub fn encode_into<'out>(plain: &str, out: &'out mut [u8]) -> (r: Result<&'out str, ParseError>)
    ensures
        final(out)@.len() == old(out)@.len(),
        final(out)@ == encode_within(plain.spec_bytes(), old(out)@.len() as int) + old(out)@.skip(
            encode_within(plain.spec_bytes(), old(out)@.len() as int).len() as int,
        ),
        match r {
            Ok(s) => form_encode(plain.spec_bytes()).len() <= old(out)@.len() && s.spec_bytes()
                == form_encode(plain.spec_bytes()),
            Err(e) => e == ParseError::MalformedEncoding && form_encode(plain.spec_bytes()).len()
                > old(out)@.len(),
        },
{
    let n = match encode_at(plain.as_bytes(), out, 0) {
        Ok(n) => n,
        Err(e) => {
            assert(old(out)@.take(0) + Seq::<u8>::empty() =~= Seq::<u8>::empty());
            return Err(e);
        },
    };
    let written: &'out [u8] = out;
    let encoded = &written[0..n];
    proof {
        lemma_encode_ascii(plain.spec_bytes());
        assert(encoded@ =~= form_encode(plain.spec_bytes()));
        lemma_ascii_valid_utf8(encoded@);
    }
    match str_from_utf8(encoded) {
        Some(s) => Ok(s),
        None => Err(ParseError::MalformedEncoding),
    }
}


/// Decodes a single percent-encoded (`%XX`) / `+`-for-space value into
/// `out` and returns the decoded prefix of `out` as text.
///
/// Fails with `MalformedEncoding` when a `%` is not followed by two hex
/// digits or `out` is too small, and with `InvalidEncoding` when the
/// decoded bytes are not valid UTF-8.  What was decoded before the decoder
/// stopped is left written in `out`.
pub fn decode_into<'out>(raw: &str, out: &'out mut [u8]) -> (r: Result<&'out str, ParseError>)
    ensures
        final(out)@.len() == old(out)@.len(),
        final(out)@ == decode_within(raw.spec_bytes(), old(out)@.len() as int) + old(out)@.skip(
            decode_within(raw.spec_bytes(), old(out)@.len() as int).len() as int,
        ),
        match r {
            Ok(s) => form_decode(raw.spec_bytes()) matches Some(d) && d.len() <= old(out)@.len()
                && valid_utf8(d) && s.spec_bytes() == d,
            Err(ParseError::InvalidEncoding) => form_decode(raw.spec_bytes()) matches Some(d)
                && d.len() <= old(out)@.len() && !valid_utf8(d),
            Err(ParseError::MalformedEncoding) => form_decode(raw.spec_bytes()) is None
                || form_decode(raw.spec_bytes())->0.len() > old(out)@.len(),
            Err(_) => false,
        },
{
    let bytes = raw.as_bytes();
    let ghost room0: int = old(out)@.len() as int;
    let mut pos: usize = 0;
    let mut i: usize = 0;
    proof {
        assert(bytes@.skip(0) =~= bytes@);
        assert(out@.take(0) =~= Seq::<u8>::empty());
        assert(out@.take(0) + form_decode(bytes@).unwrap_or(seq![]) =~= form_decode(bytes@).unwrap_or(seq![]));
        assert(out@.take(0) + decode_within(bytes@, room0) =~= decode_within(bytes@, room0));
    }
    while i < bytes.len()
        invariant
            pos <= out@.len(),
            out@.len() == old(out)@.len(),
            room0 == old(out)@.len(),
            i <= bytes@.len(),
            bytes@ == raw.spec_bytes(),
            form_decode(bytes@) == prepend(out@.take(pos as int), form_decode(bytes@.skip(i as int))),
            decode_within(bytes@, room0) == out@.take(pos as int) + decode_within(
                bytes@.skip(i as int),
                room0 - pos,
            ),
            out@.skip(pos as int) == old(out)@.skip(pos as int),
        decreases bytes@.len() - i,
    {
        let b = bytes[i];
        let ghost rest = bytes@.skip(i as int);
        let ghost before = out@;
        assert(rest[0] == b);
        if b == 37u8 {
            if bytes.len() - i < 3 {
                proof {
                    assert(decode_within(rest, room0 - pos) =~= Seq::<u8>::empty());
                    assert(out@.take(pos as int) + Seq::<u8>::empty() =~= out@.take(pos as int));
                    assert(out@ =~= out@.take(pos as int) + out@.skip(pos as int));
                }
                return Err(ParseError::MalformedEncoding);
            }
            let hi = bytes[i + 1];
            let lo = bytes[i + 2];
            assert(rest[1] == hi && rest[2] == lo);
            let h = match hex_val(hi) {
                Some(h) => h,
                None => {
                    proof {
                        assert(decode_within(rest, room0 - pos) =~= Seq::<u8>::empty());
                        assert(out@.take(pos as int) + Seq::<u8>::empty() =~= out@.take(pos as int));
                        assert(out@ =~= out@.take(pos as int) + out@.skip(pos as int));
                    }
                    return Err(ParseError::MalformedEncoding);
                },
            };
            let l = match hex_val(lo) {
                Some(l) => l,
                None => {
                    proof {
                        assert(decode_within(rest, room0 - pos) =~= Seq::<u8>::empty());
                        assert(out@.take(pos as int) + Seq::<u8>::empty() =~= out@.take(pos as int));
                        assert(out@ =~= out@.take(pos as int) + out@.skip(pos as int));
                    }
                    return Err(ParseError::MalformedEncoding);
                },
            };
            if pos >= out.len() {
                proof {
                    assert(decode_within(rest, room0 - pos) =~= Seq::<u8>::empty());
                    assert(out@.take(pos as int) + Seq::<u8>::empty() =~= out@.take(pos as int));
                    assert(out@ =~= out@.take(pos as int) + out@.skip(pos as int));
                }
                return Err(ParseError::MalformedEncoding);
            }
            let decoded = h * 16 + l;
            out[pos] = decoded;
            pos += 1;
            i += 3;
            proof {
                assert(rest.skip(3) =~= bytes@.skip(i as int));
            }
        } else {
            if pos >= out.len() {
                proof {
                    assert(decode_within(rest, room0 - pos) =~= Seq::<u8>::empty());
                    assert(out@.take(pos as int) + Seq::<u8>::empty() =~= out@.take(pos as int));
                    assert(out@ =~= out@.take(pos as int) + out@.skip(pos as int));
                }
                return Err(ParseError::MalformedEncoding);
            }
            if b == 43u8 {
                out[pos] = 32u8;
            } else {
                out[pos] = b;
            }
            pos += 1;
            i += 1;
            proof {
                assert(rest.drop_first() =~= bytes@.skip(i as int));
            }
        }
        proof {
            let c = seq![out@[pos - 1]];
            assert(out@.take(pos as int) =~= before.take(pos - 1) + c);
            assert(out@.skip(pos as int) =~= before.skip(pos as int));
            assert(before.skip(pos as int) =~= before.skip(pos - 1).drop_first());
            assert(old(out)@.skip(pos as int) =~= old(out)@.skip(pos - 1).drop_first());
            assert(out@.take(pos as int) + decode_within(bytes@.skip(i as int), room0 - pos)
                =~= before.take(pos - 1) + (c + decode_within(bytes@.skip(i as int), room0 - pos)));
            match form_decode(bytes@.skip(i as int)) {
                Some(d) => {
                    assert(out@.take(pos as int) + d =~= before.take(pos - 1) + (c + d));
                },
                None => {},
            }
        }
    }
    proof {
        assert(bytes@.skip(i as int) =~= Seq::<u8>::empty());
        assert(out@.take(pos as int) + Seq::<u8>::empty() =~= out@.take(pos as int));
        assert(out@ =~= out@.take(pos as int) + out@.skip(pos as int));
    }
    let written: &'out [u8] = out;
    let decoded = &written[0..pos];
    assert(decoded@ =~= written@.take(pos as int));
    match str_from_utf8(decoded) {
        Some(s) => Ok(s),
        None => Err(ParseError::InvalidEncoding),
    }
}


// ── Pair splitting ─────────────────────────────────────────────────────────

/// `s` without its leading `&` separators.
pub open spec fn trim_separators(s: Seq<u8>) -> Seq<u8>
    decreases s.len(),
{
    if s.len() > 0 && s[0] == 38 {
        trim_separators(s.drop_first())
    } else {
        s
    }
}

/// Splits one raw pair on its first `=`; without `=` the whole pair is the
/// key and the value is empty.
pub open spec fn split_pair(pair: Seq<u8>) -> (Seq<u8>, Seq<u8>) {
    match first_index_of(pair, 61) {
        Some(j) => (pair.take(j), pair.skip(j + 1)),
        None => (pair, seq![]),
    }
}

/// The position where the first pair of `t` ends: its first `&`, or its end.
pub open spec fn pair_end(t: Seq<u8>) -> int {
    match first_index_of(t, 38) {
        Some(k) => k,
        None => t.len() as int,
    }
}

/// The first raw `(key, value)` pair of a form body, with the rest of the
/// body after it; `None` when only separators remain.
pub open spec fn next_pair(s: Seq<u8>) -> Option<(Seq<u8>, Seq<u8>, Seq<u8>)> {
    let t = trim_separators(s);
    if t.len() == 0 {
        None
    } else {
        let end = pair_end(t);
        let kv = split_pair(t.take(end));
        Some((kv.0, kv.1, t.skip(end)))
    }
}

pub proof fn lemma_trim_separators(s: Seq<u8>)
    ensures
        trim_separators(s).len() <= s.len(),
        trim_separators(s).len() > 0 ==> trim_separators(s)[0] != 38,
        exists|k: int| 0 <= k <= s.len() && trim_separators(s) == s.skip(k) && forall|j: int|
            0 <= j < k ==> s[j] == 38,
    decreases s.len(),
{
    if s.len() > 0 && s[0] == 38 {
        lemma_trim_separators(s.drop_first());
        let k = choose|k: int|
            0 <= k <= s.drop_first().len() && trim_separators(s.drop_first()) == s.drop_first().skip(k)
                && forall|j: int| 0 <= j < k ==> s.drop_first()[j] == 38;
        assert(s.drop_first().skip(k) =~= s.skip(k + 1));
        assert forall|j: int| 0 <= j < k + 1 implies s[j] == 38 by {
            if j > 0 {
                assert(s[j] == s.drop_first()[j - 1]);
            }
        }
    } else {
        assert(s.skip(0) =~= s);
    }
}

pub proof fn lemma_next_pair_shrinks(s: Seq<u8>)
    ensures
        next_pair(s) matches Some((k, v, rest)) ==> rest.len() < s.len(),
{
    lemma_trim_separators(s);
    let t = trim_separators(s);
    if t.len() > 0 {
        lemma_first_index_of(t, 38);
    }
}

/// All raw `(key, value)` pairs of a form body, in order.
pub open spec fn form_pairs(s: Seq<u8>) -> Seq<(Seq<u8>, Seq<u8>)>
    decreases s.len(),
{
    match next_pair(s) {
        None => seq![],
        Some((k, v, rest)) => {
            proof {
                lemma_next_pair_shrinks(s);
            }
            seq![(k, v)] + form_pairs(rest)
        },
    }
}

/// Iterator over the raw `(key, value)` pairs of a URL-encoded form body.
///
/// Splits the body on `&` separators and each pair on its first `=`.
/// Values are returned undecoded: use [`decode_into`] to resolve `%XX` and
/// `+`.  Keys and values borrow from the body.
pub struct FormPairs<'a> {
    remaining: &'a str,
}

impl<'a> View for FormPairs<'a> {
    type V = Seq<u8>;

    /// The bytes of the body not yet consumed.
    closed spec fn view(&self) -> Seq<u8> {
        self.remaining.spec_bytes()
    }
}

/// Splits `s` at byte `k`, which is an end of `s` or lies next to an ASCII
/// byte.
fn split_at_ascii<'s>(s: &'s str, k: usize) -> (r: (&'s str, &'s str))
    requires
        k <= s.spec_bytes().len(),
        k == 0 || k == s.spec_bytes().len() || s.spec_bytes()[k as int] < 128
            || s.spec_bytes()[k - 1] < 128,
    ensures
        r.0.spec_bytes() == s.spec_bytes().take(k as int),
        r.1.spec_bytes() == s.spec_bytes().skip(k as int),
{
    proof {
        encode_utf8_valid_utf8(s@);
        if k == 0 || k == s.spec_bytes().len() || s.spec_bytes()[k as int] < 128 {
            lemma_split_at_ascii(s.spec_bytes(), k as int);
        } else {
            lemma_boundary_after_ascii(s.spec_bytes(), k as int);
        }
    }
    let r = s.split_at(k);
    assert(s.spec_bytes().take(k as int) =~= s.spec_bytes().subrange(0, k as int));
    r
}

impl<'a> FormPairs<'a> {
    /// Creates an iterator over the form-encoded `body`.
    pub fn new(body: &'a str) -> (r: Self)
        ensures
            r@ == body.spec_bytes(),
    {
        FormPairs { remaining: body }
    }

    /// Yields the next raw `(key, value)` pair, skipping empty pieces
    /// between `&` separators; `None` once the body is used up.
    pub fn next(&mut self) -> (r: Option<(&'a str, &'a str)>)
        ensures
            match (r, next_pair(old(self)@)) {
                (None, None) => final(self)@ == Seq::<u8>::empty(),
                (Some((k, v)), Some((sk, sv, rest))) => k.spec_bytes() == sk && v.spec_bytes()
                    == sv && final(self)@ == rest,
                _ => false,
            },
    {
        let bytes = self.remaining.as_bytes();
        let mut start: usize = 0;
        while start < bytes.len() && bytes[start] == 38u8
            invariant
                start <= bytes@.len(),
                bytes@ == self.remaining.spec_bytes(),
                forall|j: int| 0 <= j < start ==> bytes@[j] == 38,
            decreases bytes@.len() - start,
        {
            start += 1;
        }
        proof {
            lemma_trim_separators(bytes@);
            let k = choose|k: int|
                0 <= k <= bytes@.len() && trim_separators(bytes@) == bytes@.skip(k) && forall|j: int|
                    0 <= j < k ==> bytes@[j] == 38;
            // The trimmed body starts where the separators end.
            if k < start {
                assert(bytes@.skip(k)[0] == bytes@[k]);
            } else if start < k {
                assert(bytes@[start as int] == 38);
            }
            assert(trim_separators(bytes@) == bytes@.skip(start as int));
        }
        let (_, trimmed) = split_at_ascii(self.remaining, start);
        self.remaining = trimmed;
        let tb = trimmed.as_bytes();
        if tb.len() == 0 {
            return None;
        }
        let mut end: usize = 0;
        while end < tb.len() && tb[end] != 38u8
            invariant
                end <= tb@.len(),
                forall|j: int| 0 <= j < end ==> tb@[j] != 38,
            decreases tb@.len() - end,
        {
            end += 1;
        }
        proof {
            if end < tb@.len() {
                lemma_first_index_of_unique(tb@, 38, Some(end as int));
            } else {
                lemma_first_index_of_unique(tb@, 38, None);
            }
        }
        let (pair, rest) = split_at_ascii(trimmed, end);
        self.remaining = rest;
        let pb = pair.as_bytes();
        let mut eq: usize = 0;
        while eq < pb.len() && pb[eq] != 61u8
            invariant
                eq <= pb@.len(),
                forall|j: int| 0 <= j < eq ==> pb@[j] != 61,
            decreases pb@.len() - eq,
        {
            eq += 1;
        }
        if eq == pb.len() {
            proof {
                lemma_first_index_of_unique(pb@, 61, None);
            }
            let (_, empty) = split_at_ascii(pair, pb.len());
            assert(empty.spec_bytes() =~= Seq::<u8>::empty());
            Some((pair, empty))
        } else {
            proof {
                lemma_first_index_of_unique(pb@, 61, Some(eq as int));
            }
            let (key, tail) = split_at_ascii(pair, eq);
            let (_, value) = split_at_ascii(tail, 1);
            assert(value.spec_bytes() =~= pb@.skip(eq + 1));
            Some((key, value))
        }
    }
}


// ── Pair encoding ──────────────────────────────────────────────────────────

/// `s` with `w` written over it from position `at`.
pub open spec fn splice(s: Seq<u8>, at: int, w: Seq<u8>) -> Seq<u8> {
    if w.len() == 0 {
        s
    } else {
        s.take(at) + w + s.skip(at + w.len())
    }
}

/// The bytes that one `key=value` pair adds to a body that already holds
/// `used` bytes: a `&` first when the body is not empty.
pub open spec fn pair_bytes(used: int, key: Seq<u8>, value: Seq<u8>) -> Seq<u8> {
    (if used > 0 { seq![38u8] } else { Seq::<u8>::empty() }) + form_encode(key) + seq![61u8]
        + form_encode(value)
}

/// What `encode_pair_into` writes from position `used` of a buffer of
/// length `len`, and the count of used bytes it leaves, on success or
/// failure alike.  On failure the count covers the pieces that were
/// complete; a partially written piece is not counted.
pub open spec fn pair_attempt(used: int, len: int, key: Seq<u8>, value: Seq<u8>) -> (Seq<u8>, int) {
    let sep = if used > 0 { seq![38u8] } else { Seq::<u8>::empty() };
    let ek = form_encode(key);
    let ev = form_encode(value);
    let u1 = used + sep.len();
    let u2 = u1 + ek.len();
    let u3 = u2 + 1;
    if used > 0 && used >= len {
        (seq![], used)
    } else if u2 > len {
        (sep + encode_within(key, len - u1), u1)
    } else if u2 >= len {
        (sep + ek, u2)
    } else if u3 + ev.len() > len {
        (sep + ek + seq![61u8] + encode_within(value, len - u3), u3)
    } else {
        (sep + ek + seq![61u8] + ev, u3 + ev.len())
    }
}

/// Writing `x` right after a spliced `w` is splicing `w + x`.
proof fn lemma_splice_append(s: Seq<u8>, at: int, w: Seq<u8>, x: Seq<u8>, t: Seq<u8>)
    requires
        0 <= at,
        at + w.len() + x.len() <= s.len(),
        t == splice(s, at, w).take(at + w.len()) + x + splice(s, at, w).skip(at + w.len() + x.len()),
    ensures
        t == splice(s, at, w + x),
{
    if w.len() + x.len() == 0 {
        assert(t =~= s);
    } else {
        assert(t =~= s.take(at) + (w + x) + s.skip(at + w.len() + x.len()));
    }
}

/// Writing one byte is splicing a one-byte sequence.
proof fn lemma_update_is_splice(s: Seq<u8>, at: int, b: u8)
    requires
        0 <= at < s.len(),
    ensures
        s.update(at, b) == s.take(at) + seq![b] + s.skip(at + 1),
{
    assert(s.update(at, b) =~= s.take(at) + seq![b] + s.skip(at + 1));
}

/// Appends the encoded pair `key=value` to the body held in
/// `out[..*used]`, separated by `&` when the body is not empty, and
/// advances `*used`.
///
/// Fails with `MalformedEncoding` when the pair does not fit; what was
/// written and counted then follows `pair_attempt`.
pub fn encode_pair_into(out: &mut [u8], used: &mut usize, key: &str, value: &str) -> (r: Result<
    (),
    ParseError,
>)
    ensures
        final(out)@.len() == old(out)@.len(),
        ({
            let att = pair_attempt(
                *old(used) as int,
                old(out)@.len() as int,
                key.spec_bytes(),
                value.spec_bytes(),
            );
            &&& *final(used) == att.1
            &&& final(out)@ == splice(old(out)@, *old(used) as int, att.0)
        }),
        r is Ok <==> *old(used) + pair_bytes(*old(used) as int, key.spec_bytes(), value.spec_bytes()).len()
            <= old(out)@.len(),
        r is Ok ==> *final(used) == *old(used) + pair_bytes(
            *old(used) as int,
            key.spec_bytes(),
            value.spec_bytes(),
        ).len() && final(out)@.subrange(*old(used) as int, *final(used) as int) == pair_bytes(
            *old(used) as int,
            key.spec_bytes(),
            value.spec_bytes(),
        ),
        r is Err ==> r == Err::<(), ParseError>(ParseError::MalformedEncoding),
{
    let ghost u0: int = *old(used) as int;
    let ghost len: int = old(out)@.len() as int;
    let ghost s0 = old(out)@;
    let ghost kb = key.spec_bytes();
    let ghost vb = value.spec_bytes();
    let ghost sep = if u0 > 0 { seq![38u8] } else { Seq::<u8>::empty() };
    let ghost ek = form_encode(kb);
    let ghost ev = form_encode(vb);
    if *used > 0 {
        if *used >= out.len() {
            assert(pair_attempt(u0, len, kb, vb) == (Seq::<u8>::empty(), u0));
            return Err(ParseError::MalformedEncoding);
        }
        proof {
            lemma_update_is_splice(out@, u0, 38u8);
        }
        out[*used] = 38u8;
        *used += 1;
    }
    let u1 = *used;
    assert(out@ == splice(s0, u0, sep)) by {
        if u0 > 0 {
            assert(splice(s0, u0, sep) =~= s0.take(u0) + sep + s0.skip(u0 + 1));
        }
    }
    let ghost o1 = out@;
    let key_result = encode_at(key.as_bytes(), out, u1);
    proof {
        lemma_encode_within_full(kb, len - u1);
        let w = encode_within(kb, len - u1);
        assert(o1.take(u1 as int) == splice(s0, u0, sep).take(u0 + sep.len()));
        assert(o1.skip(u1 + w.len()) == splice(s0, u0, sep).skip(u0 + sep.len() + w.len()));
        lemma_splice_append(s0, u0, sep, w, out@);
    }
    let n = match key_result {
        Ok(n) => n,
        Err(e) => {
            assert(pair_attempt(u0, len, kb, vb) == (sep + encode_within(kb, len - u1), u1 as int));
            return Err(e);
        },
    };
    let u2 = u1 + n;
    *used = u2;
    if u2 >= out.len() {
        assert(pair_attempt(u0, len, kb, vb) == (sep + ek, u2 as int));
        return Err(ParseError::MalformedEncoding);
    }
    let ghost o2 = out@;
    let ghost w2 = sep + ek;
    proof {
        lemma_update_is_splice(o2, u2 as int, 61u8);
        assert(o2.take(u2 as int) == splice(s0, u0, w2).take(u0 + w2.len()));
        assert(o2.skip(u2 + 1) == splice(s0, u0, w2).skip(u0 + w2.len() + 1));
        lemma_splice_append(s0, u0, w2, seq![61u8], o2.update(u2 as int, 61u8));
    }
    out[u2] = 61u8;
    let u3 = u2 + 1;
    *used = u3;
    let ghost o3 = out@;
    let ghost w3 = w2 + seq![61u8];
    let value_result = encode_at(value.as_bytes(), out, u3);
    proof {
        lemma_encode_within_full(vb, len - u3);
        let w = encode_within(vb, len - u3);
        assert(o3.take(u3 as int) == splice(s0, u0, w3).take(u0 + w3.len()));
        assert(o3.skip(u3 + w.len()) == splice(s0, u0, w3).skip(u0 + w3.len() + w.len()));
        lemma_splice_append(s0, u0, w3, w, out@);
    }
    let m = match value_result {
        Ok(m) => m,
        Err(e) => {
            assert(pair_attempt(u0, len, kb, vb) == (w3 + encode_within(vb, len - u3), u3 as int));
            return Err(e);
        },
    };
    proof {
        assert(w3 + ev =~= pair_bytes(u0, kb, vb));
        assert(pair_attempt(u0, len, kb, vb) == (w3 + ev, u3 + m));
        assert(out@.subrange(u0, u3 + m) =~= w3 + ev);
    }
    *used = u3 + m;
    Ok(())
}

// ── Laws ───────────────────────────────────────────────────────────────────

/// Decoding what `encode_into` produces for a text gives back that text's
/// bytes, which are valid UTF-8: the encoder and decoder are compatible.
pub proof fn lemma_encode_decode_round_trip(plain: &str)
    ensures
        form_decode(form_encode(plain.spec_bytes())) == Some(plain.spec_bytes()),
        valid_utf8(plain.spec_bytes()),
{
    lemma_decode_encode(plain.spec_bytes());
    encode_utf8_valid_utf8(plain@);
}

/// The encoding never holds a `&` or `=`, so an encoded key or value can
/// not be mistaken for a separator.
pub proof fn lemma_encode_has_no_separators(s: Seq<u8>)
    ensures
        forall|i: int| 0 <= i < form_encode(s).len() ==> #[trigger] form_encode(s)[i] != 38
            && form_encode(s)[i] != 61,
    decreases s.len(),
{
    if s.len() > 0 {
        lemma_encode_has_no_separators(s.drop_first());
        let a = encode_byte(s[0]);
        let b = form_encode(s.drop_first());
        assert forall|i: int| 0 <= i < (a + b).len() implies #[trigger] (a + b)[i] != 38 && (a
            + b)[i] != 61 by {
            if i >= a.len() {
                assert((a + b)[i] == b[i - a.len()]);
            }
        }
    }
}

/// The body that successive calls of `encode_pair_into`, starting from an
/// empty body, build from the pairs `ps`.
pub open spec fn encode_pairs(ps: Seq<(Seq<u8>, Seq<u8>)>) -> Seq<u8>
    decreases ps.len(),
{
    if ps.len() == 0 {
        seq![]
    } else {
        let b = encode_pairs(ps.drop_last());
        b + pair_bytes(b.len() as int, ps.last().0, ps.last().1)
    }
}

/// One pair as it stands in an encoded body, without separator.
pub open spec fn encoded_pair(p: (Seq<u8>, Seq<u8>)) -> Seq<u8> {
    form_encode(p.0) + seq![61u8] + form_encode(p.1)
}

/// The encoded key and value of a pair.
pub open spec fn encode_both(p: (Seq<u8>, Seq<u8>)) -> (Seq<u8>, Seq<u8>) {
    (form_encode(p.0), form_encode(p.1))
}

/// Pairs after the first, each with its leading `&`.
spec fn tail_body(qs: Seq<(Seq<u8>, Seq<u8>)>) -> Seq<u8>
    decreases qs.len(),
{
    if qs.len() == 0 {
        seq![]
    } else {
        seq![38u8] + encoded_pair(qs[0]) + tail_body(qs.drop_first())
    }
}

proof fn lemma_tail_body_push(qs: Seq<(Seq<u8>, Seq<u8>)>, x: (Seq<u8>, Seq<u8>))
    ensures
        tail_body(qs.push(x)) == tail_body(qs) + seq![38u8] + encoded_pair(x),
    decreases qs.len(),
{
    if qs.len() == 0 {
        assert(qs.push(x).drop_first() =~= Seq::<(Seq<u8>, Seq<u8>)>::empty());
        assert(qs.push(x)[0] == x);
        assert(tail_body(Seq::<(Seq<u8>, Seq<u8>)>::empty()) == Seq::<u8>::empty());
        assert(tail_body(qs.push(x)) =~= seq![38u8] + encoded_pair(x) + Seq::<u8>::empty());
        assert(tail_body(qs) + seq![38u8] + encoded_pair(x) =~= seq![38u8] + encoded_pair(x));
    } else {
        lemma_tail_body_push(qs.drop_first(), x);
        assert(qs.push(x).drop_first() =~= qs.drop_first().push(x));
        assert(qs.push(x)[0] == qs[0]);
        let h = seq![38u8] + encoded_pair(qs[0]);
        assert(tail_body(qs.push(x)) =~= h + (tail_body(qs.drop_first()) + seq![38u8]
            + encoded_pair(x)));
        assert(tail_body(qs) + seq![38u8] + encoded_pair(x) =~= h + (tail_body(qs.drop_first())
            + seq![38u8] + encoded_pair(x)));
    }
}

proof fn lemma_encode_pairs_front(ps: Seq<(Seq<u8>, Seq<u8>)>)
    requires
        ps.len() > 0,
    ensures
        encode_pairs(ps) == encoded_pair(ps[0]) + tail_body(ps.drop_first()),
    decreases ps.len(),
{
    if ps.len() == 1 {
        assert(ps.drop_last() =~= Seq::<(Seq<u8>, Seq<u8>)>::empty());
        assert(ps.drop_first() =~= Seq::<(Seq<u8>, Seq<u8>)>::empty());
        assert(encode_pairs(Seq::<(Seq<u8>, Seq<u8>)>::empty()) == Seq::<u8>::empty());
        assert(ps.last() == ps[0]);
        assert(pair_bytes(0, ps[0].0, ps[0].1) =~= encoded_pair(ps[0]));
        assert(encode_pairs(ps) =~= encoded_pair(ps[0]));
        assert(encoded_pair(ps[0]) + tail_body(ps.drop_first()) =~= encoded_pair(ps[0]));
    } else {
        let init = ps.drop_last();
        lemma_encode_pairs_front(init);
        assert(init[0] == ps[0]);
        let b = encode_pairs(init);
        assert(b.len() > 0) by {
            assert(encoded_pair(ps[0]).len() > 0);
        }
        lemma_tail_body_push(init.drop_first(), ps.last());
        assert(init.drop_first().push(ps.last()) =~= ps.drop_first());
        assert(encode_pairs(ps) =~= encoded_pair(ps[0]) + tail_body(ps.drop_first()));
    }
}

proof fn lemma_trim_no_separator(s: Seq<u8>)
    requires
        s.len() == 0 || s[0] != 38,
    ensures
        trim_separators(s) == s,
{
}

/// Neither `&` nor `=` occurs in `s`.
pub open spec fn no_separators(s: Seq<u8>) -> bool {
    forall|i: int| 0 <= i < s.len() ==> #[trigger] s[i] != 38 && s[i] != 61
}

/// A pair `key=value` followed by `&` or the end, where the key holds
/// neither `&` nor `=` and the value no `&`, is taken apart as that key and
/// value.
pub proof fn lemma_next_pair_split(key: Seq<u8>, value: Seq<u8>, rest: Seq<u8>)
    requires
        no_separators(key),
        forall|i: int| 0 <= i < value.len() ==> #[trigger] value[i] != 38,
        rest.len() == 0 || rest[0] == 38,
    ensures
        next_pair(key + seq![61u8] + value + rest) == Some((key, value, rest)),
{
    let e = key + seq![61u8] + value;
    let s = e + rest;
    assert(key + seq![61u8] + value + rest == s);
    assert(e.len() > 0);
    assert(s[0] != 38) by {
        if key.len() > 0 {
            assert(s[0] == key[0]);
        } else {
            assert(s[0] == 61);
        }
    }
    lemma_trim_no_separator(s);
    // The pair ends at the first `&`, right after the value.
    assert forall|j: int| 0 <= j < e.len() implies s[j] != 38 by {
        assert(s[j] == e[j]);
        if j < key.len() {
            assert(e[j] == key[j]);
        } else if j > key.len() {
            assert(e[j] == value[j - key.len() - 1]);
        }
    }
    if rest.len() == 0 {
        lemma_first_index_of_unique(s, 38, None);
        assert(s =~= e);
    } else {
        assert(s[e.len() as int] == 38);
        lemma_first_index_of_unique(s, 38, Some(e.len() as int));
    }
    assert(pair_end(s) == e.len());
    assert(s.take(e.len() as int) =~= e);
    assert(s.skip(e.len() as int) =~= rest);
    // The key ends at the first `=`.
    assert forall|j: int| 0 <= j < key.len() implies e[j] != 61 by {
        assert(e[j] == key[j]);
    }
    assert(e[key.len() as int] == 61);
    lemma_first_index_of_unique(e, 61, Some(key.len() as int));
    assert(e.take(key.len() as int) =~= key);
    assert(e.skip(key.len() as int + 1) =~= value);
}

/// A leading `&` does not change the pairs of a body.
pub proof fn lemma_form_pairs_skip_separator(x: Seq<u8>)
    ensures
        form_pairs(seq![38u8] + x) == form_pairs(x),
{
    let s = seq![38u8] + x;
    assert(s.drop_first() =~= x);
    assert(trim_separators(s) == trim_separators(x));
    assert(next_pair(s) == next_pair(x));
}

/// An encoded pair followed by `&` or the end is taken apart as the
/// encoded key and value.
proof fn lemma_next_pair_encoded(p: (Seq<u8>, Seq<u8>), rest: Seq<u8>)
    requires
        rest.len() == 0 || rest[0] == 38,
    ensures
        next_pair(encoded_pair(p) + rest) == Some((form_encode(p.0), form_encode(p.1), rest)),
{
    lemma_encode_has_no_separators(p.0);
    lemma_encode_has_no_separators(p.1);
    lemma_next_pair_split(form_encode(p.0), form_encode(p.1), rest);
}

proof fn lemma_form_pairs_tail(qs: Seq<(Seq<u8>, Seq<u8>)>)
    ensures
        form_pairs(tail_body(qs)) == qs.map_values(|p: (Seq<u8>, Seq<u8>)| encode_both(p)),
    decreases qs.len(),
{
    let f = |p: (Seq<u8>, Seq<u8>)| encode_both(p);
    if qs.len() == 0 {
        assert(next_pair(Seq::<u8>::empty()) is None);
        assert(qs.map_values(f) =~= Seq::<(Seq<u8>, Seq<u8>)>::empty());
    } else {
        let rest = tail_body(qs.drop_first());
        lemma_form_pairs_tail(qs.drop_first());
        let s = tail_body(qs);
        let inner = encoded_pair(qs[0]) + rest;
        assert(s =~= seq![38u8] + inner);
        assert(rest.len() == 0 || rest[0] == 38);
        lemma_next_pair_encoded(qs[0], rest);
        assert(s.drop_first() =~= inner);
        assert(trim_separators(s) == trim_separators(inner));
        assert(next_pair(s) == next_pair(inner));
        assert(qs.map_values(f) =~= seq![encode_both(qs[0])] + qs.drop_first().map_values(f));
    }
}

/// Round trip through a form body: the pairs that `FormPairs` finds in the
/// body built by `encode_pair_into` from the pairs `ps` are the encoded
/// keys and values of `ps`, in order, and decoding each gives back the
/// key and value of the pair it came from.
pub proof fn lemma_pairs_round_trip(ps: Seq<(Seq<u8>, Seq<u8>)>)
    ensures
        form_pairs(encode_pairs(ps)).len() == ps.len(),
        forall|i: int|
            0 <= i < ps.len() ==> #[trigger] form_pairs(encode_pairs(ps))[i] == encode_both(ps[i]),
        forall|i: int|
            0 <= i < ps.len() ==> form_decode(#[trigger] form_pairs(encode_pairs(ps))[i].0) == Some(
                ps[i].0,
            ) && form_decode(form_pairs(encode_pairs(ps))[i].1) == Some(ps[i].1),
{
    let f = |p: (Seq<u8>, Seq<u8>)| encode_both(p);
    if ps.len() == 0 {
        assert(next_pair(Seq::<u8>::empty()) is None);
    } else {
        lemma_encode_pairs_front(ps);
        let rest = tail_body(ps.drop_first());
        lemma_form_pairs_tail(ps.drop_first());
        lemma_next_pair_encoded(ps[0], rest);
        assert(form_pairs(encode_pairs(ps)) =~= seq![encode_both(ps[0])] + ps.drop_first().map_values(f));
        assert(ps.map_values(f) =~= seq![encode_both(ps[0])] + ps.drop_first().map_values(f));
        assert(form_pairs(encode_pairs(ps)) == ps.map_values(f));
    }
    assert forall|i: int| 0 <= i < ps.len() implies form_decode(
        #[trigger] form_pairs(encode_pairs(ps))[i].0,
    ) == Some(ps[i].0) && form_decode(form_pairs(encode_pairs(ps))[i].1) == Some(ps[i].1) by {
        lemma_decode_encode(ps[i].0);
        lemma_decode_encode(ps[i].1);
    }
}


/// Reading back a hex digit that the encoder emits gives its value.
pub proof fn lemma_hex_round_trip(n: u8)
    requires
        n < 16,
    ensures
        hex_value(hex_char(n)) == Some(n),
{
}

/// `s` cut at every `&`, empty pieces included, as `str::split('&')` cuts
/// it.
pub open spec fn split_on_amp(s: Seq<u8>) -> Seq<Seq<u8>>
    decreases s.len(),
{
    match first_index_of(s, 38) {
        None => seq![s],
        Some(k) => {
            proof {
                lemma_first_index_of(s, 38);
            }
            seq![s.take(k)] + split_on_amp(s.skip(k + 1))
        },
    }
}

/// The pairs of the non-empty pieces, each split on its first `=`.
pub open spec fn pairs_of_pieces(ps: Seq<Seq<u8>>) -> Seq<(Seq<u8>, Seq<u8>)>
    decreases ps.len(),
{
    if ps.len() == 0 {
        seq![]
    } else if ps[0].len() == 0 {
        pairs_of_pieces(ps.drop_first())
    } else {
        seq![split_pair(ps[0])] + pairs_of_pieces(ps.drop_first())
    }
}

/// One step of the iteration: the pairs of a body are the pair that
/// `next_pair` takes off, then the pairs of the rest; none once `next_pair`
/// finds nothing.
pub proof fn lemma_form_pairs_step(s: Seq<u8>)
    ensures
        match next_pair(s) {
            None => form_pairs(s) == Seq::<(Seq<u8>, Seq<u8>)>::empty(),
            Some((k, v, rest)) => form_pairs(s) == seq![(k, v)] + form_pairs(rest),
        },
{
}

/// Once the body is used up the iteration stays finished: an empty body has
/// no next pair and no pairs.
pub proof fn lemma_form_pairs_fused()
    ensures
        next_pair(Seq::<u8>::empty()) is None,
        form_pairs(Seq::<u8>::empty()) == Seq::<(Seq<u8>, Seq<u8>)>::empty(),
{
}

/// The pairs that `FormPairs` yields, in order, are the non-empty pieces of
/// the body cut at every `&`, each split on its first `=` (a piece without
/// `=` is a key with an empty value).
pub proof fn lemma_form_pairs_pieces(s: Seq<u8>)
    ensures
        form_pairs(s) == pairs_of_pieces(split_on_amp(s)),
    decreases s.len(),
{
    lemma_first_index_of(s, 38);
    let ps = split_on_amp(s);
    match first_index_of(s, 38) {
        None => {
            assert(ps == seq![s]);
            assert(ps.drop_first() =~= Seq::<Seq<u8>>::empty());
            assert(pairs_of_pieces(Seq::<Seq<u8>>::empty()) == Seq::<(Seq<u8>, Seq<u8>)>::empty());
            lemma_form_pairs_fused();
            if s.len() == 0 {
                assert(s =~= Seq::<u8>::empty());
                assert(pairs_of_pieces(ps) == pairs_of_pieces(ps.drop_first()));
            } else {
                assert(trim_separators(s) == s);
                assert(pair_end(s) == s.len());
                assert(s.take(s.len() as int) =~= s);
                assert(s.skip(s.len() as int) =~= Seq::<u8>::empty());
                lemma_form_pairs_fused();
                assert(form_pairs(s) =~= seq![split_pair(s)]);
                assert(pairs_of_pieces(ps) =~= seq![split_pair(s)]);
            }
        },
        Some(k) => {
            let rest = s.skip(k + 1);
            lemma_form_pairs_pieces(rest);
            assert(ps[0] == s.take(k));
            assert(ps.drop_first() =~= split_on_amp(rest));
            assert(s.skip(k) =~= seq![38u8] + rest);
            lemma_form_pairs_skip_separator(rest);
            if k == 0 {
                assert(s =~= seq![38u8] + rest);
                assert(s.take(0).len() == 0);
                assert(pairs_of_pieces(ps) == pairs_of_pieces(ps.drop_first()));
                assert(form_pairs(s) == form_pairs(rest));
            } else {
                assert(trim_separators(s) == s);
                assert(pair_end(s) == k);
                assert(s.take(k).len() > 0);
                assert(form_pairs(s) == seq![split_pair(s.take(k))] + form_pairs(s.skip(k)));
                assert(pairs_of_pieces(ps) == seq![split_pair(ps[0])] + pairs_of_pieces(
                    ps.drop_first(),
                ));
            }
        },
    }
}

/// No piece of a body cut at every `&` holds a `&`.
proof fn lemma_pieces_no_amp(s: Seq<u8>)
    ensures
        forall|i: int, j: int|
            0 <= i < split_on_amp(s).len() && 0 <= j < split_on_amp(s)[i].len()
                ==> #[trigger] split_on_amp(s)[i][j] != 38,
    decreases s.len(),
{
    lemma_first_index_of(s, 38);
    match first_index_of(s, 38) {
        None => {},
        Some(k) => {
            let rest = s.skip(k + 1);
            lemma_pieces_no_amp(rest);
            let ps = split_on_amp(s);
            assert forall|i: int, j: int|
                0 <= i < ps.len() && 0 <= j < ps[i].len() implies #[trigger] ps[i][j] != 38 by {
                if i > 0 {
                    assert(ps[i] == split_on_amp(rest)[i - 1]);
                } else {
                    assert(ps[0][j] == s[j]);
                }
            }
        },
    }
}

/// A piece without `&` splits into a key with neither `&` nor `=` and a
/// value without `&`.
proof fn lemma_split_pair_separators(p: Seq<u8>)
    requires
        forall|j: int| 0 <= j < p.len() ==> #[trigger] p[j] != 38,
    ensures
        no_separators(split_pair(p).0),
        forall|j: int| 0 <= j < split_pair(p).1.len() ==> #[trigger] split_pair(p).1[j] != 38,
{
    lemma_first_index_of(p, 61);
    match first_index_of(p, 61) {
        None => {},
        Some(e) => {
            let v = p.skip(e + 1);
            assert forall|j: int| 0 <= j < v.len() implies #[trigger] v[j] != 38 by {
                assert(v[j] == p[j + e + 1]);
            }
        },
    }
}

proof fn lemma_pairs_of_pieces_separators(ps: Seq<Seq<u8>>)
    requires
        forall|i: int, j: int| 0 <= i < ps.len() && 0 <= j < ps[i].len() ==> #[trigger] ps[i][j] != 38,
    ensures
        forall|i: int|
            0 <= i < pairs_of_pieces(ps).len() ==> no_separators(
                (#[trigger] pairs_of_pieces(ps)[i]).0,
            ) && forall|j: int|
                0 <= j < pairs_of_pieces(ps)[i].1.len() ==> pairs_of_pieces(ps)[i].1[j] != 38,
    decreases ps.len(),
{
    if ps.len() > 0 {
        let tail = ps.drop_first();
        assert forall|i: int, j: int|
            0 <= i < tail.len() && 0 <= j < tail[i].len() implies #[trigger] tail[i][j] != 38 by {
            assert(tail[i] == ps[i + 1]);
        }
        lemma_pairs_of_pieces_separators(tail);
        if ps[0].len() > 0 {
            assert forall|j: int| 0 <= j < ps[0].len() implies #[trigger] ps[0][j] != 38 by {
                assert(ps[0][j] != 38);
            }
            lemma_split_pair_separators(ps[0]);
            let r = pairs_of_pieces(ps);
            assert forall|i: int| 0 <= i < r.len() implies no_separators((#[trigger] r[i]).0)
                && forall|j: int| 0 <= j < r[i].1.len() ==> r[i].1[j] != 38 by {
                if i > 0 {
                    assert(r[i] == pairs_of_pieces(tail)[i - 1]);
                }
            }
        } else {
            assert(pairs_of_pieces(ps) == pairs_of_pieces(tail));
        }
    }
}

/// Every key that `FormPairs` yields holds neither `&` nor `=`, and every
/// value holds no `&`.
pub proof fn lemma_form_pairs_separators(s: Seq<u8>)
    ensures
        forall|i: int|
            0 <= i < form_pairs(s).len() ==> no_separators((#[trigger] form_pairs(s)[i]).0)
                && forall|j: int|
                0 <= j < form_pairs(s)[i].1.len() ==> form_pairs(s)[i].1[j] != 38,
{
    lemma_form_pairs_pieces(s);
    lemma_pieces_no_amp(s);
    lemma_pairs_of_pieces_separators(split_on_amp(s));
}


/// A form value in which `+` stands for a space: `+` becomes a space and
/// every other byte stays.
pub open spec fn plus_to_space(s: Seq<u8>) -> Seq<u8> {
    Seq::new(s.len(), |i: int| if s[i] == 43 { 32u8 } else { s[i] })
}

/// Decoding a value without `%` turns each `+` into a space and keeps
/// every other byte, `=` included; it never fails, and the decoder writes
/// all of it into a buffer at least as long as the value.
pub proof fn lemma_decode_without_percent(s: Seq<u8>, room: int)
    requires
        forall|i: int| 0 <= i < s.len() ==> #[trigger] s[i] != 37,
        room >= s.len(),
    ensures
        form_decode(s) == Some(plus_to_space(s)),
        decode_within(s, room) == plus_to_space(s),
        plus_to_space(s).len() == s.len(),
    decreases s.len(),
{
    if s.len() > 0 {
        let t = s.drop_first();
        assert forall|i: int| 0 <= i < t.len() implies #[trigger] t[i] != 37 by {
            assert(t[i] == s[i + 1]);
        }
        lemma_decode_without_percent(t, room - 1);
        let c: u8 = if s[0] == 43 { 32u8 } else { s[0] };
        assert(plus_to_space(s) =~= seq![c] + plus_to_space(t));
    } else {
        assert(plus_to_space(s) =~= Seq::<u8>::empty());
    }
}


/// Turning `+` into spaces keeps text valid UTF-8, so a value without `%`
/// taken from a UTF-8 body always decodes to text.
pub proof fn lemma_plus_to_space_valid(s: Seq<u8>)
    requires
        valid_utf8(s),
    ensures
        valid_utf8(plus_to_space(s)),
    decreases s.len(),
{
    if s.len() > 0 {
        let w = length_of_first_scalar(s);
        let head = s.subrange(0, w);
        let tail = s.subrange(w, s.len() as int);
        assert(s =~= head + tail);
        assert(plus_to_space(s) =~= plus_to_space(head) + plus_to_space(tail));
        lemma_plus_to_space_valid(tail);
        if w == 1 {
            let c: u8 = if s[0] == 43 { 32u8 } else { s[0] };
            assert(plus_to_space(head) =~= seq![c]);
            assert(head[0] == s[0]);
            assert(all_ascii(seq![c]));
            lemma_ascii_valid_utf8(seq![c]);
        } else {
            assert forall|k: int| 0 <= k < head.len() implies #[trigger] head[k] >= 128 by {
            }
            assert(plus_to_space(head) =~= head);
            assert(valid_utf8(head)) by {
                reveal_with_fuel(valid_utf8, 2);
                assert(head.subrange(w, head.len() as int) =~= Seq::<u8>::empty());
            }
        }
        valid_utf8_concat(plus_to_space(head), plus_to_space(tail));
    }
}

} // verus!
