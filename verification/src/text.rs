//! Byte-level helpers shared by the form coder and the HTTP parser.
use vstd::prelude::*;
use vstd::utf8::*;
use vstd::string::StringSliceAdditionalSpecFns;

verus! {

broadcast use vstd::string::group_string_axioms;

/// All bytes of `s` are ASCII (below 0x80).
pub open spec fn all_ascii(s: Seq<u8>) -> bool {
    forall|i: int| 0 <= i < s.len() ==> #[trigger] s[i] < 128
}

/// Index of the first occurrence of `b` in `s`, if any.
pub open spec fn first_index_of(s: Seq<u8>, b: u8) -> Option<int>
    decreases s.len(),
{
    if s.len() == 0 {
        None
    } else if s[0] == b {
        Some(0)
    } else {
        match first_index_of(s.drop_first(), b) {
            Some(i) => Some(i + 1),
            None => None,
        }
    }
}

/// Characterises `first_index_of` without recursion.
pub proof fn lemma_first_index_of(s: Seq<u8>, b: u8)
    ensures
        match first_index_of(s, b) {
            Some(i) => 0 <= i < s.len() && s[i] == b && forall|j: int| 0 <= j < i ==> s[j] != b,
            None => forall|j: int| 0 <= j < s.len() ==> s[j] != b,
        },
    decreases s.len(),
{
    if s.len() > 0 && s[0] != b {
        lemma_first_index_of(s.drop_first(), b);
        match first_index_of(s.drop_first(), b) {
            Some(i) => {
                assert forall|j: int| 0 <= j < i + 1 implies s[j] != b by {
                    if j > 0 {
                        assert(s[j] == s.drop_first()[j - 1]);
                    }
                }
            },
            None => {
                assert forall|j: int| 0 <= j < s.len() implies s[j] != b by {
                    if j > 0 {
                        assert(s[j] == s.drop_first()[j - 1]);
                    }
                }
            },
        }
    }
}

/// `first_index_of` is determined by the non-recursive characterisation.
pub proof fn lemma_first_index_of_unique(s: Seq<u8>, b: u8, r: Option<int>)
    requires
        match r {
            Some(i) => 0 <= i < s.len() && s[i] == b && forall|j: int| 0 <= j < i ==> s[j] != b,
            None => forall|j: int| 0 <= j < s.len() ==> s[j] != b,
        },
    ensures
        first_index_of(s, b) == r,
{
    lemma_first_index_of(s, b);
    match (first_index_of(s, b), r) {
        (Some(i), Some(k)) => {
            if i < k {
                assert(s[i] != b);
            } else if k < i {
                assert(s[k] != b);
            }
        },
        (Some(i), None) => {
            assert(s[i] != b);
        },
        (None, Some(k)) => {
            assert(s[k] != b);
        },
        (None, None) => {},
    }
}

/// ASCII bytes always form valid UTF-8.
pub proof fn lemma_ascii_valid_utf8(s: Seq<u8>)
    requires
        all_ascii(s),
    ensures
        valid_utf8(s),
{
    assert(s.subrange(0, 0) =~= Seq::<u8>::empty());
    assert(partial_valid_utf8(s, 0));
    assert forall|i: int| 0 <= 0 <= i < s.len() <= s.len() implies #[trigger] is_leading_byte_width_1(
        s[i],
    ) by {
        assert(s[i] < 128);
    }
    partial_valid_utf8_extend_ascii_block(s, 0, s.len() as int);
    assert(s.subrange(0, s.len() as int) =~= s);
}

/// Splitting a valid UTF-8 sequence just before an ASCII byte, or at its
/// end, yields valid UTF-8 on both sides.
pub proof fn lemma_split_at_ascii(s: Seq<u8>, k: int)
    requires
        valid_utf8(s),
        0 <= k <= s.len(),
        0 < k < s.len() ==> s[k] < 128,
    ensures
        is_char_boundary(s, k),
        valid_utf8(s.subrange(0, k)),
        valid_utf8(s.subrange(k, s.len() as int)),
{
    is_char_boundary_start_end_of_seq(s);
    if 0 < k < s.len() {
        is_char_boundary_iff_is_leading_byte(s, k);
    }
    valid_utf8_split(s, k);
}

/// In valid UTF-8, the position right after an ASCII byte is a character
/// boundary.
pub proof fn lemma_boundary_after_ascii(s: Seq<u8>, k: int)
    requires
        valid_utf8(s),
        0 < k <= s.len(),
        s[k - 1] < 128,
    ensures
        is_char_boundary(s, k),
{
    is_char_boundary_start_end_of_seq(s);
    if k < s.len() {
        is_char_boundary_iff_is_leading_byte(s, k - 1);
        valid_utf8_split(s, k - 1);
        let t = s.subrange(k - 1, s.len() as int);
        assert(t[0] == s[k - 1]);
        assert(valid_first_scalar(t));
        assert(pop_first_scalar(t) =~= s.subrange(k, s.len() as int));
        let u = s.subrange(k, s.len() as int);
        assert(valid_utf8(u));
        assert(u[0] == s[k]);
        assert(valid_first_scalar(u));
        is_char_boundary_iff_is_leading_byte(s, k);
    }
}

/// Interprets `bytes` as UTF-8 text.
///
/// Calls `core::str::from_utf8`, whose documentation promises `Ok` exactly
/// when the bytes are valid UTF-8, and then a `&str` over the same bytes.
#[verifier::external_body]
pub(crate) fn str_from_utf8(bytes: &[u8]) -> (r: Option<&str>)
    ensures
        r is Some <==> valid_utf8(bytes@),
        r matches Some(s) ==> s.spec_bytes() == bytes@,
{
    core::str::from_utf8(bytes).ok()
}

/// Byte-wise equality of two slices.
pub fn bytes_equal(a: &[u8], b: &[u8]) -> (r: bool)
    ensures
        r == (a@ == b@),
{
    if a.len() != b.len() {
        return false;
    }
    let mut i: usize = 0;
    while i < a.len()
        invariant
            a@.len() == b@.len(),
            i <= a@.len(),
            forall|j: int| 0 <= j < i ==> a@[j] == b@[j],
        decreases a@.len() - i,
    {
        if a[i] != b[i] {
            return false;
        }
        i += 1;
    }
    assert(a@ =~= b@);
    true
}

/// Two strings are equal exactly when their UTF-8 bytes are equal.
pub proof fn lemma_str_eq_bytes(a: &str, b: &str)
    ensures
        (a@ == b@) <==> (a.spec_bytes() == b.spec_bytes()),
{
    encode_utf8_decode_utf8(a@);
    encode_utf8_decode_utf8(b@);
}

/// String equality, decided on the UTF-8 bytes.
pub fn str_equal(a: &str, b: &str) -> (r: bool)
    ensures
        r == (a@ == b@),
{
    proof {
        lemma_str_eq_bytes(a, b);
    }
    bytes_equal(a.as_bytes(), b.as_bytes())
}


/// A buffer that holds `p` followed by the untouched rest of `orig`, after
/// `x` is written right after `p`, holds `p + x` followed by the rest.
pub proof fn lemma_extend_prefix(orig: Seq<u8>, p: Seq<u8>, x: Seq<u8>, o: Seq<u8>, o2: Seq<u8>)
    requires
        p.len() + x.len() <= orig.len(),
        o == p + orig.skip(p.len() as int),
        o2 == o.take(p.len() as int) + x + o.skip((p.len() + x.len()) as int),
    ensures
        o2 == (p + x) + orig.skip((p.len() + x.len()) as int),
{
    assert(o.take(p.len() as int) =~= p);
    assert(o.skip((p.len() + x.len()) as int) =~= orig.skip((p.len() + x.len()) as int));
    assert(o2 =~= (p + x) + orig.skip((p.len() + x.len()) as int));
}

/// Writing one byte at `at` replaces exactly that position.
pub proof fn lemma_update_as_write(s: Seq<u8>, at: int, b: u8)
    requires
        0 <= at < s.len(),
    ensures
        s.update(at, b) == s.take(at) + seq![b] + s.skip(at + 1),
{
    assert(s.update(at, b) =~= s.take(at) + seq![b] + s.skip(at + 1));
}


/// The bytes of a text made of ASCII characters are its characters.
pub proof fn lemma_ascii_literal(s: &str)
    requires
        vstd::string::is_ascii(s),
    ensures
        s.spec_bytes() =~= Seq::new(s@.len(), |i| s@[i] as u8),
{
}


/// Copies `src` into `dst` at `pos`; returns the number of bytes copied.
pub fn copy_bytes(dst: &mut [u8], pos: usize, src: &[u8]) -> (n: usize)
    requires
        pos + src@.len() <= old(dst).len(),
    ensures
        n == src@.len(),
        final(dst)@ == old(dst)@.take(pos as int) + src@ + old(dst)@.skip(pos + src@.len()),
{
    let mut i: usize = 0;
    while i < src.len()
        invariant
            pos + src@.len() <= dst.len(),
            dst@.len() == old(dst)@.len(),
            i <= src@.len(),
            dst@ == old(dst)@.take(pos as int) + src@.take(i as int) + old(dst)@.skip(pos + i),
        decreases src@.len() - i,
    {
        let ghost before = dst@;
        dst[pos + i] = src[i];
        i += 1;
        assert(dst@ =~= old(dst)@.take(pos as int) + src@.take(i as int) + old(dst)@.skip(pos + i));
    }
    assert(src@.take(i as int) =~= src@);
    i
}

} // verus!
