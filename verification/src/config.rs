//! Configuration structs filled from the portal form and persisted as a
//! form-encoded body, in caller-provided buffers.
use vstd::prelude::*;
use vstd::utf8::*;
use vstd::string::StringSliceAdditionalSpecFns;
use crate::error::ParseError;
use crate::form::{FormPairs, decode_into, percent_encode, percent_bytes, hex_char, form_decode,
    form_pairs, next_pair, no_separators, lemma_next_pair_split, lemma_form_pairs_skip_separator,
    lemma_hex_round_trip};
use crate::text::{str_equal, lemma_str_eq_bytes, lemma_ascii_literal, str_from_utf8, copy_bytes,
    all_ascii, lemma_ascii_valid_utf8};
use crate::number::{decimal, signed_decimal, unsigned_value, signed_value, is_digit,
    lemma_decimal_digits, lemma_unsigned_value_decimal, lemma_signed_value_decimal,
    lemma_decimal_u64, copy_decimal, copy_signed, parse_unsigned, parse_signed};

verus! {

broadcast use vstd::string::group_string_axioms;

/// A configuration type whose fields the portal form fills in.
pub trait ProvisionConfig: Sized {
    /// The configuration page.
    const HTML: &'static str;

    /// Parses a submitted form body.
    fn from_form(body: &[u8]) -> Result<Self, ParseError>;

    /// Serialises the configuration for storage; returns the byte count.
    fn to_bytes(&self, buf: &mut [u8]) -> Result<usize, ParseError>;

    /// Restores a configuration from what `to_bytes` wrote.
    fn from_bytes(buf: &[u8]) -> Result<Self, ParseError>;
}

/// The kinds of configuration field values.
#[derive(Debug, Clone, Copy, PartialEq, Eq)]
pub enum FieldKind {
    /// Text of at most the given number of bytes.
    Text(usize),
    /// A boolean written `true` or `false`.
    Flag,
    /// An unsigned integer of at most the given value.
    Unsigned(u64),
    /// A signed integer from the first to the second value.
    Signed(i64, i64),
}

/// A configuration field: its form name and the kind of its value.
#[derive(Debug, Clone, Copy, PartialEq, Eq)]
pub struct FieldSpec {
    pub name: &'static str,
    pub kind: FieldKind,
}

/// A text value of at most `VALUE_BUFFER_LEN` bytes of UTF-8, held inline
/// so that no allocation is needed.
#[derive(Debug, Clone, Copy)]
pub struct TextValue {
    bytes: [u8; VALUE_BUFFER_LEN],
    len: usize,
}

impl View for TextValue {
    type V = Seq<char>;

    /// The characters of the text.
    closed spec fn view(&self) -> Seq<char> {
        decode_utf8(self.bytes@.take(self.len as int))
    }
}

impl TextValue {
    #[verifier::type_invariant]
    spec fn well_formed(&self) -> bool {
        &&& self.len <= VALUE_BUFFER_LEN
        &&& valid_utf8(self.bytes@.take(self.len as int))
    }

    /// A copy of `text`, or `None` when it is longer than
    /// `VALUE_BUFFER_LEN` bytes.
    pub fn new(text: &str) -> (r: Option<TextValue>)
        ensures
            r is Some <==> text.spec_bytes().len() <= VALUE_BUFFER_LEN,
            r matches Some(t) ==> t@ == text@,
    {
        let src = text.as_bytes();
        if src.len() > VALUE_BUFFER_LEN {
            return None;
        }
        let mut bytes = [0u8; 256];
        let mut i: usize = 0;
        while i < src.len()
            invariant
                src@.len() <= VALUE_BUFFER_LEN,
                bytes@.len() == VALUE_BUFFER_LEN,
                i <= src@.len(),
                forall|j: int| 0 <= j < i ==> bytes@[j] == src@[j],
            decreases src@.len() - i,
        {
            bytes[i] = src[i];
            i += 1;
        }
        proof {
            assert(bytes@.take(src@.len() as int) =~= src@);
            encode_utf8_valid_utf8(text@);
            encode_utf8_decode_utf8(text@);
        }
        Some(TextValue { bytes, len: src.len() })
    }

    /// The bytes of the text.
    pub fn as_bytes(&self) -> (r: &[u8])
        ensures
            r@ == encode_utf8(self@),
    {
        proof {
            use_type_invariant(self);
            decode_utf8_encode_utf8(self.bytes@.take(self.len as int));
        }
        let r = &self.bytes.as_slice()[0..self.len];
        assert(r@ =~= self.bytes@.take(self.len as int));
        r
    }

    /// The text.
    pub fn as_str(&self) -> (r: &str)
        ensures
            r@ == self@,
    {
        proof {
            use_type_invariant(self);
        }
        let b = self.as_bytes();
        proof {
            decode_utf8_encode_utf8(self.bytes@.take(self.len as int));
            encode_utf8_valid_utf8(self@);
        }
        match str_from_utf8(b) {
            Some(s) => {
                proof {
                    encode_utf8_decode_utf8(s@);
                    encode_utf8_decode_utf8(self@);
                }
                s
            },
            None => "",
        }
    }
}

/// The value of a configuration field.
#[derive(Debug, Clone, Copy)]
pub enum FieldValue {
    Text(TextValue),
    Flag(bool),
    Unsigned(u64),
    Signed(i64),
}

/// The mathematical value of a field.
pub enum FieldView {
    Text(Seq<char>),
    Flag(bool),
    Unsigned(u64),
    Signed(i64),
}

impl View for FieldValue {
    type V = FieldView;

    open spec fn view(&self) -> FieldView {
        match self {
            FieldValue::Text(t) => FieldView::Text(t@),
            FieldValue::Flag(b) => FieldView::Flag(*b),
            FieldValue::Unsigned(n) => FieldView::Unsigned(*n),
            FieldValue::Signed(v) => FieldView::Signed(*v),
        }
    }
}

/// The kind of a field whose type is named `ty_name`, with the capacity
/// `N` when the type is written `String<N>`: a flag for `bool`, the range of
/// each fixed-width integer type, text of capacity `N` for a `String<N>`;
/// `None` for any other type.  `usize` and `isize` are among the others:
/// their range is that of the device the configuration runs on.
pub open spec fn kind_for_type(ty_name: Seq<char>, capacity: Option<usize>) -> Option<FieldKind> {
    if ty_name == "bool"@ {
        Some(FieldKind::Flag)
    } else if ty_name == "u8"@ {
        Some(FieldKind::Unsigned(u8::MAX as u64))
    } else if ty_name == "u16"@ {
        Some(FieldKind::Unsigned(u16::MAX as u64))
    } else if ty_name == "u32"@ {
        Some(FieldKind::Unsigned(u32::MAX as u64))
    } else if ty_name == "u64"@ {
        Some(FieldKind::Unsigned(u64::MAX))
    } else if ty_name == "i8"@ {
        Some(FieldKind::Signed(i8::MIN as i64, i8::MAX as i64))
    } else if ty_name == "i16"@ {
        Some(FieldKind::Signed(i16::MIN as i64, i16::MAX as i64))
    } else if ty_name == "i32"@ {
        Some(FieldKind::Signed(i32::MIN as i64, i32::MAX as i64))
    } else if ty_name == "i64"@ {
        Some(FieldKind::Signed(i64::MIN, i64::MAX))
    } else if ty_name == "String"@ {
        match capacity {
            Some(c) => Some(FieldKind::Text(c)),
            None => None,
        }
    } else {
        None
    }
}

/// The kind of a field from the name of its type, as the derive decides
/// it; see `kind_for_type`.
pub fn field_kind_for_type(ty_name: &str, capacity: Option<usize>) -> (r: Option<FieldKind>)
    ensures
        r == kind_for_type(ty_name@, capacity),
{
    if str_equal(ty_name, "bool") {
        Some(FieldKind::Flag)
    } else if str_equal(ty_name, "u8") {
        Some(FieldKind::Unsigned(u8::MAX as u64))
    } else if str_equal(ty_name, "u16") {
        Some(FieldKind::Unsigned(u16::MAX as u64))
    } else if str_equal(ty_name, "u32") {
        Some(FieldKind::Unsigned(u32::MAX as u64))
    } else if str_equal(ty_name, "u64") {
        Some(FieldKind::Unsigned(u64::MAX))
    } else if str_equal(ty_name, "i8") {
        Some(FieldKind::Signed(i8::MIN as i64, i8::MAX as i64))
    } else if str_equal(ty_name, "i16") {
        Some(FieldKind::Signed(i16::MIN as i64, i16::MAX as i64))
    } else if str_equal(ty_name, "i32") {
        Some(FieldKind::Signed(i32::MIN as i64, i32::MAX as i64))
    } else if str_equal(ty_name, "i64") {
        Some(FieldKind::Signed(i64::MIN, i64::MAX))
    } else if str_equal(ty_name, "String") {
        match capacity {
            Some(c) => Some(FieldKind::Text(c)),
            None => None,
        }
    } else {
        None
    }
}

// ── Model of form parsing ──────────────────────────────────────────────────

/// The size of the buffer each value is decoded into.
pub const VALUE_BUFFER_LEN: usize = 256;

/// `true`
pub open spec fn true_bytes() -> Seq<u8> {
    seq![116u8, 114, 117, 101]
}

/// `false`
pub open spec fn false_bytes() -> Seq<u8> {
    seq![102u8, 97, 108, 115, 101]
}

/// The value a decoded text gives a field of kind `kind`: text within the
/// capacity, exactly `true` / `false` for a flag, or an integer as
/// `str::parse` reads it, within the range of the field.
pub open spec fn parse_value(kind: FieldKind, text: Seq<u8>) -> Option<FieldView> {
    match kind {
        FieldKind::Text(cap) => if text.len() <= cap {
            Some(FieldView::Text(decode_utf8(text)))
        } else {
            None
        },
        FieldKind::Flag => if text == true_bytes() {
            Some(FieldView::Flag(true))
        } else if text == false_bytes() {
            Some(FieldView::Flag(false))
        } else {
            None
        },
        FieldKind::Unsigned(max) => match unsigned_value(text) {
            Some(v) => if v <= max {
                Some(FieldView::Unsigned(v as u64))
            } else {
                None
            },
            None => None,
        },
        FieldKind::Signed(min, max) => match signed_value(text) {
            Some(v) => if min <= v <= max {
                Some(FieldView::Signed(v as i64))
            } else {
                None
            },
            None => None,
        },
    }
}

/// Index of the first field named `key`.
pub open spec fn field_index(fields: Seq<FieldSpec>, key: Seq<u8>) -> Option<int>
    decreases fields.len(),
{
    if fields.len() == 0 {
        None
    } else if fields[0].name.spec_bytes() == key {
        Some(0)
    } else {
        match field_index(fields.drop_first(), key) {
            Some(i) => Some(i + 1),
            None => None,
        }
    }
}

/// Fills field slots from raw form pairs in order: a pair whose key names
/// a field not yet filled is decoded and parsed; the first failure stops
/// the scan.  Pairs for unknown or already filled fields are ignored.
pub open spec fn fill_fields(
    fields: Seq<FieldSpec>,
    pairs: Seq<(Seq<u8>, Seq<u8>)>,
    slots: Seq<Option<FieldView>>,
) -> Result<Seq<Option<FieldView>>, ParseError>
    decreases pairs.len(),
{
    if pairs.len() == 0 {
        Ok(slots)
    } else {
        let rest = pairs.drop_first();
        match field_index(fields, pairs[0].0) {
            None => fill_fields(fields, rest, slots),
            Some(i) => if slots[i] is Some {
                fill_fields(fields, rest, slots)
            } else {
                match form_decode(pairs[0].1) {
                    None => Err(ParseError::MalformedEncoding),
                    Some(d) => if d.len() > VALUE_BUFFER_LEN {
                        Err(ParseError::MalformedEncoding)
                    } else if !valid_utf8(d) {
                        Err(ParseError::InvalidEncoding)
                    } else {
                        match parse_value(fields[i].kind, d) {
                            None => Err(ParseError::InvalidValue(fields[i].name)),
                            Some(v) => fill_fields(fields, rest, slots.update(i, Some(v))),
                        }
                    },
                }
            },
        }
    }
}

/// Index of the first slot left empty.
pub open spec fn first_missing(slots: Seq<Option<FieldView>>) -> Option<int>
    decreases slots.len(),
{
    if slots.len() == 0 {
        None
    } else if slots[0] is None {
        Some(0)
    } else {
        match first_missing(slots.drop_first()) {
            Some(i) => Some(i + 1),
            None => None,
        }
    }
}

/// `n` empty slots.
pub open spec fn empty_slots(n: nat) -> Seq<Option<FieldView>> {
    Seq::new(n, |i: int| None)
}

/// The values in filled slots.
pub open spec fn slot_values(slots: Seq<Option<FieldView>>) -> Seq<FieldView> {
    slots.map_values(|o: Option<FieldView>| o->0)
}

/// The views of a sequence of values.
pub open spec fn value_views(values: Seq<FieldValue>) -> Seq<FieldView> {
    values.map_values(|x: FieldValue| x@)
}

/// The outcome of reading the fields from a form body: the body must be
/// UTF-8, the pairs fill the fields, and every field must be filled.
pub open spec fn spec_fields_from_form(body: Seq<u8>, fields: Seq<FieldSpec>) -> Result<
    Seq<FieldView>,
    ParseError,
> {
    if !valid_utf8(body) {
        Err(ParseError::InvalidEncoding)
    } else {
        match fill_fields(fields, form_pairs(body), empty_slots(fields.len())) {
            Err(e) => Err(e),
            Ok(slots) => match first_missing(slots) {
                Some(i) => Err(ParseError::MissingField(fields[i].name)),
                None => Ok(slot_values(slots)),
            },
        }
    }
}

/// The views of filled slots.
pub open spec fn slot_views(slots: Seq<Option<FieldValue>>) -> Seq<Option<FieldView>> {
    slots.map_values(
        |o: Option<FieldValue>|
            match o {
                Some(v) => Some(v@),
                None => None,
            },
    )
}

// ── Form parsing ───────────────────────────────────────────────────────────

/// Index of the first field named `key`.
fn field_position(fields: &[FieldSpec], key: &str) -> (r: Option<usize>)
    ensures
        match r {
            Some(i) => field_index(fields@, key.spec_bytes()) == Some(i as int) && i < fields@.len(),
            None => field_index(fields@, key.spec_bytes()) is None,
        },
{
    let mut i: usize = 0;
    assert(fields@.skip(0) =~= fields@);
    while i < fields.len()
        invariant
            i <= fields@.len(),
            field_index(fields@, key.spec_bytes()) == match field_index(
                fields@.skip(i as int),
                key.spec_bytes(),
            ) {
                Some(j) => Some(j + i),
                None => None,
            },
        decreases fields@.len() - i,
    {
        proof {
            lemma_str_eq_bytes(fields@[i as int].name, key);
            assert(fields@.skip(i as int).drop_first() =~= fields@.skip(i + 1));
        }
        if str_equal(fields[i].name, key) {
            return Some(i);
        }
        i += 1;
    }
    None
}

/// Parses a decoded text as a value of the given kind.
fn parse_field_value(kind: FieldKind, text: &str) -> (r: Option<FieldValue>)
    requires
        text.spec_bytes().len() <= VALUE_BUFFER_LEN,
    ensures
        match r {
            Some(v) => parse_value(kind, text.spec_bytes()) == Some(v@),
            None => parse_value(kind, text.spec_bytes()) is None,
        },
{
    proof {
        encode_utf8_decode_utf8(text@);
    }
    match kind {
        FieldKind::Text(cap) => {
            if text.as_bytes().len() <= cap {
                match TextValue::new(text) {
                    Some(t) => Some(FieldValue::Text(t)),
                    None => None,
                }
            } else {
                None
            }
        },
        FieldKind::Flag => {
            proof {
                reveal_strlit("true");
                reveal_strlit("false");
                lemma_str_eq_bytes(text, "true");
                lemma_str_eq_bytes(text, "false");
                lemma_ascii_literal("true");
                lemma_ascii_literal("false");
                assert("true".spec_bytes() =~= true_bytes());
                assert("false".spec_bytes() =~= false_bytes());
            }
            if str_equal(text, "true") {
                Some(FieldValue::Flag(true))
            } else if str_equal(text, "false") {
                Some(FieldValue::Flag(false))
            } else {
                None
            }
        },
        FieldKind::Unsigned(max) => match parse_unsigned(text.as_bytes(), max) {
            Some(n) => Some(FieldValue::Unsigned(n)),
            None => None,
        },
        FieldKind::Signed(min, max) => match parse_signed(text.as_bytes(), min, max) {
            Some(v) => Some(FieldValue::Signed(v)),
            None => None,
        },
    }
}


/// Reads the configuration fields from a submitted form body, as the
/// derived `from_form` and `from_bytes` do: the body must be UTF-8; each
/// pair whose key names a field not yet filled is decoded (into a
/// `VALUE_BUFFER_LEN`-byte buffer) and parsed, and the first failure is
/// returned; finally every field must have been filled.  The values are
/// left in `slots`, one per field and in field order; nothing is allocated.
pub fn fields_from_form(body: &[u8], fields: &[FieldSpec], slots: &mut [Option<FieldValue>]) -> (r:
    Result<(), ParseError>)
    requires
        old(slots)@.len() == fields@.len(),
    ensures
        final(slots)@.len() == fields@.len(),
        match (r, spec_fields_from_form(body@, fields@)) {
            (Ok(()), Ok(w)) => slot_views(final(slots)@) == w.map_values(|v: FieldView| Some(v)),
            (Err(e), Err(f)) => e == f,
            _ => false,
        },
{
    let body_str = match str_from_utf8(body) {
        Some(s) => s,
        None => return Err(ParseError::InvalidEncoding),
    };
    let ghost init: Seq<Option<FieldView>> = empty_slots(fields@.len());
    let mut k: usize = 0;
    while k < slots.len()
        invariant
            k <= slots@.len(),
            slots@.len() == fields@.len(),
            forall|j: int| 0 <= j < k ==> #[trigger] slots@[j] is None,
        decreases slots@.len() - k,
    {
        slots[k] = None;
        k += 1;
    }
    assert(slot_views(slots@) =~= init);
    let mut scratch = [0u8; 256];
    let mut pairs = FormPairs::new(body_str);
    loop
        invariant
            slots@.len() == fields@.len(),
            scratch@.len() == VALUE_BUFFER_LEN,
            body_str.spec_bytes() == body@,
            valid_utf8(body@),
            init == empty_slots(fields@.len()),
            fill_fields(fields@, form_pairs(body@), init) == fill_fields(
                fields@,
                form_pairs(pairs@),
                slot_views(slots@),
            ),
        ensures
            slots@.len() == fields@.len(),
            fill_fields(fields@, form_pairs(body@), init) == fill_fields(
                fields@,
                form_pairs(pairs@),
                slot_views(slots@),
            ),
            form_pairs(pairs@) == Seq::<(Seq<u8>, Seq<u8>)>::empty(),
        decreases pairs@.len(),
    {
        let ghost before = pairs@;
        proof {
            crate::form::lemma_next_pair_shrinks(before);
        }
        let (key, raw) = match pairs.next() {
            Some(kv) => kv,
            None => break,
        };
        let ghost rest_pairs = form_pairs(pairs@);
        assert(form_pairs(before) == seq![(key.spec_bytes(), raw.spec_bytes())] + rest_pairs);
        assert((seq![(key.spec_bytes(), raw.spec_bytes())] + rest_pairs).drop_first() =~= rest_pairs);
        match field_position(fields, key) {
            None => {},
            Some(i) => {
                assert(slot_views(slots@)[i as int] == match slots@[i as int] {
                    Some(v) => Some(v@),
                    None => None::<FieldView>,
                });
                if slots[i].is_none() {
                    let decoded = match decode_into(raw, &mut scratch) {
                        Ok(d) => d,
                        Err(e) => {
                            assert(fill_fields(fields@, form_pairs(before), slot_views(slots@))
                                == Err::<Seq<Option<FieldView>>, ParseError>(e));
                            return Err(e);
                        },
                    };
                    let value = match parse_field_value(fields[i].kind, decoded) {
                        Some(v) => v,
                        None => {
                            assert(fill_fields(fields@, form_pairs(before), slot_views(slots@))
                                == Err::<Seq<Option<FieldView>>, ParseError>(
                                ParseError::InvalidValue(fields[i as int].name),
                            ));
                            return Err(ParseError::InvalidValue(fields[i].name));
                        },
                    };
                    let ghost old_slots = slots@;
                    slots[i] = Some(value);
                    assert(slot_views(slots@) =~= slot_views(old_slots).update(
                        i as int,
                        Some(value@),
                    ));
                }
            },
        }
    }
    let ghost filled = slot_views(slots@);
    let mut j: usize = 0;
    assert(filled.skip(0) =~= filled);
    while j < fields.len()
        invariant
            slots@.len() == fields@.len(),
            filled == slot_views(slots@),
            valid_utf8(body@),
            fill_fields(fields@, form_pairs(body@), empty_slots(fields@.len())) == Ok::<
                Seq<Option<FieldView>>,
                ParseError,
            >(filled),
            j <= fields@.len(),
            first_missing(filled) == match first_missing(filled.skip(j as int)) {
                Some(m) => Some(m + j),
                None => None,
            },
            forall|m: int| 0 <= m < j ==> #[trigger] filled[m] is Some,
        decreases fields@.len() - j,
    {
        assert(filled.skip(j as int).drop_first() =~= filled.skip(j + 1));
        assert(filled[j as int] == match slots@[j as int] {
            Some(v) => Some(v@),
            None => None::<FieldView>,
        });
        if slots[j].is_none() {
            return Err(ParseError::MissingField(fields[j].name));
        }
        j += 1;
    }
    assert(first_missing(filled.skip(j as int)) is None);
    assert(slot_views(slots@) =~= slot_values(filled).map_values(|v: FieldView| Some(v)));
    Ok(())
}


// ── Model of serialisation ─────────────────────────────────────────────────

/// The size of the buffer a value's text is formatted into before it is
/// written.
pub const TEXT_BUFFER_LEN: usize = 128;

/// The text a value is written as: the string itself, `true` / `false`,
/// or the decimal digits of an integer, after `-` when negative.
pub open spec fn value_text(v: FieldView) -> Seq<u8> {
    match v {
        FieldView::Text(s) => encode_utf8(s),
        FieldView::Flag(b) => if b {
            true_bytes()
        } else {
            false_bytes()
        },
        FieldView::Unsigned(n) => decimal(n as nat),
        FieldView::Signed(v) => signed_decimal(v as int),
    }
}

/// The bytes that the form reader would take for separators or escapes:
/// `&`, `=`, `+` and `%`.
pub open spec fn is_form_special(b: u8) -> bool {
    b == 38 || b == 61 || b == 43 || b == 37
}

/// A value byte as stored: `&`, `=`, `+` and `%` become `%XX`, other bytes
/// stay.
pub open spec fn escape_byte(b: u8) -> Seq<u8> {
    if is_form_special(b) {
        percent_bytes(b)
    } else {
        seq![b]
    }
}

/// A value text as stored.
pub open spec fn escape_text(t: Seq<u8>) -> Seq<u8>
    decreases t.len(),
{
    if t.len() == 0 {
        seq![]
    } else {
        escape_byte(t[0]) + escape_text(t.drop_first())
    }
}

/// What is written of an escaped text followed by the closing `&` into
/// `room` bytes, and whether all of it fitted.
pub open spec fn write_escaped(t: Seq<u8>, room: int) -> (Seq<u8>, bool)
    decreases t.len(),
{
    if t.len() == 0 {
        if room >= 1 {
            (seq![38u8], true)
        } else {
            (seq![], false)
        }
    } else if escape_byte(t[0]).len() > room {
        (seq![], false)
    } else {
        let rest = write_escaped(t.drop_first(), room - escape_byte(t[0]).len());
        (escape_byte(t[0]) + rest.0, rest.1)
    }
}

/// What is written of one field `name=text&` into `room` bytes, and
/// whether all of it fitted: the name and `=` go in together, a text longer
/// than `TEXT_BUFFER_LEN` fails, then each escaped byte and the closing `&`
/// go in while they fit.
pub open spec fn write_field_bytes(name: Seq<u8>, text: Seq<u8>, room: int) -> (Seq<u8>, bool) {
    let head = name + seq![61u8];
    if head.len() > room {
        (seq![], false)
    } else if text.len() > TEXT_BUFFER_LEN {
        (head, false)
    } else {
        let rest = write_escaped(text, room - head.len());
        (head + rest.0, rest.1)
    }
}

/// Field names paired with the texts of their values.
pub open spec fn field_entries(fields: Seq<FieldSpec>, values: Seq<FieldValue>) -> Seq<
    (Seq<u8>, Seq<u8>),
> {
    Seq::new(fields.len(), |i: int| (fields[i].name.spec_bytes(), value_text(values[i]@)))
}

/// What is written of the fields into `room` bytes, and the index of the
/// field that did not fit, if any.
pub open spec fn serialize_entries(entries: Seq<(Seq<u8>, Seq<u8>)>, room: int) -> (
    Seq<u8>,
    Option<int>,
)
    decreases entries.len(),
{
    if entries.len() == 0 {
        (seq![], None)
    } else {
        let first = write_field_bytes(entries[0].0, entries[0].1, room);
        if !first.1 {
            (first.0, Some(0))
        } else {
            let rest = serialize_entries(entries.drop_first(), room - first.0.len());
            (
                first.0 + rest.0,
                match rest.1 {
                    Some(i) => Some(i + 1),
                    None => None,
                },
            )
        }
    }
}

// ── Serialisation ──────────────────────────────────────────────────────────

/// Writes `text` escaped, then `&`, into `buf` at `pos` while it fits.
fn write_escaped_text(buf: &mut [u8], pos: usize, text: &[u8]) -> (r: Result<usize, ()>)
    requires
        pos <= old(buf)@.len(),
    ensures
        final(buf)@.len() == old(buf)@.len(),
        ({
            let w = write_escaped(text@, old(buf)@.len() - pos);
            &&& pos + w.0.len() <= old(buf)@.len()
            &&& final(buf)@ == old(buf)@.take(pos as int) + w.0 + old(buf)@.skip(pos + w.0.len())
            &&& (r is Ok <==> w.1)
            &&& r matches Ok(n) ==> n == w.0.len()
        }),
{
    let ghost room0: int = old(buf)@.len() - pos;
    let mut p: usize = pos;
    let mut i: usize = 0;
    assert(text@.skip(0) =~= text@);
    assert(buf@ =~= old(buf)@.take(pos as int) + Seq::<u8>::empty() + old(buf)@.skip(pos as int));
    while i < text.len()
        invariant
            pos <= p <= buf@.len(),
            buf@.len() == old(buf)@.len(),
            room0 == old(buf)@.len() - pos,
            i <= text@.len(),
            write_escaped(text@, room0).0 == buf@.subrange(pos as int, p as int) + write_escaped(
                text@.skip(i as int),
                room0 - (p - pos),
            ).0,
            write_escaped(text@, room0).1 == write_escaped(text@.skip(i as int), room0 - (p - pos)).1,
            buf@.take(pos as int) == old(buf)@.take(pos as int),
            buf@.skip(p as int) == old(buf)@.skip(p as int),
        decreases text@.len() - i,
    {
        let b = text[i];
        let ghost rest = text@.skip(i as int);
        let ghost before = buf@;
        assert(rest[0] == b);
        assert(rest.drop_first() =~= text@.skip(i + 1));
        if b == 38u8 || b == 61u8 || b == 43u8 || b == 37u8 {
            if buf.len() - p < 3 {
                proof {
                    assert(buf@ =~= old(buf)@.take(pos as int) + buf@.subrange(pos as int, p as int)
                        + old(buf)@.skip(p as int));
                    assert(buf@.subrange(pos as int, p as int) + Seq::<u8>::empty() =~= buf@.subrange(
                        pos as int,
                        p as int,
                    ));
                }
                return Err(());
            }
            let escaped = percent_encode(b);
            buf[p] = escaped[0];
            buf[p + 1] = escaped[1];
            buf[p + 2] = escaped[2];
            p += 3;
        } else {
            if p >= buf.len() {
                proof {
                    assert(buf@ =~= old(buf)@.take(pos as int) + buf@.subrange(pos as int, p as int)
                        + old(buf)@.skip(p as int));
                    assert(buf@.subrange(pos as int, p as int) + Seq::<u8>::empty() =~= buf@.subrange(
                        pos as int,
                        p as int,
                    ));
                }
                return Err(());
            }
            buf[p] = b;
            p += 1;
        }
        proof {
            let c = escape_byte(b);
            let q = p - c.len();
            assert(buf@.subrange(pos as int, p as int) =~= before.subrange(pos as int, q as int) + c);
            assert(buf@.take(pos as int) =~= before.take(pos as int));
            assert(buf@.skip(p as int) =~= before.skip(p as int));
            assert(before.skip(p as int) =~= before.skip(q as int).skip(c.len() as int));
            assert(old(buf)@.skip(p as int) =~= old(buf)@.skip(q as int).skip(c.len() as int));
        }
        i += 1;
    }
    assert(text@.skip(i as int) =~= Seq::<u8>::empty());
    if p >= buf.len() {
        proof {
            assert(buf@ =~= old(buf)@.take(pos as int) + buf@.subrange(pos as int, p as int)
                + old(buf)@.skip(p as int));
            assert(buf@.subrange(pos as int, p as int) + Seq::<u8>::empty() =~= buf@.subrange(
                pos as int,
                p as int,
            ));
        }
        return Err(());
    }
    let ghost before = buf@;
    buf[p] = 38u8;
    p += 1;
    proof {
        assert(buf@.subrange(pos as int, p as int) =~= before.subrange(pos as int, p - 1) + seq![
            38u8,
        ]);
        assert(before.skip(p as int) =~= before.skip(p - 1).drop_first());
        assert(old(buf)@.skip(p as int) =~= old(buf)@.skip(p - 1).drop_first());
        assert(buf@.skip(p as int) =~= before.skip(p as int));
        assert(buf@.take(pos as int) =~= before.take(pos as int));
        assert(buf@ =~= old(buf)@.take(pos as int) + buf@.subrange(pos as int, p as int) + old(
            buf,
        )@.skip(p as int));
    }
    Ok(p - pos)
}


/// Writes `name=`, then the escaped `text` and `&`, into `buf` at `pos`
/// while it fits.
fn write_field(buf: &mut [u8], pos: usize, name: &str, text: &[u8]) -> (r: Result<usize, ()>)
    requires
        pos <= old(buf)@.len(),
    ensures
        final(buf)@.len() == old(buf)@.len(),
        ({
            let w = write_field_bytes(name.spec_bytes(), text@, old(buf)@.len() - pos);
            &&& pos + w.0.len() <= old(buf)@.len()
            &&& final(buf)@ == old(buf)@.take(pos as int) + w.0 + old(buf)@.skip(pos + w.0.len())
            &&& (r is Ok <==> w.1)
            &&& r matches Ok(n) ==> n == w.0.len()
        }),
        r matches Ok(n) ==> pos + n <= old(buf).len(),
{
    let name_bytes = name.as_bytes();
    if name_bytes.len() >= buf.len() - pos {
        assert(buf@ =~= old(buf)@.take(pos as int) + Seq::<u8>::empty() + old(buf)@.skip(pos as int));
        return Err(());
    }
    let n = copy_bytes(buf, pos, name_bytes);
    let ghost o1 = buf@;
    buf[pos + n] = 61u8;
    let ghost head = name.spec_bytes() + seq![61u8];
    assert(buf@ =~= old(buf)@.take(pos as int) + head + old(buf)@.skip(pos + head.len()));
    if text.len() > TEXT_BUFFER_LEN {
        return Err(());
    }
    let ghost o2 = buf@;
    let k = write_escaped_text(buf, pos + n + 1, text);
    proof {
        let w = write_escaped(text@, old(buf)@.len() - pos - head.len());
        assert(o2.take(pos + head.len()) =~= old(buf)@.take(pos as int) + head);
        assert(o2.skip(pos + head.len() + w.0.len()) =~= old(buf)@.skip(
            pos + head.len() + w.0.len(),
        ));
        assert(buf@ =~= old(buf)@.take(pos as int) + (head + w.0) + old(buf)@.skip(
            pos + head.len() + w.0.len(),
        ));
    }
    match k {
        Ok(k) => Ok(n + 1 + k),
        Err(()) => Err(()),
    }
}

/// Writes `name=`, then the escaped text of `v` and `&`, into `buf` at
/// `pos` while it fits.
fn write_value(buf: &mut [u8], pos: usize, name: &str, v: &FieldValue) -> (r: Result<usize, ()>)
    requires
        pos <= old(buf)@.len(),
    ensures
        final(buf)@.len() == old(buf)@.len(),
        ({
            let w = write_field_bytes(name.spec_bytes(), value_text(v@), old(buf)@.len() - pos);
            &&& pos + w.0.len() <= old(buf)@.len()
            &&& final(buf)@ == old(buf)@.take(pos as int) + w.0 + old(buf)@.skip(pos + w.0.len())
            &&& (r is Ok <==> w.1)
            &&& r matches Ok(n) ==> n == w.0.len()
        }),
        r matches Ok(n) ==> pos + n <= old(buf).len(),
{
    match v {
        FieldValue::Text(t) => write_field(buf, pos, name, t.as_bytes()),
        FieldValue::Flag(b) => {
            proof {
                reveal_strlit("true");
                reveal_strlit("false");
                lemma_ascii_literal("true");
                lemma_ascii_literal("false");
                assert("true".spec_bytes() =~= true_bytes());
                assert("false".spec_bytes() =~= false_bytes());
            }
            if *b {
                write_field(buf, pos, name, "true".as_bytes())
            } else {
                write_field(buf, pos, name, "false".as_bytes())
            }
        },
        FieldValue::Unsigned(n) => {
            proof {
                lemma_decimal_u64(*n);
            }
            let mut digits = [0u8; 24];
            let k = copy_decimal(&mut digits, 0, *n);
            let t = &digits.as_slice()[0..k];
            assert(t@ =~= decimal(*n as nat));
            write_field(buf, pos, name, t)
        },
        FieldValue::Signed(x) => {
            proof {
                let m: int = if *x < 0 { -(*x as int) } else { *x as int };
                lemma_decimal_u64(m as u64);
            }
            let mut digits = [0u8; 24];
            let k = copy_signed(&mut digits, 0, *x);
            let t = &digits.as_slice()[0..k];
            assert(t@ =~= signed_decimal(*x as int));
            write_field(buf, pos, name, t)
        },
    }
}

/// Serialises field values for storage, as the derived `to_bytes` does:
/// each field is written `name=text&`, with `&`, `=`, `+` and `%` in the
/// text percent-encoded and every other byte kept, so that reading it back
/// as a form gives the text unchanged; returns the number of bytes written.  A field that does
/// not fit, or whose text exceeds `TEXT_BUFFER_LEN` bytes, fails with
/// `InvalidValue` naming it; what fitted before stays written.
pub fn fields_to_bytes(buf: &mut [u8], fields: &[FieldSpec], values: &[FieldValue]) -> (r: Result<
    usize,
    ParseError,
>)
    requires
        fields@.len() == values@.len(),
    ensures
        final(buf)@.len() == old(buf)@.len(),
        ({
            let s = serialize_entries(field_entries(fields@, values@), old(buf)@.len() as int);
            &&& s.0.len() <= old(buf)@.len()
            &&& final(buf)@ == s.0 + old(buf)@.skip(s.0.len() as int)
            &&& match r {
                Ok(n) => s.1 is None && n == s.0.len(),
                Err(e) => s.1 matches Some(i) && 0 <= i < fields@.len() && e
                    == ParseError::InvalidValue(fields@[i].name),
            }
        }),
{
    let ghost entries = field_entries(fields@, values@);
    let ghost len: int = old(buf)@.len() as int;
    let mut pos: usize = 0;
    let mut i: usize = 0;
    assert(entries.skip(0) =~= entries);
    assert(buf@.subrange(0, 0) + serialize_entries(entries, len).0 =~= serialize_entries(
        entries,
        len,
    ).0);
    while i < fields.len()
        invariant
            fields@.len() == values@.len(),
            entries == field_entries(fields@, values@),
            len == old(buf)@.len(),
            buf@.len() == old(buf)@.len(),
            i <= fields@.len(),
            pos <= buf@.len(),
            serialize_entries(entries, len).0 == buf@.subrange(0, pos as int) + serialize_entries(
                entries.skip(i as int),
                len - pos,
            ).0,
            serialize_entries(entries, len).1 == match serialize_entries(
                entries.skip(i as int),
                len - pos,
            ).1 {
                Some(j) => Some(j + i),
                None => None,
            },
            buf@.skip(pos as int) == old(buf)@.skip(pos as int),
        decreases fields@.len() - i,
    {
        let ghost rest = entries.skip(i as int);
        assert(rest[0] == entries[i as int]);
        assert(rest.drop_first() =~= entries.skip(i + 1));
        let ghost before = buf@;
        let written = write_value(buf, pos, fields[i].name, &values[i]);
        let ghost w = write_field_bytes(entries[i as int].0, entries[i as int].1, len - pos);
        proof {
            assert(buf@.subrange(0, pos + w.0.len()) =~= before.subrange(0, pos as int) + w.0);
            assert(buf@.skip(pos + w.0.len()) =~= old(buf)@.skip(pos + w.0.len())) by {
                assert(before.skip(pos + w.0.len()) =~= before.skip(pos as int).skip(
                    w.0.len() as int,
                ));
                assert(old(buf)@.skip(pos + w.0.len()) =~= old(buf)@.skip(pos as int).skip(
                    w.0.len() as int,
                ));
            }
        }
        match written {
            Ok(n) => {
                pos = pos + n;
            },
            Err(()) => {
                proof {
                    let s = serialize_entries(entries, len);
                    assert(s.0 =~= buf@.subrange(0, pos + w.0.len()));
                    assert(buf@ =~= s.0 + old(buf)@.skip(s.0.len() as int));
                }
                return Err(ParseError::InvalidValue(fields[i].name));
            },
        }
        i += 1;
    }
    proof {
        assert(entries.skip(i as int) =~= Seq::<(Seq<u8>, Seq<u8>)>::empty());
        let s = serialize_entries(entries, len);
        assert(s.0 =~= buf@.subrange(0, pos as int));
        assert(buf@ =~= s.0 + old(buf)@.skip(pos as int));
    }
    Ok(pos)
}


// ── Round trip of stored fields ────────────────────────────────────────────

/// A field as stored in a complete body: `name=escaped-text&`.
pub open spec fn stored_field(e: (Seq<u8>, Seq<u8>)) -> Seq<u8> {
    e.0 + seq![61u8] + escape_text(e.1) + seq![38u8]
}

/// All fields as stored in a complete body.
pub open spec fn stored_body(es: Seq<(Seq<u8>, Seq<u8>)>) -> Seq<u8>
    decreases es.len(),
{
    if es.len() == 0 {
        seq![]
    } else {
        stored_field(es[0]) + stored_body(es.drop_first())
    }
}

/// The raw form pair a stored field reads back as.
pub open spec fn stored_pair(e: (Seq<u8>, Seq<u8>)) -> (Seq<u8>, Seq<u8>) {
    (e.0, escape_text(e.1))
}

/// The views of the values, the first `k` of them in their slots.
pub open spec fn prefix_slots(views: Seq<FieldView>, k: int) -> Seq<Option<FieldView>> {
    Seq::new(views.len(), |j: int| if j < k { Some(views[j]) } else { None })
}

/// A value fits its field: text within the capacity of a text field, a
/// boolean for a flag, an integer within the range of an integer field.
pub open spec fn value_fits_kind(kind: FieldKind, v: FieldView) -> bool {
    match (kind, v) {
        (FieldKind::Text(cap), FieldView::Text(s)) => encode_utf8(s).len() <= cap,
        (FieldKind::Flag, FieldView::Flag(_)) => true,
        (FieldKind::Unsigned(max), FieldView::Unsigned(n)) => n <= max,
        (FieldKind::Signed(min, max), FieldView::Signed(v)) => min <= v <= max,
        _ => false,
    }
}

/// What stored fields need to read back unchanged: one value per field,
/// distinct names holding neither `&` nor `=`, and each value fitting its
/// field.
pub open spec fn fields_round_trip(fields: Seq<FieldSpec>, values: Seq<FieldValue>) -> bool {
    &&& fields.len() == values.len()
    &&& forall|i: int, j: int|
        0 <= i < j < fields.len() ==> #[trigger] fields[i].name.spec_bytes()
            != #[trigger] fields[j].name.spec_bytes()
    &&& forall|i: int| 0 <= i < fields.len() ==> no_separators(#[trigger] fields[i].name.spec_bytes())
    &&& forall|i: int|
        0 <= i < fields.len() ==> value_fits_kind(fields[i].kind, #[trigger] values[i]@)
}

proof fn lemma_write_escaped_complete(t: Seq<u8>, room: int)
    ensures
        write_escaped(t, room).1 ==> write_escaped(t, room).0 == escape_text(t) + seq![38u8],
    decreases t.len(),
{
    if t.len() > 0 && escape_byte(t[0]).len() <= room {
        lemma_write_escaped_complete(t.drop_first(), room - escape_byte(t[0]).len());
        assert(escape_byte(t[0]) + (escape_text(t.drop_first()) + seq![38u8]) =~= escape_text(t)
            + seq![38u8]);
    } else if t.len() == 0 {
        assert(escape_text(t) + seq![38u8] =~= seq![38u8]);
    }
}

proof fn lemma_serialize_complete(es: Seq<(Seq<u8>, Seq<u8>)>, room: int)
    requires
        serialize_entries(es, room).1 is None,
    ensures
        serialize_entries(es, room).0 == stored_body(es),
        forall|i: int| 0 <= i < es.len() ==> (#[trigger] es[i]).1.len() <= TEXT_BUFFER_LEN,
    decreases es.len(),
{
    if es.len() > 0 {
        let first = write_field_bytes(es[0].0, es[0].1, room);
        lemma_write_escaped_complete(es[0].1, room - (es[0].0.len() + 1));
        assert(first.0 =~= stored_field(es[0]));
        lemma_serialize_complete(es.drop_first(), room - first.0.len());
        assert forall|i: int| 0 <= i < es.len() implies (#[trigger] es[i]).1.len()
            <= TEXT_BUFFER_LEN by {
            if i > 0 {
                assert(es[i] == es.drop_first()[i - 1]);
            }
        }
    }
}

proof fn lemma_escape_text_no_separators(t: Seq<u8>)
    ensures
        no_separators(escape_text(t)),
    decreases t.len(),
{
    if t.len() > 0 {
        lemma_escape_text_no_separators(t.drop_first());
        let a = escape_byte(t[0]);
        let b = escape_text(t.drop_first());
        assert forall|i: int| 0 <= i < (a + b).len() implies #[trigger] (a + b)[i] != 38 && (a
            + b)[i] != 61 by {
            if i >= a.len() {
                assert((a + b)[i] == b[i - a.len()]);
            }
        }
    }
}

proof fn lemma_escape_text_concat(a: Seq<u8>, b: Seq<u8>)
    ensures
        escape_text(a + b) == escape_text(a) + escape_text(b),
    decreases a.len(),
{
    if a.len() == 0 {
        assert(a + b =~= b);
    } else {
        lemma_escape_text_concat(a.drop_first(), b);
        assert((a + b).drop_first() =~= a.drop_first() + b);
        assert((a + b)[0] == a[0]);
    }
}

proof fn lemma_escape_text_identity(t: Seq<u8>)
    requires
        forall|k: int| 0 <= k < t.len() ==> !is_form_special(#[trigger] t[k]),
    ensures
        escape_text(t) == t,
    decreases t.len(),
{
    if t.len() > 0 {
        lemma_escape_text_identity(t.drop_first());
        assert(seq![t[0]] + t.drop_first() =~= t);
    }
}

/// Escaping keeps text valid UTF-8: it only replaces ASCII bytes by ASCII
/// bytes.
proof fn lemma_escape_text_valid(t: Seq<u8>)
    requires
        valid_utf8(t),
    ensures
        valid_utf8(escape_text(t)),
    decreases t.len(),
{
    if t.len() > 0 {
        let w = length_of_first_scalar(t);
        let head = t.subrange(0, w);
        let tail = t.subrange(w, t.len() as int);
        assert(t =~= head + tail);
        lemma_escape_text_concat(head, tail);
        lemma_escape_text_valid(tail);
        if w == 1 {
            assert(head =~= seq![t[0]]);
            assert(head[0] == t[0]);
            assert(head.drop_first() =~= Seq::<u8>::empty());
            assert(escape_text(head) =~= escape_byte(t[0]) + escape_text(Seq::<u8>::empty()));
            assert(escape_text(Seq::<u8>::empty()) == Seq::<u8>::empty());
            assert(all_ascii(escape_text(head)));
            lemma_ascii_valid_utf8(escape_text(head));
        } else {
            assert forall|k: int| 0 <= k < head.len() implies !is_form_special(#[trigger] head[k])
                by {
                assert(head[k] >= 128);
            }
            lemma_escape_text_identity(head);
            assert(valid_utf8(head)) by {
                reveal_with_fuel(valid_utf8, 2);
                assert(head.subrange(w, head.len() as int) =~= Seq::<u8>::empty());
            }
        }
        valid_utf8_concat(escape_text(head), escape_text(tail));
    }
}

proof fn lemma_stored_body_valid(es: Seq<(Seq<u8>, Seq<u8>)>)
    requires
        forall|i: int| 0 <= i < es.len() ==> valid_utf8((#[trigger] es[i]).0) && valid_utf8(es[i].1),
    ensures
        valid_utf8(stored_body(es)),
    decreases es.len(),
{
    if es.len() > 0 {
        assert(valid_utf8(es[0].0) && valid_utf8(es[0].1));
        lemma_stored_body_valid(es.drop_first());
        lemma_escape_text_valid(es[0].1);
        lemma_ascii_valid_utf8(seq![61u8]);
        lemma_ascii_valid_utf8(seq![38u8]);
        valid_utf8_concat(es[0].0, seq![61u8]);
        valid_utf8_concat(es[0].0 + seq![61u8], escape_text(es[0].1));
        valid_utf8_concat(es[0].0 + seq![61u8] + escape_text(es[0].1), seq![38u8]);
        valid_utf8_concat(stored_field(es[0]), stored_body(es.drop_first()));
    }
}

proof fn lemma_stored_body_pairs(es: Seq<(Seq<u8>, Seq<u8>)>)
    requires
        forall|i: int| 0 <= i < es.len() ==> no_separators((#[trigger] es[i]).0),
    ensures
        form_pairs(stored_body(es)).len() == es.len(),
        forall|i: int|
            0 <= i < es.len() ==> #[trigger] form_pairs(stored_body(es))[i] == stored_pair(es[i]),
    decreases es.len(),
{
    if es.len() == 0 {
        assert(next_pair(Seq::<u8>::empty()) is None);
    } else {
        let rest = es.drop_first();
        assert forall|i: int| 0 <= i < rest.len() implies no_separators((#[trigger] rest[i]).0) by {
            assert(rest[i] == es[i + 1]);
        }
        lemma_stored_body_pairs(rest);
        assert(no_separators(es[0].0));
        lemma_escape_text_no_separators(es[0].1);
        let x = stored_body(rest);
        lemma_next_pair_split(es[0].0, escape_text(es[0].1), seq![38u8] + x);
        assert(stored_body(es) =~= es[0].0 + seq![61u8] + escape_text(es[0].1) + (seq![38u8] + x));
        lemma_form_pairs_skip_separator(x);
        let fp = form_pairs(stored_body(es));
        assert(fp == seq![stored_pair(es[0])] + form_pairs(x));
        assert forall|i: int| 0 <= i < es.len() implies #[trigger] fp[i] == stored_pair(es[i]) by {
            if i > 0 {
                assert(fp[i] == form_pairs(x)[i - 1]);
                assert(rest[i - 1] == es[i]);
            }
        }
    }
}

/// Reading an escaped text back as a form value gives the text.
proof fn lemma_decode_escaped(t: Seq<u8>)
    ensures
        form_decode(escape_text(t)) == Some(t),
    decreases t.len(),
{
    if t.len() > 0 {
        let rest = t.drop_first();
        lemma_decode_escaped(rest);
        let b = t[0];
        let c = escape_byte(b);
        let e = c + escape_text(rest);
        assert(escape_text(t) == e);
        if is_form_special(b) {
            assert(e.skip(3) =~= escape_text(rest));
            lemma_hex_round_trip(b / 16);
            lemma_hex_round_trip(b % 16);
            assert(e[0] == 37 && e[1] == hex_char(b / 16) && e[2] == hex_char(b % 16));
        } else {
            assert(e.drop_first() =~= escape_text(rest));
        }
        assert(seq![b] + rest =~= t);
    }
}

proof fn lemma_field_index_of_name(fields: Seq<FieldSpec>, k: int)
    requires
        0 <= k < fields.len(),
        forall|i: int, j: int|
            0 <= i < j < fields.len() ==> #[trigger] fields[i].name.spec_bytes()
                != #[trigger] fields[j].name.spec_bytes(),
    ensures
        field_index(fields, fields[k].name.spec_bytes()) == Some(k),
    decreases k,
{
    if k > 0 {
        let rest = fields.drop_first();
        assert(fields[0].name.spec_bytes() != fields[k].name.spec_bytes());
        assert forall|i: int, j: int| 0 <= i < j < rest.len() implies #[trigger] rest[i].name.spec_bytes()
            != #[trigger] rest[j].name.spec_bytes() by {
            assert(rest[i] == fields[i + 1] && rest[j] == fields[j + 1]);
        }
        assert(rest[k - 1] == fields[k]);
        lemma_field_index_of_name(rest, k - 1);
    }
}

proof fn lemma_fill_stored(
    fields: Seq<FieldSpec>,
    values: Seq<FieldValue>,
    pairs: Seq<(Seq<u8>, Seq<u8>)>,
    k: int,
)
    requires
        fields_round_trip(fields, values),
        forall|i: int|
            0 <= i < fields.len() ==> value_text(#[trigger] values[i]@).len() <= TEXT_BUFFER_LEN,
        pairs.len() == fields.len(),
        forall|i: int|
            0 <= i < fields.len() ==> #[trigger] pairs[i] == stored_pair(
                field_entries(fields, values)[i],
            ),
        0 <= k <= fields.len(),
    ensures
        fill_fields(fields, pairs.skip(k), prefix_slots(value_views(values), k)) == Ok::<
            Seq<Option<FieldView>>,
            ParseError,
        >(prefix_slots(value_views(values), fields.len() as int)),
    decreases fields.len() - k,
{
    let views = value_views(values);
    if k == fields.len() {
        assert(pairs.skip(k).len() == 0);
        assert(prefix_slots(views, k) =~= prefix_slots(views, fields.len() as int));
    } else {
        lemma_fill_stored(fields, values, pairs, k + 1);
        let ps = pairs.skip(k);
        assert(ps[0] == pairs[k]);
        assert(ps.drop_first() =~= pairs.skip(k + 1));
        let e = field_entries(fields, values)[k];
        let t = value_text(values[k]@);
        assert(e == (fields[k].name.spec_bytes(), t));
        lemma_field_index_of_name(fields, k);
        let slots = prefix_slots(views, k);
        assert(slots[k] is None);
        lemma_decode_escaped(t);
        assert(t.len() <= TEXT_BUFFER_LEN);
        assert(value_fits_kind(fields[k].kind, values[k]@));
        assert(views[k] == values[k]@);
        match values[k]@ {
            FieldView::Text(s) => {
                encode_utf8_valid_utf8(s);
                encode_utf8_decode_utf8(s);
            },
            FieldView::Flag(b) => {
                assert(all_ascii(true_bytes()));
                assert(all_ascii(false_bytes()));
                lemma_ascii_valid_utf8(true_bytes());
                lemma_ascii_valid_utf8(false_bytes());
                assert(true_bytes() != false_bytes()) by {
                    assert(true_bytes().len() != false_bytes().len());
                }
            },
            FieldView::Unsigned(n) => {
                lemma_integer_text(values[k]@);
                lemma_unsigned_value_decimal(n as nat);
            },
            FieldView::Signed(v) => {
                lemma_integer_text(values[k]@);
                lemma_signed_value_decimal(v as int);
            },
        }
        assert(parse_value(fields[k].kind, t) == Some(views[k]));
        assert(slots.update(k, Some(views[k])) =~= prefix_slots(views, k + 1));
    }
}

/// Round trip through storage: when every field fitted, reading the
/// stored bytes back as a form gives the stored values, provided the
/// fields and values meet `fields_round_trip`.
pub proof fn lemma_stored_fields_read_back(fields: Seq<FieldSpec>, values: Seq<FieldValue>, room: int)
    requires
        fields_round_trip(fields, values),
        serialize_entries(field_entries(fields, values), room).1 is None,
    ensures
        spec_fields_from_form(serialize_entries(field_entries(fields, values), room).0, fields)
            == Ok::<Seq<FieldView>, ParseError>(value_views(values)),
{
    let es = field_entries(fields, values);
    lemma_serialize_complete(es, room);
    assert forall|i: int| 0 <= i < fields.len() implies value_text(#[trigger] values[i]@).len()
        <= TEXT_BUFFER_LEN by {
        assert(es[i].1 == value_text(values[i]@));
    }
    let body = stored_body(es);
    assert forall|i: int| 0 <= i < es.len() implies no_separators((#[trigger] es[i]).0) by {
        assert(no_separators(fields[i].name.spec_bytes()));
    }
    lemma_stored_body_pairs(es);
    assert forall|i: int| 0 <= i < es.len() implies valid_utf8((#[trigger] es[i]).0) && valid_utf8(
        es[i].1,
    ) by {
        encode_utf8_valid_utf8(fields[i].name@);
        assert(value_fits_kind(fields[i].kind, values[i]@));
        match values[i]@ {
            FieldView::Text(s) => {
                encode_utf8_valid_utf8(s);
            },
            FieldView::Flag(b) => {
                assert(all_ascii(true_bytes()));
                assert(all_ascii(false_bytes()));
                lemma_ascii_valid_utf8(true_bytes());
                lemma_ascii_valid_utf8(false_bytes());
            },
            _ => {
                lemma_integer_text(values[i]@);
            },
        }
    }
    lemma_stored_body_valid(es);
    let pairs = form_pairs(body);
    lemma_fill_stored(fields, values, pairs, 0);
    let views = value_views(values);
    assert(pairs.skip(0) =~= pairs);
    assert(prefix_slots(views, 0) =~= empty_slots(fields.len()));
    let full = prefix_slots(views, fields.len() as int);
    assert(first_missing(full) is None) by {
        lemma_first_missing_full(full);
    }
    assert(slot_values(full) =~= views);
}

/// The text of an integer value is ASCII, hence valid UTF-8.
proof fn lemma_integer_text(v: FieldView)
    requires
        v is Unsigned || v is Signed,
    ensures
        all_ascii(value_text(v)),
        valid_utf8(value_text(v)),
{
    let (neg, m): (bool, nat) = match v {
        FieldView::Unsigned(n) => (false, n as nat),
        FieldView::Signed(x) => (x < 0, if x < 0 { (-x) as nat } else { x as nat }),
        _ => (false, 0),
    };
    lemma_decimal_digits(m);
    let d = decimal(m);
    assert(all_ascii(d)) by {
        assert forall|i: int| 0 <= i < d.len() implies #[trigger] d[i] < 128 by {
            assert(is_digit(d[i]));
        }
    }
    if neg {
        let t = seq![45u8] + d;
        assert(value_text(v) == t);
        assert forall|i: int| 0 <= i < t.len() implies #[trigger] t[i] < 128 by {
            if i > 0 {
                assert(t[i] == d[i - 1]);
            }
        }
    } else {
        assert(value_text(v) == d);
    }
    lemma_ascii_valid_utf8(value_text(v));
}

proof fn lemma_first_missing_full(slots: Seq<Option<FieldView>>)
    requires
        forall|i: int| 0 <= i < slots.len() ==> #[trigger] slots[i] is Some,
    ensures
        first_missing(slots) is None,
    decreases slots.len(),
{
    if slots.len() > 0 {
        let rest = slots.drop_first();
        assert forall|i: int| 0 <= i < rest.len() implies #[trigger] rest[i] is Some by {
            assert(rest[i] == slots[i + 1]);
        }
        lemma_first_missing_full(rest);
    }
}


proof fn lemma_write_escaped_fits(t: Seq<u8>, room: int)
    requires
        room >= escape_text(t).len() + 1,
    ensures
        write_escaped(t, room) == (escape_text(t) + seq![38u8], true),
    decreases t.len(),
{
    if t.len() == 0 {
        assert(escape_text(t) + seq![38u8] =~= seq![38u8]);
    } else {
        let c = escape_byte(t[0]);
        assert(escape_text(t) == c + escape_text(t.drop_first()));
        lemma_write_escaped_fits(t.drop_first(), room - c.len());
        assert(c + (escape_text(t.drop_first()) + seq![38u8]) =~= escape_text(t) + seq![38u8]);
    }
}

proof fn lemma_serialize_fits(es: Seq<(Seq<u8>, Seq<u8>)>, room: int)
    requires
        forall|i: int| 0 <= i < es.len() ==> (#[trigger] es[i]).1.len() <= TEXT_BUFFER_LEN,
        stored_body(es).len() <= room,
    ensures
        serialize_entries(es, room) == (stored_body(es), None::<int>),
    decreases es.len(),
{
    if es.len() > 0 {
        let rest = es.drop_first();
        assert forall|i: int| 0 <= i < rest.len() implies (#[trigger] rest[i]).1.len()
            <= TEXT_BUFFER_LEN by {
            assert(rest[i] == es[i + 1]);
        }
        assert(es[0].1.len() <= TEXT_BUFFER_LEN);
        let head = es[0].0 + seq![61u8];
        lemma_write_escaped_fits(es[0].1, room - head.len());
        let first = write_field_bytes(es[0].0, es[0].1, room);
        assert(first.0 =~= stored_field(es[0]));
        lemma_serialize_fits(rest, room - first.0.len());
    }
}

/// Storing succeeds whenever it can: when every value text is at most
/// `TEXT_BUFFER_LEN` bytes and the whole stored body (each field as
/// `name=escaped-text&`, an empty text as `name=&`) fits in `room` bytes,
/// all of it is written and no field is reported.
pub proof fn lemma_fields_to_bytes_fits(fields: Seq<FieldSpec>, values: Seq<FieldValue>, room: int)
    requires
        fields.len() == values.len(),
        forall|i: int|
            0 <= i < fields.len() ==> value_text(#[trigger] values[i]@).len() <= TEXT_BUFFER_LEN,
        stored_body(field_entries(fields, values)).len() <= room,
    ensures
        serialize_entries(field_entries(fields, values), room) == (
            stored_body(field_entries(fields, values)),
            None::<int>,
        ),
{
    let es = field_entries(fields, values);
    assert forall|i: int| 0 <= i < es.len() implies (#[trigger] es[i]).1.len()
        <= TEXT_BUFFER_LEN by {
        assert(es[i].1 == value_text(values[i]@));
    }
    lemma_serialize_fits(es, room);
}

/// An empty text is stored as `name=&`.
pub proof fn lemma_empty_text_stored(name: Seq<u8>)
    ensures
        stored_field((name, Seq::<u8>::empty())) == name + seq![61u8, 38u8],
{
    assert(escape_text(Seq::<u8>::empty()) == Seq::<u8>::empty());
    assert(name + seq![61u8] + Seq::<u8>::empty() + seq![38u8] =~= name + seq![61u8, 38u8]);
}

} // verus!
