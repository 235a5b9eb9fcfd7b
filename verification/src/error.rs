use vstd::prelude::*;

verus! {

/// Errors raised while decoding a form body into configuration fields.
#[derive(Debug, Clone, PartialEq, Eq)]
pub enum ParseError {
    /// The named field did not appear in the form body.
    MissingField(&'static str),
    /// The named field was present but its value could not be parsed.
    InvalidValue(&'static str),
    /// A value in the form body is not valid UTF-8.
    InvalidEncoding,
    /// Percent-encoding is malformed (truncated `%`, non-hex digits, etc.),
    /// or an output buffer was too small.
    MalformedEncoding,
}

/// The short description that `as_str` gives for each variant.
pub open spec fn error_description(e: ParseError) -> Seq<char> {
    match e {
        ParseError::MissingField(_) => "missing field"@,
        ParseError::InvalidValue(_) => "invalid value"@,
        ParseError::InvalidEncoding => "invalid encoding"@,
        ParseError::MalformedEncoding => "malformed encoding"@,
    }
}

impl ParseError {
    /// Returns a short, human-readable description of the error variant,
    /// without the field name that some variants carry.
    pub fn as_str(&self) -> (r: &'static str)
        ensures
            r@ == error_description(*self),
    {
        match self {
            ParseError::MissingField(_) => "missing field",
            ParseError::InvalidValue(_) => "invalid value",
            ParseError::InvalidEncoding => "invalid encoding",
            ParseError::MalformedEncoding => "malformed encoding",
        }
    }
}

} // verus!
