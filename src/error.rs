use vstd::prelude::*;

verus! {

/// Why encoding failed.
#[derive(Debug, Clone, PartialEq, Eq)]
pub enum SerError {
    /// A message from a caller's own mapping code.
    Message(String),
    /// Floating-point numbers have no bencode form.
    FloatingPointNotSupported,
    /// The output sink failed; the text is its report.
    Io(String),
    /// A dictionary key was neither text nor a byte string.
    DictionaryKeyMustBeString,
    /// An absent optional value was met while absent values are refused.
    NoneNotSupported,
    /// A boolean was met while booleans are not enabled.
    BoolNotEnabled,
    /// Text output was asked for, but the bytes are not valid UTF-8.
    FromUtf8Error,
}

/// Why decoding failed.
#[derive(Debug, Clone, PartialEq, Eq)]
pub enum DeError {
    /// A message from a caller's own mapping code.
    Message(String),
    /// The input ended before the value did.
    UnexpectedEof,
    /// The byte that was found, and the one that was expected, if any.
    SyntaxError(u8, Option<u8>),
    /// The digits of an integer or of a length could not be read.
    ParseIntegerError,
    /// A text field is not valid UTF-8.
    Utf8Error,
    /// A byte string was required here (a dictionary key, a variant name).
    ExpectedString,
    /// A variant that carries a value must be framed as a dictionary.
    ExpectedDictionary,
    /// A variant's dictionary holds more than its single entry.
    ExpectedEndOfDictionary,
    /// The name read is not the name of the unit struct.
    ExpectedUnitStructName,
    /// An integer was required here.
    ExpectedInteger,
    /// A character must be a byte string of one code point, at most 4 bytes.
    ExpectedCharString,
    /// A boolean must be the integer `0` or `1`.
    ExpectedBoolean,
    /// Floating-point numbers have no bencode form.
    FloatingPointNotSupported,
    /// The name read is none of the enum's variants.
    UnknownVariant,
    /// The value is nested deeper than the decoder's limit.
    DepthLimitExceeded,
}

impl SerError {
    /// A one-line description of the error.
    pub fn description(&self) -> (r: &str)
        ensures
            self is Message ==> r@ == self->Message_0@,
            self is Io ==> r@ == self->Io_0@,
    {
        match self {
            SerError::Message(s) => s.as_str(),
            SerError::Io(s) => s.as_str(),
            SerError::DictionaryKeyMustBeString => "only byte strings allowed to be keys in dictionary",
            SerError::FloatingPointNotSupported => "floating point numbers are not supported",
            SerError::NoneNotSupported => "absent optional values are not supported",
            SerError::BoolNotEnabled => "booleans are not enabled",
            SerError::FromUtf8Error => "the encoded bytes are not valid UTF-8",
        }
    }
}

impl DeError {
    /// A one-line description of the error.
    pub fn description(&self) -> (r: &str)
        ensures
            self is Message ==> r@ == self->Message_0@,
    {
        match self {
            DeError::Message(s) => s.as_str(),
            DeError::UnexpectedEof => "unexpected EOF",
            DeError::SyntaxError(_, _) => "syntax error",
            DeError::ParseIntegerError => "invalid integer",
            DeError::Utf8Error => "invalid UTF-8",
            DeError::ExpectedString => "expected byte string",
            DeError::ExpectedDictionary => "expected dictionary",
            DeError::ExpectedEndOfDictionary => "expected end of dictionary",
            DeError::ExpectedUnitStructName => "expected name of the unit struct",
            DeError::ExpectedInteger => "expected integer",
            DeError::ExpectedCharString => "expected byte string with length at most 4 bytes",
            DeError::ExpectedBoolean => "expected integer between `0` to `1`",
            DeError::FloatingPointNotSupported => "floating point numbers are not supported",
            DeError::UnknownVariant => "unknown variant",
            DeError::DepthLimitExceeded => "input too deeply nested",
        }
    }
}

} // verus!
