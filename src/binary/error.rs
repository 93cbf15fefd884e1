use vstd::prelude::*;
use vstd::string::StringSliceAdditionalSpecFns;
use crate::message::{lossy_string, push_usize, usize_text};
use crate::text::string_writer::append;

verus! {

/// A high-level description of a binary token.
#[derive(Debug, Clone, Copy, PartialEq, Eq, Structural)]
pub enum TokenType {
    /// An integer.
    Int,
    /// A float.
    Float,
    /// A string.
    String,
    /// A list.
    List,
    /// The end of the data.
    Eof,
    /// Any token.
    Any,
}

/// The detailed cause of an error.
#[derive(Debug, Clone)]
#[allow(inconsistent_fields)]
pub enum ErrorCode {
    /// A custom error message, raised by the caller of the codec.
    Custom(String),
    /// The data type is not supported by the serializer or deserializer.
    UnsupportedType,
    /// The deserialization finished, but some data remained.
    TrailingData,
    /// A token was expected, but an incompatible token was found.
    ExpectedToken { expected: TokenType, found: TokenType },
    /// A list of a certain length was expected.
    ExpectedListOfLength { expected_min: usize, expected_max: usize, found: usize },
    /// A key-value pair was expected, but only a key was found.
    ExpectedKeyValuePair,
    /// A certain number of bytes was expected, but fewer were available.
    InsufficientData { expected: usize, available: usize },
    /// The data contained an invalid token type.
    InvalidTokenType,
    /// The data contained an invalid list length.
    InvalidListLength,
    /// The data contained an invalid string length.
    InvalidStringLength,
    /// A sequence is too long to serialize.
    SequenceTooLong,
    /// A sequence must have a length to be serialized.
    SequenceMustHaveLength,
    /// A string is longer than 255 bytes.
    StringTooLong,
    /// A string contains a null byte.
    StringContainsNull,
    /// A string contains a quote byte.
    StringContainsQuote,
    /// A string contains a byte with the high bit set.
    StringContainsInvalidByte,
}

/// An error of the binary codec: its cause, and the byte offset in the data
/// where it arose, when known.
#[derive(Debug, Clone)]
pub struct Error {
    pub code: ErrorCode,
    pub offset: Option<usize>,
}

impl Error {
    /// Construct a new error.
    pub fn new(code: ErrorCode, offset: Option<usize>) -> (r: Self)
        ensures
            r.code == code,
            r.offset == offset,
    {
        Error { code, offset }
    }

    /// The error code.
    pub fn code(&self) -> (r: &ErrorCode)
        ensures
            *r == self.code,
    {
        &self.code
    }

    /// The error location: for deserialization, the offset in the data; for
    /// serialization, `None`.
    pub fn offset(&self) -> (r: Option<usize>)
        ensures
            r == self.offset,
    {
        self.offset
    }

    /// Attach an offset, unless the error already has one.
    pub fn attach_offset(self, offset: usize) -> (r: Self)
        ensures
            r.code == self.code,
            r.offset == (if self.offset is Some { self.offset } else { Some(offset) }),
    {
        let mut e = self;
        if e.offset.is_none() {
            e.offset = Some(offset);
        }
        e
    }

    /// A custom error without location.
    pub fn custom(msg: String) -> (r: Self)
        ensures
            r.code == ErrorCode::Custom(msg),
            r.offset is None,
    {
        Error { code: ErrorCode::Custom(msg), offset: None }
    }
}

impl TokenType {
    /// How the token type reads in a message.
    pub open spec fn name(self) -> Seq<u8> {
        match self {
            TokenType::Int => "integer".spec_bytes(),
            TokenType::Float => "float".spec_bytes(),
            TokenType::String => "string".spec_bytes(),
            TokenType::List => "list".spec_bytes(),
            TokenType::Eof => "end of file".spec_bytes(),
            TokenType::Any => "anything".spec_bytes(),
        }
    }

    fn push_name(self, out: &mut Vec<u8>)
        ensures
            final(out)@ == old(out)@ + self.name(),
    {
        let s = match self {
            TokenType::Int => "integer",
            TokenType::Float => "float",
            TokenType::String => "string",
            TokenType::List => "list",
            TokenType::Eof => "end of file",
            TokenType::Any => "anything",
        };
        append(out, s.as_bytes());
    }
}

impl ErrorCode {
    /// How the error reads in a message.
    pub open spec fn text(&self) -> Seq<u8> {
        match self {
            ErrorCode::Custom(m) => vstd::utf8::encode_utf8(m@),
            ErrorCode::UnsupportedType => "unsupported type".spec_bytes(),
            ErrorCode::TrailingData => "trailing data".spec_bytes(),
            ErrorCode::ExpectedToken { expected, found } => "expected ".spec_bytes() + expected.name()
                + ", found ".spec_bytes() + found.name(),
            ErrorCode::ExpectedListOfLength { expected_min, expected_max, found } => "expected list length ".spec_bytes()
                + usize_text(*expected_min as nat) + "-".spec_bytes() + usize_text(*expected_max as nat) + ", found ".spec_bytes()
                + usize_text(*found as nat),
            ErrorCode::ExpectedKeyValuePair => "expected key-value pair".spec_bytes(),
            ErrorCode::InsufficientData { expected, available } => "expected: ".spec_bytes() + usize_text(*expected as nat)
                + " bytes, available: ".spec_bytes() + usize_text(*available as nat) + " bytes".spec_bytes(),
            ErrorCode::InvalidTokenType => "invalid token type".spec_bytes(),
            ErrorCode::InvalidListLength => "invalid list length".spec_bytes(),
            ErrorCode::InvalidStringLength => "invalid string length".spec_bytes(),
            ErrorCode::SequenceTooLong => "sequence is too long".spec_bytes(),
            ErrorCode::SequenceMustHaveLength => "sequence must have a known length".spec_bytes(),
            ErrorCode::StringTooLong => "string is too long".spec_bytes(),
            ErrorCode::StringContainsNull => "string contains a null".spec_bytes(),
            ErrorCode::StringContainsQuote => "string contains a quote".spec_bytes(),
            ErrorCode::StringContainsInvalidByte => "string contains a non-ASCII byte".spec_bytes(),
        }
    }

    /// Append how the error reads.
    pub fn push_text(&self, out: &mut Vec<u8>)
        ensures
            final(out)@ == old(out)@ + self.text(),
    {
        match self {
            ErrorCode::Custom(m) => append(out, m.as_str().as_bytes()),
            ErrorCode::ExpectedToken { expected, found } => {
                append(out, "expected ".as_bytes());
                expected.push_name(out);
                append(out, ", found ".as_bytes());
                found.push_name(out);
                assert(final(out)@ =~= old(out)@ + self.text());
            },
            ErrorCode::ExpectedListOfLength { expected_min, expected_max, found } => {
                append(out, "expected list length ".as_bytes());
                push_usize(out, *expected_min);
                append(out, "-".as_bytes());
                push_usize(out, *expected_max);
                append(out, ", found ".as_bytes());
                push_usize(out, *found);
                assert(final(out)@ =~= old(out)@ + self.text());
            },
            ErrorCode::InsufficientData { expected, available } => {
                append(out, "expected: ".as_bytes());
                push_usize(out, *expected);
                append(out, " bytes, available: ".as_bytes());
                push_usize(out, *available);
                append(out, " bytes".as_bytes());
                assert(final(out)@ =~= old(out)@ + self.text());
            },
            ErrorCode::UnsupportedType => append(out, "unsupported type".as_bytes()),
            ErrorCode::TrailingData => append(out, "trailing data".as_bytes()),
            ErrorCode::ExpectedKeyValuePair => append(out, "expected key-value pair".as_bytes()),
            ErrorCode::InvalidTokenType => append(out, "invalid token type".as_bytes()),
            ErrorCode::InvalidListLength => append(out, "invalid list length".as_bytes()),
            ErrorCode::InvalidStringLength => append(out, "invalid string length".as_bytes()),
            ErrorCode::SequenceTooLong => append(out, "sequence is too long".as_bytes()),
            ErrorCode::SequenceMustHaveLength => append(out, "sequence must have a known length".as_bytes()),
            ErrorCode::StringTooLong => append(out, "string is too long".as_bytes()),
            ErrorCode::StringContainsNull => append(out, "string contains a null".as_bytes()),
            ErrorCode::StringContainsQuote => append(out, "string contains a quote".as_bytes()),
            ErrorCode::StringContainsInvalidByte => append(out, "string contains a non-ASCII byte".as_bytes()),
        }
    }
}

impl Error {
    /// The bytes of the error's message: how its code reads, then its
    /// offset when it has one.
    pub open spec fn text(&self) -> Seq<u8> {
        match self.offset {
            Some(o) => self.code.text() + " (at offset: ".spec_bytes() + usize_text(o as nat) + ")".spec_bytes(),
            None => self.code.text(),
        }
    }

    /// The error's message: how its code reads, then ` (at offset: N)` when
    /// it has an offset.
    pub fn message(&self) -> (r: String)
        ensures
            vstd::utf8::valid_utf8(self.text()) ==> r@ == vstd::utf8::decode_utf8(self.text()),
    {
        let mut out: Vec<u8> = Vec::new();
        self.code.push_text(&mut out);
        if let Some(o) = self.offset {
            append(&mut out, " (at offset: ".as_bytes());
            push_usize(&mut out, o);
            append(&mut out, ")".as_bytes());
        }
        assert(out@ =~= self.text());
        lossy_string(out.as_slice())
    }
}

} // verus!
