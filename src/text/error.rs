use vstd::prelude::*;
use vstd::string::StringSliceAdditionalSpecFns;
use crate::message::{lossy_string, push_usize, usize_text};
use crate::text::string_writer::append;

verus! {

/// A high-level description of a text token.
#[derive(Debug, Clone, Copy, PartialEq, Eq, Structural)]
pub enum TokenType {
    /// Text representing a scalar (int, float, unquoted, or quoted string).
    Text,
    /// The start of a list.
    ListStart,
    /// The end of a list.
    ListEnd,
    /// The end of the text.
    Eof,
    /// Text or the start of a list.
    TextOrListStart,
}

/// Why a decimal integer could not be read.
#[derive(Debug, Clone, Copy, PartialEq, Eq, Structural)]
pub enum IntErrorKind {
    /// The text is empty, or only a sign.
    Empty,
    /// The text holds something other than a sign and digits.
    InvalidDigit,
    /// The value is larger than the largest integer.
    PosOverflow,
    /// The value is smaller than the smallest integer.
    NegOverflow,
}

/// The detailed cause of an error.
#[derive(Debug, Clone)]
#[allow(inconsistent_fields)]
pub enum ErrorCode {
    /// A custom error message, raised by the caller of the codec.
    Custom(String),
    /// The data type is not supported by the serializer or deserializer.
    UnsupportedType,
    /// An opening quote was found, but no closing quote.
    EofWhileParsingQuote,
    /// A token was expected, but an incompatible token was found.
    ExpectedToken { expected: TokenType, found: TokenType },
    /// An integer could not be parsed from a text token.
    ParseIntError { kind: IntErrorKind, s: Vec<u8> },
    /// A float could not be parsed from a text token.
    ParseFloatError { s: Vec<u8> },
    /// A quoted string may not be converted to an int or float.
    QuotedString,
    /// A sequence is too long to serialize.
    SequenceTooLong,
    /// A sequence must have a length to be serialized.
    SequenceMustHaveLength,
    /// A string is longer than 255 bytes.
    StringTooLong,
    /// A string contains a null character.
    StringContainsNull,
    /// A string contains a quote character.
    StringContainsQuote,
    /// A string contains a character that is not ASCII.
    StringContainsInvalidChar,
}

/// A location in text: the line, counted from 1, and the column, which is 0
/// right after a line break.
#[derive(Debug, Clone, Copy, PartialEq, Eq, Structural)]
pub struct Location {
    pub line: usize,
    pub col: usize,
}

impl Location {
    /// Construct a new location.
    pub fn new(line: usize, col: usize) -> (r: Self)
        ensures
            r.line == line,
            r.col == col,
    {
        Location { line, col }
    }

    /// The line in the text; the first line is 1.
    pub fn line(&self) -> (r: usize)
        ensures
            r == self.line,
    {
        self.line
    }

    /// The column in the text.
    pub fn column(&self) -> (r: usize)
        ensures
            r == self.col,
    {
        self.col
    }

    /// This location comes at or after `other`.
    pub open spec fn at_or_after(self, other: Location) -> bool {
        self.line > other.line || (self.line == other.line && self.col >= other.col)
    }
}

/// An error of the text codec: its cause, and the location in the text where
/// it arose, when known.
#[derive(Debug, Clone)]
pub struct Error {
    pub code: ErrorCode,
    pub location: Option<Location>,
}

impl Error {
    /// Construct a new error.
    pub fn new(code: ErrorCode, location: Option<Location>) -> (r: Self)
        ensures
            r.code == code,
            r.location == location,
    {
        Error { code, location }
    }

    /// The error code.
    pub fn code(&self) -> (r: &ErrorCode)
        ensures
            *r == self.code,
    {
        &self.code
    }

    /// The error location: for deserialization, the line and column in the
    /// text; for serialization, `None`.
    pub fn location(&self) -> (r: Option<Location>)
        ensures
            r == self.location,
    {
        self.location
    }

    /// Attach a location, unless the error already has one.
    pub fn attach_location(self, loc: Location) -> (r: Self)
        ensures
            r.code == self.code,
            r.location == (if self.location is Some { self.location } else { Some(loc) }),
    {
        let mut e = self;
        if e.location.is_none() {
            e.location = Some(loc);
        }
        e
    }

    /// A custom error without location.
    pub fn custom(msg: String) -> (r: Self)
        ensures
            r.code == ErrorCode::Custom(msg),
            r.location is None,
    {
        Error { code: ErrorCode::Custom(msg), location: None }
    }
}

impl TokenType {
    /// How the token type reads in a message.
    pub open spec fn name(self) -> Seq<u8> {
        match self {
            TokenType::Text => "text".spec_bytes(),
            TokenType::ListStart => "start of list".spec_bytes(),
            TokenType::ListEnd => "end of list".spec_bytes(),
            TokenType::Eof => "end of file".spec_bytes(),
            TokenType::TextOrListStart => "text or start of list".spec_bytes(),
        }
    }

    fn push_name(self, out: &mut Vec<u8>)
        ensures
            final(out)@ == old(out)@ + self.name(),
    {
        let s = match self {
            TokenType::Text => "text",
            TokenType::ListStart => "start of list",
            TokenType::ListEnd => "end of list",
            TokenType::Eof => "end of file",
            TokenType::TextOrListStart => "text or start of list",
        };
        append(out, s.as_bytes());
    }
}

impl IntErrorKind {
    /// How the cause reads in a message.
    pub open spec fn name(self) -> Seq<u8> {
        match self {
            IntErrorKind::Empty => "cannot parse integer from empty string".spec_bytes(),
            IntErrorKind::InvalidDigit => "invalid digit found in string".spec_bytes(),
            IntErrorKind::PosOverflow => "number too large to fit in target type".spec_bytes(),
            IntErrorKind::NegOverflow => "number too small to fit in target type".spec_bytes(),
        }
    }

    fn push_name(self, out: &mut Vec<u8>)
        ensures
            final(out)@ == old(out)@ + self.name(),
    {
        let s = match self {
            IntErrorKind::Empty => "cannot parse integer from empty string",
            IntErrorKind::InvalidDigit => "invalid digit found in string",
            IntErrorKind::PosOverflow => "number too large to fit in target type",
            IntErrorKind::NegOverflow => "number too small to fit in target type",
        };
        append(out, s.as_bytes());
    }
}

/// How a float that could not be read is described.
pub open spec fn float_error_name(s: Seq<u8>) -> Seq<u8> {
    if s.len() == 0 {
        "cannot parse float from empty string".spec_bytes()
    } else {
        "invalid float literal".spec_bytes()
    }
}

impl ErrorCode {
    /// How the error reads in a message.
    pub open spec fn text(&self) -> Seq<u8> {
        match self {
            ErrorCode::Custom(m) => vstd::utf8::encode_utf8(m@),
            ErrorCode::UnsupportedType => "unsupported type".spec_bytes(),
            ErrorCode::EofWhileParsingQuote => "end of file while parsing a quoted string".spec_bytes(),
            ErrorCode::ExpectedToken { expected, found } => "expected ".spec_bytes() + expected.name()
                + ", found ".spec_bytes() + found.name(),
            ErrorCode::ParseIntError { kind, s } => kind.name() + ": `".spec_bytes() + s@ + "`".spec_bytes(),
            ErrorCode::ParseFloatError { s } => float_error_name(s@) + ": `".spec_bytes() + s@ + "`".spec_bytes(),
            ErrorCode::QuotedString => "a quoted string may not be converted".spec_bytes(),
            ErrorCode::SequenceTooLong => "sequence is too long".spec_bytes(),
            ErrorCode::SequenceMustHaveLength => "sequence must have a known length".spec_bytes(),
            ErrorCode::StringTooLong => "string is too long".spec_bytes(),
            ErrorCode::StringContainsNull => "string contains a null".spec_bytes(),
            ErrorCode::StringContainsQuote => "string contains a quote".spec_bytes(),
            ErrorCode::StringContainsInvalidChar => "string contains a non-ASCII character".spec_bytes(),
        }
    }

    /// Append how the error reads.
    pub fn push_text(&self, out: &mut Vec<u8>)
        ensures
            final(out)@ == old(out)@ + self.text(),
    {
        match self {
            ErrorCode::Custom(m) => append(out, m.as_str().as_bytes()),
            ErrorCode::ExpectedToken { expected, found } => {
                append(out, "expected ".as_bytes());
                expected.push_name(out);
                append(out, ", found ".as_bytes());
                found.push_name(out);
                assert(final(out)@ =~= old(out)@ + self.text());
            },
            ErrorCode::ParseIntError { kind, s } => {
                kind.push_name(out);
                append(out, ": `".as_bytes());
                append(out, s.as_slice());
                append(out, "`".as_bytes());
                assert(final(out)@ =~= old(out)@ + self.text());
            },
            ErrorCode::ParseFloatError { s } => {
                if s.len() == 0 {
                    append(out, "cannot parse float from empty string".as_bytes());
                } else {
                    append(out, "invalid float literal".as_bytes());
                }
                append(out, ": `".as_bytes());
                append(out, s.as_slice());
                append(out, "`".as_bytes());
                assert(final(out)@ =~= old(out)@ + self.text());
            },
            ErrorCode::UnsupportedType => append(out, "unsupported type".as_bytes()),
            ErrorCode::EofWhileParsingQuote => append(out, "end of file while parsing a quoted string".as_bytes()),
            ErrorCode::QuotedString => append(out, "a quoted string may not be converted".as_bytes()),
            ErrorCode::SequenceTooLong => append(out, "sequence is too long".as_bytes()),
            ErrorCode::SequenceMustHaveLength => append(out, "sequence must have a known length".as_bytes()),
            ErrorCode::StringTooLong => append(out, "string is too long".as_bytes()),
            ErrorCode::StringContainsNull => append(out, "string contains a null".as_bytes()),
            ErrorCode::StringContainsQuote => append(out, "string contains a quote".as_bytes()),
            ErrorCode::StringContainsInvalidChar => append(out, "string contains a non-ASCII character".as_bytes()),
        }
    }
}

impl Error {
    /// The bytes of the error's message: how its code reads, then its
    /// location when it has one.
    pub open spec fn text(&self) -> Seq<u8> {
        match self.location {
            Some(l) => self.code.text() + " (at line: ".spec_bytes() + usize_text(l.line as nat) + ", column: ".spec_bytes()
                + usize_text(l.col as nat) + ")".spec_bytes(),
            None => self.code.text(),
        }
    }

    /// The error's message: how its code reads, then
    /// ` (at line: L, column: C)` when it has a location.
    pub fn message(&self) -> (r: String)
        ensures
            vstd::utf8::valid_utf8(self.text()) ==> r@ == vstd::utf8::decode_utf8(self.text()),
    {
        let mut out: Vec<u8> = Vec::new();
        self.code.push_text(&mut out);
        if let Some(l) = self.location {
            append(&mut out, " (at line: ".as_bytes());
            push_usize(&mut out, l.line);
            append(&mut out, ", column: ".as_bytes());
            push_usize(&mut out, l.col);
            append(&mut out, ")".as_bytes());
        }
        assert(out@ =~= self.text());
        lossy_string(out.as_slice())
    }
}

} // verus!
