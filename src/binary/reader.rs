//! Reading tokens from binary data.
use vstd::prelude::*;
use crate::binary::ascii::{checked, from_raw};
use crate::binary::error::{Error, ErrorCode, TokenType};
use crate::binary::wire::{i32_at, read_i32 as word_i32, read_u32, u32_at, MAX_LIST_LEN, MAX_STRING_LEN};

verus! {

/// A token read by [`SliceReader::read_any`].
#[derive(Debug, Clone, PartialEq, Eq)]
pub enum Token {
    /// An integer.
    Int(i32),
    /// A float, as the bit pattern of an IEEE-754 binary32 value.
    Float(u32),
    /// A string.
    Str(Vec<u8>),
    /// A list with this many elements.
    List(usize),
}

/// The token type of a tag, if it is valid.
pub open spec fn tag_type(tag: int) -> Option<TokenType> {
    if tag == 1 {
        Some(TokenType::Int)
    } else if tag == 2 {
        Some(TokenType::Float)
    } else if tag == 3 {
        Some(TokenType::String)
    } else if tag == 4 {
        Some(TokenType::List)
    } else {
        None
    }
}

/// The error with the given code at offset `o`.
pub open spec fn err_at(code: ErrorCode, o: int) -> Error {
    Error { code, offset: Some(o as usize) }
}

/// Taking `n` bytes at offset `o` of `s`: the error if there are fewer.
pub open spec fn short(s: Seq<u8>, o: int, n: int) -> Option<Error> {
    if s.len() - o < n {
        Some(
            err_at(
                ErrorCode::InsufficientData { expected: n as usize, available: (s.len() - o) as usize },
                o,
            ),
        )
    } else {
        None
    }
}

/// Reading the tag of a token of type `expected` at offset `o` of `s`:
/// `Ok` with the tag's type, or the error.
pub open spec fn head(s: Seq<u8>, o: int, expected: TokenType) -> Result<TokenType, Error> {
    if o >= s.len() {
        Err(err_at(ErrorCode::ExpectedToken { expected, found: TokenType::Eof }, o))
    } else if short(s, o, 4) is Some {
        Err(short(s, o, 4)->0)
    } else {
        match tag_type(i32_at(s, o)) {
            None => Err(err_at(ErrorCode::InvalidTokenType, o)),
            Some(t) => if expected == TokenType::Any || t == expected {
                Ok(t)
            } else {
                Err(err_at(ErrorCode::ExpectedToken { expected, found: t }, o))
            },
        }
    }
}

/// Reading the length field of a string at offset `o` of `s`, then its bytes.
pub open spec fn str_payload(s: Seq<u8>, o: int) -> Result<Seq<u8>, Error> {
    if short(s, o, 4) is Some {
        Err(short(s, o, 4)->0)
    } else {
        let len = i32_at(s, o);
        if len < 0 {
            Err(err_at(ErrorCode::InvalidStringLength, o))
        } else if len > MAX_STRING_LEN {
            Err(err_at(ErrorCode::StringTooLong, o))
        } else if short(s, o + 4, len) is Some {
            Err(short(s, o + 4, len)->0)
        } else {
            let bytes = s.subrange(o + 4, o + 4 + len);
            match checked(bytes, Some((o + 4) as usize)) {
                Ok(()) => Ok(bytes),
                Err(e) => Err(e),
            }
        }
    }
}

/// Reading the count field of a list at offset `o` of `s`: the number of
/// elements, which is one less than the field.
pub open spec fn list_payload(s: Seq<u8>, o: int) -> Result<int, Error> {
    if short(s, o, 4) is Some {
        Err(short(s, o, 4)->0)
    } else {
        let len = i32_at(s, o) - 1;
        if len < 0 {
            Err(err_at(ErrorCode::InvalidListLength, o))
        } else if len > MAX_LIST_LEN {
            Err(err_at(ErrorCode::SequenceTooLong, o))
        } else {
            Ok(len)
        }
    }
}

/// The number of bytes that a string payload of `n` bytes takes after its tag.
pub open spec fn str_size(n: int) -> int {
    4 + n
}

/// What a token holds, in terms of plain values.
pub enum TokenView {
    Int(i32),
    Float(u32),
    Str(Seq<u8>),
    List(int),
}

impl Token {
    /// What the token holds.
    pub open spec fn view(&self) -> TokenView {
        match self {
            Token::Int(v) => TokenView::Int(*v),
            Token::Float(v) => TokenView::Float(*v),
            Token::Str(v) => TokenView::Str(v@),
            Token::List(n) => TokenView::List(*n as int),
        }
    }
}

/// The number of bytes that a token takes, its tag included.
pub open spec fn token_size(t: TokenView) -> int {
    match t {
        TokenView::Str(b) => 8 + b.len() as int,
        _ => 8,
    }
}

/// Reading the payload of a token of type `t` at offset `o` of `s`, after
/// its tag.
pub open spec fn payload(s: Seq<u8>, o: int, t: TokenType) -> Result<TokenView, Error> {
    match t {
        TokenType::Int => match short(s, o, 4) {
            Some(e) => Err(e),
            None => Ok(TokenView::Int(i32_at(s, o) as i32)),
        },
        TokenType::Float => match short(s, o, 4) {
            Some(e) => Err(e),
            None => Ok(TokenView::Float(u32_at(s, o) as u32)),
        },
        TokenType::String => match str_payload(s, o) {
            Err(e) => Err(e),
            Ok(b) => Ok(TokenView::Str(b)),
        },
        _ => match list_payload(s, o) {
            Err(e) => Err(e),
            Ok(n) => Ok(TokenView::List(n)),
        },
    }
}

/// Reading a token of type `expected` (or of any type) at offset `o` of `s`.
pub open spec fn token_at(s: Seq<u8>, o: int, expected: TokenType) -> Result<TokenView, Error> {
    match head(s, o, expected) {
        Err(e) => Err(e),
        Ok(t) => payload(s, o + 4, t),
    }
}

/// Reads tokens from a byte slice, keeping the offset of the next byte.
#[derive(Debug, Clone)]
pub struct SliceReader<'a> {
    input: &'a [u8],
    offset: usize,
}

impl<'a> SliceReader<'a> {
    /// The data being read.
    pub closed spec fn data(&self) -> Seq<u8> {
        self.input@
    }

    /// The offset of the next byte to read.
    pub closed spec fn pos(&self) -> int {
        self.offset as int
    }

    /// The offset lies within the data.
    pub open spec fn wf(&self) -> bool {
        0 <= self.pos() <= self.data().len()
    }

    /// A reader at the start of `input`.
    pub fn new(input: &'a [u8]) -> (r: Self)
        ensures
            r.wf(),
            r.data() == input@,
            r.pos() == 0,
    {
        SliceReader { input, offset: 0 }
    }

    /// The offset of the next byte to read.
    pub fn offset(&self) -> (r: usize)
        ensures
            r as int == self.pos(),
    {
        self.offset
    }

    /// Nothing is left to read.
    pub fn is_empty(&self) -> (r: bool)
        requires
            self.wf(),
        ensures
            r == (self.pos() == self.data().len()),
    {
        self.offset == self.input.len()
    }

    fn take_n(&mut self, n: usize) -> (r: Result<usize, Error>)
        requires
            old(self).wf(),
        ensures
            final(self).wf(),
            final(self).data() == old(self).data(),
            short(old(self).data(), old(self).pos(), n as int) matches Some(e) ==> r == Err::<usize, Error>(e) && final(self).pos() == old(self).pos(),
            short(old(self).data(), old(self).pos(), n as int) is None ==> r == Ok::<usize, Error>(old(self).offset) && final(self).pos() == old(self).pos() + n,
    {
        let available = self.input.len() - self.offset;
        if available >= n {
            let start = self.offset;
            self.offset = self.offset + n;
            Ok(start)
        } else {
            let code = ErrorCode::InsufficientData { expected: n, available };
            Err(Error::new(code, Some(self.offset)))
        }
    }

    fn take_i32(&mut self) -> (r: Result<i32, Error>)
        requires
            old(self).wf(),
        ensures
            final(self).wf(),
            final(self).data() == old(self).data(),
            short(old(self).data(), old(self).pos(), 4) matches Some(e) ==> r == Err::<i32, Error>(e),
            short(old(self).data(), old(self).pos(), 4) is None ==> (r matches Ok(v) && v as int == i32_at(old(self).data(), old(self).pos()))
                && final(self).pos() == old(self).pos() + 4,
    {
        let start = self.take_n(4)?;
        Ok(word_i32(self.input, start))
    }

    fn take_u32(&mut self) -> (r: Result<u32, Error>)
        requires
            old(self).wf(),
        ensures
            final(self).wf(),
            final(self).data() == old(self).data(),
            short(old(self).data(), old(self).pos(), 4) matches Some(e) ==> r == Err::<u32, Error>(e),
            short(old(self).data(), old(self).pos(), 4) is None ==> (r matches Ok(v) && v as int == u32_at(old(self).data(), old(self).pos()))
                && final(self).pos() == old(self).pos() + 4,
    {
        let start = self.take_n(4)?;
        Ok(read_u32(self.input, start))
    }

    fn take_str(&mut self) -> (r: Result<Vec<u8>, Error>)
        requires
            old(self).wf(),
        ensures
            final(self).wf(),
            final(self).data() == old(self).data(),
            str_payload(old(self).data(), old(self).pos()) matches Err(e) ==> r == Err::<Vec<u8>, Error>(e),
            str_payload(old(self).data(), old(self).pos()) matches Ok(b) ==> (r matches Ok(v) && v@ == b)
                && final(self).pos() == old(self).pos() + str_size(b.len() as int),
    {
        let offset = self.offset;
        let len = self.take_i32()?;
        if len < 0 {
            return Err(Error::new(ErrorCode::InvalidStringLength, Some(offset)));
        }
        if len > MAX_STRING_LEN as i32 {
            return Err(Error::new(ErrorCode::StringTooLong, Some(offset)));
        }
        let str_offset = self.offset;
        let start = self.take_n(len as usize)?;
        let mut bytes: Vec<u8> = Vec::new();
        let mut i: usize = start;
        while i < start + len as usize
            invariant
                self.wf(),
                start + len as usize == self.pos() <= self.data().len(),
                start <= i <= start + len as usize,
                self.input@ == self.data(),
                bytes@ == self.data().subrange(start as int, i as int),
            decreases start + len as usize - i,
        {
            bytes.push(self.input[i]);
            i = i + 1;
            assert(bytes@ =~= self.data().subrange(start as int, i as int));
        }
        from_raw(bytes.as_slice(), str_offset)?;
        Ok(bytes)
    }

    fn take_list(&mut self) -> (r: Result<usize, Error>)
        requires
            old(self).wf(),
        ensures
            final(self).wf(),
            final(self).data() == old(self).data(),
            list_payload(old(self).data(), old(self).pos()) matches Err(e) ==> r == Err::<usize, Error>(e),
            list_payload(old(self).data(), old(self).pos()) matches Ok(n) ==> r == Ok::<usize, Error>(n as usize)
                && final(self).pos() == old(self).pos() + 4,
    {
        let offset = self.offset;
        let count = self.take_i32()?;
        if count <= 0 {
            Err(Error::new(ErrorCode::InvalidListLength, Some(offset)))
        } else if count - 1 > MAX_LIST_LEN as i32 {
            Err(Error::new(ErrorCode::SequenceTooLong, Some(offset)))
        } else {
            Ok((count - 1) as usize)
        }
    }

    fn take_head(&mut self, expected: TokenType) -> (r: Result<TokenType, Error>)
        requires
            old(self).wf(),
        ensures
            final(self).wf(),
            final(self).data() == old(self).data(),
            r == head(old(self).data(), old(self).pos(), expected),
            r is Ok ==> final(self).pos() == old(self).pos() + 4,
    {
        if self.offset == self.input.len() {
            let code = ErrorCode::ExpectedToken { expected, found: TokenType::Eof };
            return Err(Error::new(code, Some(self.offset)));
        }
        let offset = self.offset;
        let tag = self.take_i32()?;
        let found = if tag == 1 {
            TokenType::Int
        } else if tag == 2 {
            TokenType::Float
        } else if tag == 3 {
            TokenType::String
        } else if tag == 4 {
            TokenType::List
        } else {
            return Err(Error::new(ErrorCode::InvalidTokenType, Some(offset)));
        };
        if expected == TokenType::Any || found == expected {
            Ok(found)
        } else {
            Err(Error::new(ErrorCode::ExpectedToken { expected, found }, Some(offset)))
        }
    }
    /// Read an integer token.
    pub fn read_i32(&mut self) -> (r: Result<i32, Error>)
        requires
            old(self).wf(),
        ensures
            final(self).wf(),
            final(self).data() == old(self).data(),
            token_at(old(self).data(), old(self).pos(), TokenType::Int) matches Err(e) ==> r == Err::<i32, Error>(e),
            token_at(old(self).data(), old(self).pos(), TokenType::Int) matches Ok(t) ==> (r matches Ok(v) && t == TokenView::Int(v))
                && final(self).pos() == old(self).pos() + 8,
    {
        self.take_head(TokenType::Int)?;
        self.take_i32()
    }

    /// Read a float token, giving the bit pattern of its binary32 value.
    pub fn read_f32(&mut self) -> (r: Result<u32, Error>)
        requires
            old(self).wf(),
        ensures
            final(self).wf(),
            final(self).data() == old(self).data(),
            token_at(old(self).data(), old(self).pos(), TokenType::Float) matches Err(e) ==> r == Err::<u32, Error>(e),
            token_at(old(self).data(), old(self).pos(), TokenType::Float) matches Ok(t) ==> (r matches Ok(v) && t == TokenView::Float(v))
                && final(self).pos() == old(self).pos() + 8,
    {
        self.take_head(TokenType::Float)?;
        self.take_u32()
    }

    /// Read a string token.
    pub fn read_str(&mut self) -> (r: Result<Vec<u8>, Error>)
        requires
            old(self).wf(),
        ensures
            final(self).wf(),
            final(self).data() == old(self).data(),
            token_at(old(self).data(), old(self).pos(), TokenType::String) matches Err(e) ==> r == Err::<Vec<u8>, Error>(e),
            token_at(old(self).data(), old(self).pos(), TokenType::String) matches Ok(t) ==> (r matches Ok(v) && t == TokenView::Str(v@))
                && final(self).pos() == old(self).pos() + token_size(t),
    {
        self.take_head(TokenType::String)?;
        self.take_str()
    }

    /// Read the start of a list: its number of elements, and the offset of
    /// its count field.
    pub fn read_list(&mut self) -> (r: Result<(usize, usize), Error>)
        requires
            old(self).wf(),
        ensures
            final(self).wf(),
            final(self).data() == old(self).data(),
            token_at(old(self).data(), old(self).pos(), TokenType::List) matches Err(e) ==> r == Err::<(usize, usize), Error>(e),
            token_at(old(self).data(), old(self).pos(), TokenType::List) matches Ok(t) ==> (r matches Ok((n, o)) && t == TokenView::List(n as int)
                && o == old(self).pos() + 4)
                && final(self).pos() == old(self).pos() + 8,
    {
        self.take_head(TokenType::List)?;
        let len_offset = self.offset;
        let len = self.take_list()?;
        Ok((len, len_offset))
    }

    /// Read a token of any type.
    pub fn read_any(&mut self) -> (r: Result<Token, Error>)
        requires
            old(self).wf(),
        ensures
            final(self).wf(),
            final(self).data() == old(self).data(),
            token_at(old(self).data(), old(self).pos(), TokenType::Any) matches Err(e) ==> r == Err::<Token, Error>(e),
            token_at(old(self).data(), old(self).pos(), TokenType::Any) matches Ok(t) ==> (r matches Ok(v) && t == v.view())
                && final(self).pos() == old(self).pos() + token_size(t),
    {
        let t = self.take_head(TokenType::Any)?;
        match t {
            TokenType::Int => Ok(Token::Int(self.take_i32()?)),
            TokenType::Float => Ok(Token::Float(self.take_u32()?)),
            TokenType::String => Ok(Token::Str(self.take_str()?)),
            _ => Ok(Token::List(self.take_list()?)),
        }
    }

    /// Read a list that holds an optional value: `Ok(false)` for none,
    /// `Ok(true)` when one value follows; any other length is refused at the
    /// count field.
    pub fn read_option(&mut self) -> (r: Result<bool, Error>)
        requires
            old(self).wf(),
        ensures
            final(self).wf(),
            final(self).data() == old(self).data(),
            token_at(old(self).data(), old(self).pos(), TokenType::List) matches Err(e) ==> r == Err::<bool, Error>(e),
            token_at(old(self).data(), old(self).pos(), TokenType::List) matches Ok(TokenView::List(n)) ==> (
                (n == 0 ==> r == Ok::<bool, Error>(false)) && (n == 1 ==> r == Ok::<bool, Error>(true))
                && (n > 1 ==> r == Err::<bool, Error>(err_at(ErrorCode::ExpectedListOfLength { expected_min: 0, expected_max: 1, found: n as usize }, old(self).pos() + 4)))),
            r is Ok ==> final(self).pos() == old(self).pos() + 8,
    {
        let (len, offset) = self.read_list()?;
        if len == 0 {
            Ok(false)
        } else if len == 1 {
            Ok(true)
        } else {
            let code = ErrorCode::ExpectedListOfLength { expected_min: 0, expected_max: 1, found: len };
            Err(Error::new(code, Some(offset)))
        }
    }

    /// Read a list of exactly `expected` elements (the unit value is a list
    /// of none); any other length is refused at the count field.
    pub fn read_tuple(&mut self, expected: usize) -> (r: Result<(), Error>)
        requires
            old(self).wf(),
        ensures
            final(self).wf(),
            final(self).data() == old(self).data(),
            token_at(old(self).data(), old(self).pos(), TokenType::List) matches Err(e) ==> r == Err::<(), Error>(e),
            token_at(old(self).data(), old(self).pos(), TokenType::List) matches Ok(TokenView::List(n)) ==> (
                (n == expected ==> r is Ok)
                && (n != expected ==> r == Err::<(), Error>(err_at(ErrorCode::ExpectedListOfLength { expected_min: expected, expected_max: expected, found: n as usize }, old(self).pos() + 4)))),
            r is Ok ==> final(self).pos() == old(self).pos() + 8,
    {
        let (len, offset) = self.read_list()?;
        if len != expected {
            let code = ErrorCode::ExpectedListOfLength { expected_min: expected, expected_max: expected, found: len };
            return Err(Error::new(code, Some(offset)));
        }
        Ok(())
    }

    /// Before a key of a map with `left` items left: `Ok(false)` when none
    /// are left, `Ok(true)` when a key and its value follow, and an error at
    /// the current offset when only a key is left.
    pub fn next_key(&self, left: usize) -> (r: Result<bool, Error>)
        ensures
            left == 0 ==> r == Ok::<bool, Error>(false),
            left == 1 ==> r == Err::<bool, Error>(err_at(ErrorCode::ExpectedKeyValuePair, self.pos())),
            left >= 2 ==> r == Ok::<bool, Error>(true),
    {
        if left == 0 {
            Ok(false)
        } else if left < 2 {
            Err(Error::new(ErrorCode::ExpectedKeyValuePair, Some(self.offset)))
        } else {
            Ok(true)
        }
    }

    /// The error for a data type that the format does not hold, at the
    /// current offset.
    pub fn unsupported(&self) -> (r: Error)
        ensures
            r == err_at(ErrorCode::UnsupportedType, self.pos()),
    {
        Error::new(ErrorCode::UnsupportedType, Some(self.offset))
    }

    /// Succeed if all of the data has been read.
    pub fn finish(self) -> (r: Result<(), Error>)
        requires
            self.wf(),
        ensures
            self.pos() == self.data().len() ==> r is Ok,
            self.pos() < self.data().len() ==> r == Err::<(), Error>(err_at(ErrorCode::TrailingData, self.pos())),
    {
        if self.offset == self.input.len() {
            Ok(())
        } else {
            Err(Error::new(ErrorCode::TrailingData, Some(self.offset)))
        }
    }
}

} // verus!
