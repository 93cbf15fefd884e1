//! A peekable stream of text tokens.
use vstd::prelude::*;
use crate::text::error::{Error, ErrorCode, Location, TokenType};
use crate::text::parse::{parse_any, parse_f32, parse_i32, parse_string, Any};
use crate::text::tokenizer::{advance, token_ok, skip_ws, token_end, token_kind, lemma_token_at_kind, Span, Token, TokenView, Tokenizer};
use crate::text::parse::{any_of, finite_float, parsed_i32, AnyView};

verus! {

/// The type of the token that reading at offset `p` of `s` gives.
pub open spec fn type_at(s: Seq<u8>, p: int) -> TokenType {
    let q = skip_ws(s, p);
    if q >= s.len() {
        TokenType::Eof
    } else if s[q] == 0x28 {
        TokenType::ListStart
    } else if s[q] == 0x29 {
        TokenType::ListEnd
    } else {
        TokenType::Text
    }
}

/// What reading any scalar gives for a token, where it gives anything.
pub open spec fn token_any(t: TokenView) -> Option<AnyView> {
    match t {
        TokenView::Unquoted(x) => Some(any_of(x)),
        TokenView::Quoted(x) => Some(AnyView::String(x)),
        TokenView::ListStart => Some(AnyView::ListStart),
        _ => None,
    }
}

/// Reads tokens of text, with room to look at one token ahead.
#[derive(Clone)]
pub struct StrReader<'a> {
    inner: Tokenizer<'a>,
    buffer: Option<Span>,
    start: Ghost<int>,
}

impl<'a> StrReader<'a> {
    /// The reader can go on reading.
    pub closed spec fn wf(&self) -> bool {
        &&& self.inner.wf()
        &&& self.buffer matches Some(span) ==> span.token@ == token_kind(self.inner.data(), self.start@)
            && self.inner.pos() == token_end(self.inner.data(), self.start@) && 0 <= self.start@
            && self.start@ <= self.inner.pos() && self.inner.loc().at_or_after(span.loc)
            && token_ok(self.inner.data(), self.start@)
    }

    /// The text being read.
    pub closed spec fn data(&self) -> Seq<u8> {
        self.inner.data()
    }

    /// Where the next token is read from: before the token looked at ahead,
    /// if any.
    pub closed spec fn lpos(&self) -> int {
        match self.buffer {
            Some(_) => self.start@,
            None => self.inner.pos(),
        }
    }

    /// The token looked at ahead, if any.
    pub closed spec fn peeked(&self) -> Option<Span> {
        self.buffer
    }

    /// A measure of what is left to read: twice the bytes left, and one more
    /// for a token looked at ahead that is not the end.
    pub closed spec fn remaining(&self) -> nat {
        (2 * (self.inner.data().len() - self.inner.pos()) + match self.buffer {
            Some(span) => if span.token is Eof { 0int } else { 1int },
            None => 0int,
        }) as nat
    }

    /// The type of the next token.
    pub closed spec fn next_type(&self) -> TokenType {
        match self.buffer {
            Some(span) => span.token.token_type(),
            None => type_at(self.inner.data(), self.inner.pos()),
        }
    }

    /// The reader's location: where the next token starts, after any
    /// whitespace, whether or not it was looked at ahead.
    pub closed spec fn loc(&self) -> Location {
        match self.buffer {
            Some(span) => span.loc,
            None => advance(self.inner.loc(), self.inner.data(), self.inner.pos(), skip_ws(self.inner.data(), self.inner.pos())),
        }
    }

    /// Reading the next token succeeds.
    pub closed spec fn next_ok(&self) -> bool {
        match self.buffer {
            Some(_) => true,
            None => token_ok(self.inner.data(), self.inner.pos()),
        }
    }

    /// The reader's position lies within its text.
    pub proof fn lemma_lpos(&self)
        requires
            self.wf(),
        ensures
            0 <= self.lpos() <= self.data().len(),
    {
        self.inner.lemma_wf();
    }

    /// When the next token reads, its type is that of the token spec at the
    /// reader's position.
    pub proof fn lemma_next_type(&self)
        requires
            self.wf(),
            self.next_ok(),
        ensures
            (self.next_type() == TokenType::Text) <==> (token_kind(self.data(), self.lpos()) is Unquoted
                || token_kind(self.data(), self.lpos()) is Quoted),
            (self.next_type() == TokenType::ListStart) <==> token_kind(self.data(), self.lpos()) is ListStart,
            (self.next_type() == TokenType::ListEnd) <==> token_kind(self.data(), self.lpos()) is ListEnd,
            (self.next_type() == TokenType::Eof) <==> token_kind(self.data(), self.lpos()) is Eof,
    {
    }

    /// With no token looked at ahead, the next token reads exactly when the
    /// token spec says so at the reader's position.
    pub proof fn lemma_next_ok(&self)
        requires
            self.wf(),
            self.peeked() is None,
        ensures
            self.next_ok() == token_ok(self.data(), self.lpos()),
    {
    }

    /// With no token looked at ahead, the next token's type is the type of
    /// what stands at the reader's position.
    pub proof fn lemma_next_type_at(&self)
        requires
            self.wf(),
            self.peeked() is None,
        ensures
            self.next_type() == type_at(self.data(), self.lpos()),
    {
    }

    /// When the next token reads, the token spec says it reads at the
    /// reader's position.
    pub proof fn lemma_next_ok_token(&self)
        requires
            self.wf(),
            self.next_ok(),
        ensures
            token_ok(self.data(), self.lpos()),
            0 <= self.lpos() <= self.data().len(),
    {
        self.inner.lemma_wf();
    }

    /// A reader at the start of `input`.
    pub fn new(input: &'a [u8]) -> (r: Self)
        requires
            input@.len() < usize::MAX / 4,
        ensures
            r.wf(),
            r.peeked() is None,
            r.next_type() == type_at(input@, 0),
            r.loc() == advance(Location { line: 1, col: 0 }, input@, 0, skip_ws(input@, 0)),
            r.next_ok() == token_ok(input@, 0),
            r.data() == input@,
            r.lpos() == 0,
    {
        StrReader { inner: Tokenizer::new(input), buffer: None, start: Ghost(0) }
    }

    fn next_span(&mut self) -> (r: Result<Span, Error>)
        requires
            old(self).wf(),
        ensures
            r is Ok ==> final(self).wf(),
            final(self).peeked() is None,
            r matches Ok(span) ==> span.token.token_type() == old(self).next_type(),
            old(self).peeked() matches Some(sp) ==> r == Ok::<Span, Error>(sp) && final(self).wf(),
            old(self).next_type() != TokenType::Text ==> r is Ok,
            r matches Ok(span) && !(span.token is Eof) ==> final(self).remaining() < old(self).remaining(),
            r is Ok ==> final(self).remaining() <= old(self).remaining(),
            final(self).data() == old(self).data(),
            r matches Ok(span) ==> span.token@ == token_kind(old(self).data(), old(self).lpos())
                && final(self).lpos() == token_end(old(self).data(), old(self).lpos()),
            old(self).next_ok() <==> r is Ok,
            r matches Ok(span) ==> span.loc == old(self).loc(),
            r matches Err(e) ==> (e.location matches Some(l) && l.at_or_after(old(self).loc())),
            r is Ok ==> final(self).loc().at_or_after(old(self).loc()),
    {
        proof {
            self.inner.lemma_wf();
        }
        match self.buffer.take() {
            Some(span) => {
                proof {
                    self.inner.lemma_wf();
                    crate::text::tokenizer::lemma_skip_ws_bounds(self.inner.data(), self.inner.pos());
                    crate::text::tokenizer::lemma_advance_mono(self.inner.loc(), self.inner.data(), self.inner.pos(), skip_ws(self.inner.data(), self.inner.pos()));
                }
                Ok(span)
            },
            None => {
                let r = self.inner.read_token();
                proof {
                    if let Ok(span) = &r {
                        lemma_token_at_kind(self.inner.data(), old(self).inner.pos(), span.token, self.inner.pos());
                        self.inner.lemma_wf();
                        crate::text::tokenizer::lemma_skip_ws_bounds(self.inner.data(), self.inner.pos());
                        crate::text::tokenizer::lemma_advance_mono(self.inner.loc(), self.inner.data(), self.inner.pos(), skip_ws(self.inner.data(), self.inner.pos()));
                    }
                }
                r
            },
        }
    }

    /// Look at the next token without consuming it. Looking again gives the
    /// same token; neither the type of the next token nor the reader's
    /// location changes by looking.
    pub fn peek(&mut self) -> (r: Result<Span, Error>)
        requires
            old(self).wf(),
        ensures
            r is Ok ==> final(self).wf(),
            old(self).peeked() matches Some(span) ==> (r matches Ok(x) && x.token@ == span.token@ && x.loc == span.loc)
                && *final(self) == *old(self),
            r matches Ok(span) ==> (final(self).peeked() matches Some(p) && p.token@ == span.token@) && span.token.token_type() == old(self).next_type()
                && final(self).next_type() == old(self).next_type() && final(self).loc() == span.loc
                && final(self).loc() == old(self).loc() && final(self).next_ok(),
            old(self).next_ok() <==> r is Ok,
            old(self).next_type() != TokenType::Text ==> r is Ok,
            r is Ok ==> final(self).remaining() <= old(self).remaining(),
            final(self).data() == old(self).data(),
            r is Ok ==> final(self).lpos() == old(self).lpos(),
            r matches Ok(span) ==> span.token@ == token_kind(old(self).data(), old(self).lpos()),
            r matches Err(e) ==> (e.location matches Some(l) && l.at_or_after(old(self).loc())),
    {
        proof {
            self.inner.lemma_wf();
        }
        if let Some(span) = &self.buffer {
            return Ok(span.duplicate());
        }
        let ghost origin = self.inner.pos();
        let span = self.inner.read_token()?;
        proof {
            lemma_token_at_kind(self.inner.data(), origin, span.token, self.inner.pos());
        }
        self.buffer = Some(span.duplicate());
        self.start = Ghost(origin);
        Ok(span)
    }
    /// The reader's location: where the next token starts.
    pub fn location(&self) -> (r: Location)
        requires
            self.wf(),
        ensures
            r == self.loc(),
    {
        match &self.buffer {
            Some(span) => span.loc,
            None => self.inner.next_location(),
        }
    }

    /// The error for a data type that the format does not hold, at the
    /// reader's location.
    pub fn unsupported(&self) -> (r: Error)
        requires
            self.wf(),
        ensures
            r.code == crate::text::error::ErrorCode::UnsupportedType,
            r.location == Some(self.loc()),
    {
        Error::new(crate::text::error::ErrorCode::UnsupportedType, Some(self.location()))
    }

    /// Read an integer: unquoted text read in base 10.
    pub fn read_i32(&mut self) -> (r: Result<i32, Error>)
        requires
            old(self).wf(),
        ensures
            r is Ok ==> final(self).wf() && old(self).next_type() == TokenType::Text,
            final(self).peeked() is None,
            r matches Err(e) ==> (e.location matches Some(l) && l.at_or_after(old(self).loc())),
            r is Ok ==> final(self).loc().at_or_after(old(self).loc()),
            final(self).data() == old(self).data(),
            r is Ok ==> final(self).lpos() == token_end(old(self).data(), old(self).lpos()),
            old(self).next_ok() ==> (token_kind(old(self).data(), old(self).lpos()) matches TokenView::Unquoted(x) ==> (
                (parsed_i32(x) matches Ok(v) ==> r == Ok::<i32, Error>(v as i32))
                && (parsed_i32(x) matches Err(k) ==> (r matches Err(e) && e.location == Some(old(self).loc())
                    && (e.code matches ErrorCode::ParseIntError { kind, s } && kind == k && s@ == x))))),
            old(self).next_ok() ==> (token_kind(old(self).data(), old(self).lpos()) is Quoted ==> r == Err::<i32, Error>(
                Error { code: ErrorCode::QuotedString, location: Some(old(self).loc()) },
            )),
            old(self).next_ok() && old(self).next_type() != TokenType::Text ==> r == Err::<i32, Error>(
                Error { code: ErrorCode::ExpectedToken { expected: TokenType::Text, found: old(self).next_type() }, location: Some(old(self).loc()) },
            ),
    {
        let span = self.next_span()?;
        parse_i32(span)
    }

    /// Read a float, as its checked decimal text: unquoted text in the
    /// float grammar that names a finite value.
    pub fn read_f32(&mut self) -> (r: Result<Vec<u8>, Error>)
        requires
            old(self).wf(),
        ensures
            r is Ok ==> final(self).wf() && old(self).next_type() == TokenType::Text,
            final(self).peeked() is None,
            r matches Err(e) ==> (e.location matches Some(l) && l.at_or_after(old(self).loc())),
            r is Ok ==> final(self).loc().at_or_after(old(self).loc()),
            final(self).data() == old(self).data(),
            r is Ok ==> final(self).lpos() == token_end(old(self).data(), old(self).lpos()),
            old(self).next_ok() ==> (token_kind(old(self).data(), old(self).lpos()) matches TokenView::Unquoted(x) ==> (
                (finite_float(x) ==> (r matches Ok(t) && t@ == x))
                && (!finite_float(x) ==> (r matches Err(e) && e.location == Some(old(self).loc())
                    && (e.code matches ErrorCode::ParseFloatError { s } && s@ == x))))),
            old(self).next_ok() ==> (token_kind(old(self).data(), old(self).lpos()) is Quoted ==> r == Err::<Vec<u8>, Error>(
                Error { code: ErrorCode::QuotedString, location: Some(old(self).loc()) },
            )),
            old(self).next_ok() && old(self).next_type() != TokenType::Text ==> r == Err::<Vec<u8>, Error>(
                Error { code: ErrorCode::ExpectedToken { expected: TokenType::Text, found: old(self).next_type() }, location: Some(old(self).loc()) },
            ),
    {
        let span = self.next_span()?;
        parse_f32(span)
    }

    /// Read a string: text, quoted or not.
    pub fn read_string(&mut self) -> (r: Result<Vec<u8>, Error>)
        requires
            old(self).wf(),
        ensures
            r is Ok ==> final(self).wf() && old(self).next_type() == TokenType::Text,
            final(self).peeked() is None,
            r matches Err(e) ==> (e.location matches Some(l) && l.at_or_after(old(self).loc())),
            r is Ok ==> final(self).loc().at_or_after(old(self).loc()),
            final(self).data() == old(self).data(),
            r is Ok ==> final(self).lpos() == token_end(old(self).data(), old(self).lpos()),
            old(self).next_ok() ==> (token_kind(old(self).data(), old(self).lpos()) matches TokenView::Unquoted(x) ==> (r matches Ok(t) && t@ == x)),
            old(self).next_ok() ==> (token_kind(old(self).data(), old(self).lpos()) matches TokenView::Quoted(x) ==> (r matches Ok(t) && t@ == x)),
            old(self).next_ok() && old(self).next_type() != TokenType::Text ==> r == Err::<Vec<u8>, Error>(
                Error { code: ErrorCode::ExpectedToken { expected: TokenType::Text, found: old(self).next_type() }, location: Some(old(self).loc()) },
            ),
    {
        let span = self.next_span()?;
        parse_string(span)
    }

    /// Read any scalar, or the start of a list.
    pub fn read_any(&mut self) -> (r: Result<Any, Error>)
        requires
            old(self).wf(),
        ensures
            r is Ok ==> final(self).wf(),
            old(self).next_type() == TokenType::ListStart ==> (r matches Ok(a) && a is ListStart),
            old(self).next_type() == TokenType::Text ==> (r matches Ok(a) ==> !(a is ListStart)),
            old(self).next_type() == TokenType::ListEnd || old(self).next_type() == TokenType::Eof ==> r is Err,
            final(self).peeked() is None,
            r matches Err(e) ==> (e.location matches Some(l) && l.at_or_after(old(self).loc())),
            r is Ok ==> final(self).loc().at_or_after(old(self).loc()),
            r is Ok ==> final(self).remaining() < old(self).remaining(),
            final(self).data() == old(self).data(),
            r matches Ok(a) ==> token_any(token_kind(old(self).data(), old(self).lpos())) == Some(a@)
                && final(self).lpos() == token_end(old(self).data(), old(self).lpos()),
            r matches Ok(Any::String(x)) ==> (x@.len() == 0 || crate::text::ascii::checked(x@, None) is Ok),
            old(self).next_ok() && (old(self).next_type() == TokenType::Text || old(self).next_type() == TokenType::ListStart) ==> r is Ok,
            old(self).next_ok() && (old(self).next_type() == TokenType::ListEnd || old(self).next_type() == TokenType::Eof) ==> r == Err::<Any, Error>(
                Error { code: ErrorCode::ExpectedToken { expected: TokenType::TextOrListStart, found: old(self).next_type() }, location: Some(old(self).loc()) },
            ),
    {
        proof {
            if old(self).next_ok() {
                old(self).lemma_next_ok_token();
                crate::text::tokenizer::lemma_text_token_valid(old(self).data(), old(self).lpos());
            }
        }
        let span = self.next_span()?;
        parse_any(span)
    }

    /// Read the start of a list.
    pub fn read_list_start(&mut self) -> (r: Result<(), Error>)
        requires
            old(self).wf(),
        ensures
            r is Ok <==> old(self).next_type() == TokenType::ListStart,
            r is Ok ==> final(self).wf(),
            final(self).peeked() is None,
    {
        let span = self.next_span()?;
        match span.token {
            Token::ListStart => Ok(()),
            _ => Err(span.expected(TokenType::ListStart)),
        }
    }

    /// Read the end of a list.
    pub fn read_list_end(&mut self) -> (r: Result<(), Error>)
        requires
            old(self).wf(),
        ensures
            r is Ok <==> old(self).next_type() == TokenType::ListEnd,
            old(self).next_ok() && old(self).next_type() != TokenType::ListEnd ==> r == Err::<(), Error>(
                Error { code: ErrorCode::ExpectedToken { expected: TokenType::ListEnd, found: old(self).next_type() }, location: Some(old(self).loc()) },
            ),
            r is Ok ==> final(self).wf(),
            r is Ok ==> final(self).remaining() < old(self).remaining(),
            final(self).peeked() is None,
            r matches Err(e) ==> (e.location matches Some(l) && l.at_or_after(old(self).loc())),
            r is Ok ==> final(self).loc().at_or_after(old(self).loc()),
            final(self).data() == old(self).data(),
            r is Ok ==> token_kind(old(self).data(), old(self).lpos()) == TokenView::ListEnd
                && final(self).lpos() == token_end(old(self).data(), old(self).lpos()),
    {
        let span = self.next_span()?;
        match span.token {
            Token::ListEnd => Ok(()),
            _ => Err(span.expected(TokenType::ListEnd)),
        }
    }

    /// Succeed if only whitespace is left.
    pub fn finish(self) -> (r: Result<(), Error>)
        requires
            self.wf(),
        ensures
            r is Ok <==> self.next_type() == TokenType::Eof,
            r is Ok ==> token_kind(self.data(), self.lpos()) == TokenView::Eof,
            r matches Err(e) ==> (e.location matches Some(l) && l.at_or_after(self.loc())),
            self.next_ok() && self.next_type() != TokenType::Eof ==> r == Err::<(), Error>(
                Error { code: ErrorCode::ExpectedToken { expected: TokenType::Eof, found: self.next_type() }, location: Some(self.loc()) },
            ),
    {
        let mut reader = self;
        let span = reader.next_span()?;
        match span.token {
            Token::Eof => Ok(()),
            _ => Err(span.expected(TokenType::Eof)),
        }
    }
}

} // verus!
