//! Splitting text into tokens, keeping track of line and column.
use vstd::prelude::*;
use crate::text::ascii::{all_valid, checked, from_raw, is_delim, valid_byte, MAX_STRING_LEN};
use crate::text::error::{Error, ErrorCode, Location, TokenType};

verus! {

/// The text of a scalar token.
#[derive(Debug, Clone, PartialEq, Eq)]
pub enum Text {
    /// Text that held a quote; the quotes are removed.
    Quoted(Vec<u8>),
    /// Text without quotes.
    Unquoted(Vec<u8>),
}

/// A token of text.
#[derive(Debug, Clone, PartialEq, Eq)]
pub enum Token {
    /// A scalar.
    Text(Text),
    /// `(`
    ListStart,
    /// `)`
    ListEnd,
    /// The end of the text.
    Eof,
}

/// A token and the location where it starts.
#[derive(Debug, Clone, PartialEq, Eq)]
pub struct Span {
    pub token: Token,
    pub loc: Location,
}

impl Token {
    /// The token's type.
    pub open spec fn token_type(&self) -> TokenType {
        match self {
            Token::Text(_) => TokenType::Text,
            Token::ListStart => TokenType::ListStart,
            Token::ListEnd => TokenType::ListEnd,
            Token::Eof => TokenType::Eof,
        }
    }
}

impl Span {
    /// Construct a span.
    pub fn new(token: Token, loc: Location) -> (r: Self)
        ensures
            r.token == token,
            r.loc == loc,
    {
        Span { token, loc }
    }

    /// The error for finding this span where a token of type `expected` was
    /// expected.
    pub fn expected(self, expected: TokenType) -> (r: Error)
        ensures
            r.code == (ErrorCode::ExpectedToken { expected, found: self.token.token_type() }),
            r.location == Some(self.loc),
    {
        let found = match &self.token {
            Token::Text(_) => TokenType::Text,
            Token::ListStart => TokenType::ListStart,
            Token::ListEnd => TokenType::ListEnd,
            Token::Eof => TokenType::Eof,
        };
        Error::new(ErrorCode::ExpectedToken { expected, found }, Some(self.loc))
    }
}

/// What a token holds, in terms of plain values.
pub enum TokenView {
    Quoted(Seq<u8>),
    Unquoted(Seq<u8>),
    ListStart,
    ListEnd,
    Eof,
}

impl Token {
    /// What the token holds.
    pub open spec fn view(&self) -> TokenView {
        match self {
            Token::Text(Text::Quoted(v)) => TokenView::Quoted(v@),
            Token::Text(Text::Unquoted(v)) => TokenView::Unquoted(v@),
            Token::ListStart => TokenView::ListStart,
            Token::ListEnd => TokenView::ListEnd,
            Token::Eof => TokenView::Eof,
        }
    }
}

impl Span {
    /// A copy of the span.
    pub fn duplicate(&self) -> (r: Span)
        ensures
            r.token@ == self.token@,
            r.token.token_type() == self.token.token_type(),
            r.loc == self.loc,
    {
        let token = match &self.token {
            Token::Text(Text::Quoted(v)) => Token::Text(Text::Quoted(copy_range(v.as_slice(), 0, v.len()))),
            Token::Text(Text::Unquoted(v)) => Token::Text(Text::Unquoted(copy_range(v.as_slice(), 0, v.len()))),
            Token::ListStart => Token::ListStart,
            Token::ListEnd => Token::ListEnd,
            Token::Eof => Token::Eof,
        };
        proof {
            match &self.token {
                Token::Text(Text::Quoted(v)) => assert(v@.subrange(0, v@.len() as int) =~= v@),
                Token::Text(Text::Unquoted(v)) => assert(v@.subrange(0, v@.len() as int) =~= v@),
                _ => {},
            }
        }
        Span { token, loc: self.loc }
    }
}

/// Whitespace: space, tab, CR and LF.
pub open spec fn is_ws(b: u8) -> bool {
    b == 0x20 || b == 0x09 || b == 0x0d || b == 0x0a
}

/// The first offset at or after `p` that is not whitespace.
pub open spec fn skip_ws(s: Seq<u8>, p: int) -> int
    decreases s.len() - p,
{
    if p < 0 || p >= s.len() || !is_ws(s[p]) {
        p
    } else {
        skip_ws(s, p + 1)
    }
}

/// The first delimiter at or after `p`, or the end.
pub open spec fn run_end(s: Seq<u8>, p: int) -> int
    decreases s.len() - p,
{
    if p < 0 || p >= s.len() || is_delim(s[p]) {
        p
    } else {
        run_end(s, p + 1)
    }
}

/// Some byte in `[p, q)` is a quote.
pub open spec fn has_quote(s: Seq<u8>, p: int, q: int) -> bool {
    exists|i: int| p <= i < q && s[i] == 0x22
}

/// Scanning text from `p` with quoting on or off: where the text ends (a
/// delimiter outside quotes, or the end) and its bytes without the quotes;
/// `None` where the text ends inside quotes.
pub open spec fn qscan(s: Seq<u8>, p: int, inq: bool) -> Option<(int, Seq<u8>)>
    decreases s.len() - p,
{
    if p < 0 || p >= s.len() {
        if inq {
            None
        } else {
            Some((p, Seq::empty()))
        }
    } else if s[p] == 0x22 {
        qscan(s, p + 1, !inq)
    } else if !inq && is_delim(s[p]) {
        Some((p, Seq::empty()))
    } else {
        match qscan(s, p + 1, inq) {
            Some((e, v)) => Some((e, seq![s[p]] + v)),
            None => None,
        }
    }
}

/// What a token read at `q` (after whitespace) is, and `end` where reading
/// stopped.
pub open spec fn token_at(s: Seq<u8>, q: int, token: Token, end: int) -> bool {
    if q >= s.len() {
        token == Token::Eof && end == q
    } else if s[q] == 0x28 {
        token == Token::ListStart && end == q + 1
    } else if s[q] == 0x29 {
        token == Token::ListEnd && end == q + 1
    } else if !has_quote(s, q, run_end(s, q)) {
        token matches Token::Text(Text::Unquoted(v)) && v@ == s.subrange(q, run_end(s, q))
            && end == run_end(s, q)
    } else {
        token matches Token::Text(Text::Quoted(v)) && qscan(s, q, false) == Some((end, v@))
    }
}

/// A quote is no delimiter, so the run goes past it.
pub proof fn lemma_run_end_after(s: Seq<u8>, p: int)
    requires
        0 <= p < s.len(),
        !is_delim(s[p]),
    ensures
        run_end(s, p) > p,
    decreases s.len() - p,
{
    assert(run_end(s, p) == run_end(s, p + 1));
    if p + 1 < s.len() && !is_delim(s[p + 1]) {
        lemma_run_end_after(s, p + 1);
    } else {
        assert(run_end(s, p + 1) == p + 1);
    }
}

/// The token that reading at offset `p` gives, when reading succeeds.
pub open spec fn token_kind(s: Seq<u8>, p: int) -> TokenView {
    let q = skip_ws(s, p);
    if q >= s.len() {
        TokenView::Eof
    } else if s[q] == 0x28 {
        TokenView::ListStart
    } else if s[q] == 0x29 {
        TokenView::ListEnd
    } else if !has_quote(s, q, run_end(s, q)) {
        TokenView::Unquoted(s.subrange(q, run_end(s, q)))
    } else {
        match qscan(s, q, false) {
            Some((_, v)) => TokenView::Quoted(v),
            None => TokenView::Eof,
        }
    }
}

/// Where reading a token at offset `p` stops, when reading succeeds.
pub open spec fn token_end(s: Seq<u8>, p: int) -> int {
    let q = skip_ws(s, p);
    if q >= s.len() {
        q
    } else if s[q] == 0x28 || s[q] == 0x29 {
        q + 1
    } else if !has_quote(s, q, run_end(s, q)) {
        run_end(s, q)
    } else {
        match qscan(s, q, false) {
            Some((e, _)) => e,
            None => q,
        }
    }
}

/// A token read at `q` is the one that `token_kind` names, and reading
/// stops at `token_end`.
pub proof fn lemma_token_at_kind(s: Seq<u8>, p: int, token: Token, end: int)
    requires
        token_at(s, skip_ws(s, p), token, end),
    ensures
        token@ == token_kind(s, p),
        end == token_end(s, p),
{
}

pub proof fn lemma_skip_ws_bounds(s: Seq<u8>, p: int)
    requires
        0 <= p <= s.len(),
    ensures
        p <= skip_ws(s, p) <= s.len(),
        skip_ws(s, p) < s.len() ==> !is_ws(s[skip_ws(s, p)]),
    decreases s.len() - p,
{
    if p < s.len() && is_ws(s[p]) {
        lemma_skip_ws_bounds(s, p + 1);
    }
}

proof fn lemma_run_end_bounds(s: Seq<u8>, p: int)
    requires
        0 <= p <= s.len(),
    ensures
        p <= run_end(s, p) <= s.len(),
    decreases s.len() - p,
{
    if p < s.len() && !is_delim(s[p]) {
        lemma_run_end_bounds(s, p + 1);
    }
}

pub proof fn lemma_qscan_bounds(s: Seq<u8>, p: int, inq: bool)
    requires
        0 <= p <= s.len(),
    ensures
        qscan(s, p, inq) matches Some((e, _)) ==> p <= e <= s.len(),
    decreases s.len() - p,
{
    if p < s.len() {
        lemma_qscan_bounds(s, p + 1, !inq);
        lemma_qscan_bounds(s, p + 1, inq);
    }
}

/// Reading a token stays within the text, and moves forward unless it
/// reads the end.
pub proof fn lemma_token_end_progress(s: Seq<u8>, p: int)
    requires
        0 <= p <= s.len(),
    ensures
        p <= token_end(s, p) <= s.len(),
        token_kind(s, p) != TokenView::Eof ==> p < token_end(s, p),
{
    lemma_skip_ws_bounds(s, p);
    let q = skip_ws(s, p);
    if q < s.len() && s[q] != 0x28 && s[q] != 0x29 {
        assert(!is_ws(s[q]));
        assert(!is_delim(s[q]));
        lemma_run_end_after(s, q);
        lemma_run_end_bounds(s, q);
        lemma_qscan_bounds(s, q, false);
        if has_quote(s, q, run_end(s, q)) {
            if let Some((e, _)) = qscan(s, q, false) {
                if s[q] == 0x22 {
                    lemma_qscan_bounds(s, q + 1, true);
                } else {
                    lemma_qscan_bounds(s, q + 1, false);
                }
            }
        }
    }
}

/// No byte in `[a, b)` is null or above ASCII.
pub open spec fn plain_bytes(s: Seq<u8>, a: int, b: int) -> bool {
    forall|j: int| a <= j < b ==> s[j] != 0 && #[trigger] s[j] < 0x80
}

/// Reading the text token at `q` succeeds: unquoted, its run passes the
/// string check; quoted, every quote closes, no byte up to its end is null
/// or above ASCII, and its value has at most 255 bytes.
pub open spec fn text_ok(s: Seq<u8>, q: int) -> bool {
    if !has_quote(s, q, run_end(s, q)) {
        checked(s.subrange(q, run_end(s, q)), None) is Ok
    } else {
        qscan(s, q, false) matches Some((e, v)) && plain_bytes(s, q, e) && v.len() <= MAX_STRING_LEN
    }
}

/// Reading a token at `p` succeeds.
pub open spec fn token_ok(s: Seq<u8>, p: int) -> bool {
    let q = skip_ws(s, p);
    q >= s.len() || s[q] == 0x28 || s[q] == 0x29 || text_ok(s, q)
}

/// The text token at `q` ends inside quotes, and no byte to the end is null
/// or above ASCII.
pub open spec fn open_quote(s: Seq<u8>, q: int) -> bool {
    has_quote(s, q, run_end(s, q)) && qscan(s, q, false) is None && plain_bytes(s, q, s.len() as int)
}

/// The location after one byte: a line feed starts a new line at column 0.
pub open spec fn step(loc: Location, b: u8) -> Location {
    if b == 0x0a {
        Location { line: (loc.line + 1) as usize, col: 0 }
    } else {
        Location { line: loc.line, col: (loc.col + 1) as usize }
    }
}

/// The location after the bytes in `[p, q)`, from `loc` at `p`.
pub open spec fn advance(loc: Location, s: Seq<u8>, p: int, q: int) -> Location
    decreases q - p,
{
    if p >= q || p < 0 || q > s.len() {
        loc
    } else {
        step(advance(loc, s, p, q - 1), s[q - 1])
    }
}

/// Bytes that a quoted scan keeps are neither quotes, null nor above ASCII
/// when the bytes scanned are plain.
pub proof fn lemma_qscan_valid(s: Seq<u8>, p: int, inq: bool)
    requires
        0 <= p <= s.len(),
    ensures
        qscan(s, p, inq) matches Some((e, v)) ==> (plain_bytes(s, p, e) ==> all_valid(v)),
    decreases s.len() - p,
{
    if p < s.len() {
        lemma_qscan_valid(s, p + 1, !inq);
        lemma_qscan_valid(s, p + 1, inq);
        crate::text::tokenizer::lemma_qscan_bounds(s, p + 1, inq);
        if let Some((e, v)) = qscan(s, p, inq) {
            if plain_bytes(s, p, e) && !(s[p] == 0x22) && !(!inq && is_delim(s[p])) {
                let (e2, v2) = qscan(s, p + 1, inq)->0;
                assert(plain_bytes(s, p + 1, e2));
                assert(v =~= seq![s[p]] + v2);
                assert(valid_byte(s[p]));
                assert forall|k: int| 0 <= k < v.len() implies valid_byte(#[trigger] v[k]) by {
                    if k > 0 {
                        assert(v[k] == v2[k - 1]);
                    }
                }
            }
            if plain_bytes(s, p, e) && s[p] == 0x22 {
                assert(plain_bytes(s, p + 1, e));
            }
        }
    }
}

/// Scanning across bytes that are no delimiter and no quote ends where
/// scanning from after them ends.
proof fn lemma_qscan_skip(s: Seq<u8>, q: int, h: int)
    requires
        0 <= q <= h <= s.len(),
        forall|j: int| q <= j < h ==> !is_delim(#[trigger] s[j]) && s[j] != 0x22,
    ensures
        qscan(s, q, false) is Some <==> qscan(s, h, false) is Some,
        qscan(s, q, false) matches Some((e, _)) ==> qscan(s, h, false) matches Some((e2, _)) && e == e2,
    decreases h - q,
{
    if q < h {
        lemma_qscan_skip(s, q + 1, h);
    }
}

/// Moving over bytes never moves a location back, while counts stay in
/// range.
pub proof fn lemma_advance_mono(loc: Location, s: Seq<u8>, p: int, q: int)
    requires
        0 <= p <= q <= s.len(),
        loc.line + (q - p) < usize::MAX,
        loc.col + (q - p) < usize::MAX,
    ensures
        advance(loc, s, p, q).at_or_after(loc),
        advance(loc, s, p, q).line <= loc.line + (q - p),
        advance(loc, s, p, q).col <= loc.col + (q - p),
    decreases q - p,
{
    if p < q {
        lemma_advance_mono(loc, s, p, q - 1);
    }
}

/// A text token that reads holds a string that passes the string check.
pub proof fn lemma_text_token_valid(s: Seq<u8>, p: int)
    requires
        0 <= p <= s.len(),
        token_ok(s, p),
    ensures
        token_kind(s, p) matches TokenView::Unquoted(x) ==> checked(x, None) is Ok,
        token_kind(s, p) matches TokenView::Quoted(x) ==> checked(x, None) is Ok,
{
    lemma_skip_ws_bounds(s, p);
    let q = skip_ws(s, p);
    if q < s.len() {
        lemma_qscan_valid(s, q, false);
    }
}

/// A tokenizer for text: it keeps track of the location in the text and
/// does not read scalars.
#[derive(Debug, Clone)]
pub struct Tokenizer<'a> {
    input: &'a [u8],
    pos: usize,
    line: usize,
    col: usize,
}

fn copy_range(s: &[u8], a: usize, b: usize) -> (r: Vec<u8>)
    requires
        a <= b <= s@.len(),
    ensures
        r@ == s@.subrange(a as int, b as int),
{
    let mut v: Vec<u8> = Vec::new();
    let mut i = a;
    while i < b
        invariant
            a <= i <= b <= s@.len(),
            v@ == s@.subrange(a as int, i as int),
        decreases b - i,
    {
        v.push(s[i]);
        i = i + 1;
        assert(v@ =~= s@.subrange(a as int, i as int));
    }
    v
}

impl<'a> Tokenizer<'a> {
    /// The text being read.
    pub closed spec fn data(&self) -> Seq<u8> {
        self.input@
    }

    /// The offset of the next byte to read.
    pub closed spec fn pos(&self) -> int {
        self.pos as int
    }

    /// The location of the next byte to read.
    pub closed spec fn loc(&self) -> Location {
        Location { line: self.line, col: self.col }
    }

    /// The offset and location lie within bounds.
    pub closed spec fn wf(&self) -> bool {
        &&& self.pos <= self.input@.len() < usize::MAX / 4
        &&& 1 <= self.line <= self.pos + 1
        &&& self.col <= 2 * self.pos
    }

    /// A tokenizer that can go on reading stands within its text.
    pub proof fn lemma_wf(&self)
        requires
            self.wf(),
        ensures
            0 <= self.pos() <= self.data().len(),
            self.loc().line + self.data().len() < usize::MAX,
            self.loc().col + self.data().len() < usize::MAX,
    {
    }

    /// A tokenizer at the start of `input`, at line 1, column 0.
    pub fn new(input: &'a [u8]) -> (r: Self)
        requires
            input@.len() < usize::MAX / 4,
        ensures
            r.wf(),
            r.data() == input@,
            r.pos() == 0,
            r.loc() == (Location { line: 1, col: 0 }),
    {
        Tokenizer { input, pos: 0, line: 1, col: 0 }
    }

    /// The location of the next byte to read.
    pub fn location(&self) -> (r: Location)
        ensures
            r == self.loc(),
    {
        Location::new(self.line, self.col)
    }

    fn read_text(&mut self) -> (r: Result<(Text, usize), Error>)
        requires
            old(self).wf(),
            old(self).pos < old(self).input@.len(),
            !is_delim(old(self).input@[old(self).pos as int]),
        ensures
            final(self).input == old(self).input,
            final(self).pos == old(self).pos,
            final(self).loc().at_or_after(old(self).loc()),
            r matches Ok((t, end)) ==> old(self).pos < end <= old(self).data().len()
                && token_at(old(self).data(), old(self).pos as int, Token::Text(t), end as int)
                && final(self).col <= 2 * end && 1 <= final(self).line <= end + 1,
            r matches Err(e) ==> (e.location matches Some(l) && l.at_or_after(old(self).loc())),
            text_ok(old(self).input@, old(self).pos as int) <==> r is Ok,
            open_quote(old(self).input@, old(self).pos as int) ==> (r matches Err(e) && e.code is EofWhileParsingQuote),
    {
        let ghost s = self.input@;
        let str_loc = self.location();
        let start = self.pos;
        let mut i = start;
        while i < self.input.len()
            invariant
                self.input == old(self).input,
                self.pos == old(self).pos,
                self.input@ == s,
                self.line == old(self).line,
                start == old(self).pos,
                start <= i <= s.len() < usize::MAX / 4,
                !is_delim(s[start as int]),
                1 <= self.line <= start + 1,
                self.col == old(self).col + (i - start),
                old(self).col <= 2 * start,
                str_loc == old(self).loc(),
                run_end(s, start as int) == run_end(s, i as int),
                forall|j: int| start <= j < i ==> !is_delim(#[trigger] s[j]) && s[j] != 0x22,
            decreases s.len() - i,
        {
            let b = self.input[i];
            proof {
                if !is_delim(b) {
                    lemma_run_end_after(s, i as int);
                    lemma_qscan_skip(s, start as int, i as int);
                    lemma_qscan_bounds(s, i as int + 1, false);
                    lemma_qscan_bounds(s, i as int + 1, true);
                    lemma_run_end_bounds(s, start as int);
                    lemma_run_end_bounds(s, i as int);
                    assert(run_end(s, start as int) > i);
                    let run = s.subrange(start as int, run_end(s, start as int));
                    let k = i as int - start as int;
                    assert(run[k] == s[i as int]);
                    if b == 0 || b >= 0x80 {
                        assert(!valid_byte(run[k]));
                        assert(!all_valid(run));
                        assert(!plain_bytes(s, start as int, s.len() as int));
                        if let Some((e, v)) = qscan(s, start as int, false) {
                            assert(e > i);
                            assert(!plain_bytes(s, start as int, e));
                        }
                    }
                }
            }
            if b == 0x22 {
                proof {
                    lemma_run_end_after(s, i as int);
                }
                let r = self.read_quoted_text(start, Ghost(i as int));
                proof {
                    assert(has_quote(s, start as int, run_end(s, start as int)));
                }
                return r;
            }
            if b == 0x20 || b == 0x09 || b == 0x0d || b == 0x0a || b == 0x28 || b == 0x29 {
                proof {
                    assert(run_end(s, i as int) == i);
                    assert(!has_quote(s, start as int, i as int));
                }
                let value = copy_range(self.input, start, i);
                from_raw(value.as_slice(), str_loc)?;
                return Ok((Text::Unquoted(value), i));
            }
            if b == 0 {
                return Err(Error::new(ErrorCode::StringContainsNull, Some(self.location())));
            }
            if b >= 0x80 {
                return Err(Error::new(ErrorCode::StringContainsInvalidChar, Some(self.location())));
            }
            self.col = self.col + 1;
            i = i + 1;
        }
        proof {
            assert(run_end(s, i as int) == i);
            assert(!has_quote(s, start as int, i as int));
        }
        let value = copy_range(self.input, start, i);
        from_raw(value.as_slice(), str_loc)?;
        Ok((Text::Unquoted(value), i))
    }

    /// Read the next token, skipping whitespace before it.
    pub fn read_token(&mut self) -> (r: Result<Span, Error>)
        requires
            old(self).wf(),
        ensures
            r is Ok ==> final(self).wf(),
            final(self).data() == old(self).data(),
            final(self).pos() >= old(self).pos(),
            final(self).loc().at_or_after(old(self).loc()),
            r matches Ok(span) ==> token_at(old(self).data(), skip_ws(old(self).data(), old(self).pos()), span.token, final(self).pos())
                && span.loc.at_or_after(old(self).loc()) && final(self).loc().at_or_after(span.loc),
            r matches Err(e) ==> (e.location matches Some(l) && l.at_or_after(old(self).loc())),
            r matches Ok(span) && !(span.token is Eof) ==> final(self).pos() > old(self).pos(),
            r matches Ok(span) ==> span.loc == advance(old(self).loc(), old(self).data(), old(self).pos(), skip_ws(old(self).data(), old(self).pos())),
            r matches Err(e) ==> (e.location matches Some(l) && l.at_or_after(
                advance(old(self).loc(), old(self).data(), old(self).pos(), skip_ws(old(self).data(), old(self).pos())),
            )),
            token_ok(old(self).data(), old(self).pos()) <==> r is Ok,
            ({
                let q = skip_ws(old(self).data(), old(self).pos());
                q < old(self).data().len() && old(self).data()[q] != 0x28 && old(self).data()[q] != 0x29
                    && open_quote(old(self).data(), q)
            }) ==> (r matches Err(e) && e.code is EofWhileParsingQuote),
            final(self).pos() <= final(self).data().len(),
            r matches Ok(span) && span.token is Eof ==> final(self).pos() == final(self).data().len(),
            ({
                let q = skip_ws(old(self).data(), old(self).pos());
                q >= old(self).data().len() || old(self).data()[q] == 0x28 || old(self).data()[q] == 0x29
            }) ==> r is Ok,
    {
        let ghost s = self.input@;
        let mut i = self.pos;
        while i < self.input.len()
            invariant
                self.input@ == s,
                self.input == old(self).input,
                self.pos == old(self).pos,
                old(self).pos <= i <= s.len() < usize::MAX / 4,
                1 <= self.line <= i + 1,
                self.col <= 2 * i,
                self.loc().at_or_after(old(self).loc()),
                skip_ws(s, old(self).pos as int) == skip_ws(s, i as int),
                self.loc() == advance(old(self).loc(), s, old(self).pos as int, i as int),
            decreases s.len() - i,
        {
            let b = self.input[i];
            proof {
                if !is_ws(b) {
                    assert(skip_ws(s, i as int) == i as int);
                } else {
                    assert(skip_ws(s, i as int) == skip_ws(s, i as int + 1));
                }
            }
            if b == 0x28 || b == 0x29 {
                self.pos = i + 1;
                let loc = self.location();
                self.col = self.col + 1;
                let token = if b == 0x28 { Token::ListStart } else { Token::ListEnd };
                return Ok(Span::new(token, loc));
            } else if b == 0x0a {
                self.line = self.line + 1;
                self.col = 0;
                assert(self.loc() == advance(old(self).loc(), s, old(self).pos as int, i as int + 1));
            } else if b == 0x20 || b == 0x09 || b == 0x0d {
                self.col = self.col + 1;
                assert(self.loc() == advance(old(self).loc(), s, old(self).pos as int, i as int + 1));
            } else {
                self.pos = i;
                let loc = self.location();
                let (text, end) = self.read_text()?;
                self.pos = end;
                return Ok(Span::new(Token::Text(text), loc));
            }
            i = i + 1;
        }
        self.pos = i;
        Ok(Span::new(Token::Eof, self.location()))
    }

    /// The location of the next token: after the whitespace that comes
    /// first.
    pub fn next_location(&self) -> (r: Location)
        requires
            self.wf(),
        ensures
            r == advance(self.loc(), self.data(), self.pos(), skip_ws(self.data(), self.pos())),
    {
        let ghost s = self.input@;
        let mut line = self.line;
        let mut col = self.col;
        let mut i = self.pos;
        while i < self.input.len()
            invariant
                self.input@ == s,
                self.wf(),
                self.pos <= i <= s.len() < usize::MAX / 4,
                1 <= line <= i + 1,
                col <= 2 * i,
                skip_ws(s, self.pos as int) == skip_ws(s, i as int),
                (Location { line, col }) == advance(self.loc(), s, self.pos as int, i as int),
            decreases s.len() - i,
        {
            let b = self.input[i];
            if b == 0x0a {
                line = line + 1;
                col = 0;
            } else if b == 0x20 || b == 0x09 || b == 0x0d {
                col = col + 1;
            } else {
                assert(skip_ws(s, i as int) == i as int);
                return Location::new(line, col);
            }
            assert(skip_ws(s, i as int) == skip_ws(s, i as int + 1));
            assert((Location { line, col }) == advance(self.loc(), s, self.pos as int, i as int + 1));
            i = i + 1;
        }
        Location::new(line, col)
    }

    fn read_quoted_text(&mut self, start: usize, Ghost(here): Ghost<int>) -> (r: Result<(Text, usize), Error>)
        requires
            old(self).pos <= old(self).input@.len() < usize::MAX / 4,
            1 <= old(self).line <= start + 1,
            start <= here < old(self).input@.len(),
            old(self).col <= start + here,
            old(self).input@[here] == 0x22,
            forall|j: int| start <= j < here ==> !is_delim(#[trigger] old(self).input@[j]) && old(self).input@[j] != 0x22,
        ensures
            final(self).input == old(self).input,
            final(self).pos == old(self).pos,
            final(self).loc().at_or_after(old(self).loc()),
            r matches Ok((t, end)) ==> here < end <= old(self).data().len() && (t matches Text::Quoted(v)
                && qscan(old(self).data(), start as int, false) == Some((end as int, v@)))
                && final(self).col <= 2 * end && 1 <= final(self).line <= end + 1,
            r matches Err(e) ==> (e.location matches Some(l) && l.at_or_after(old(self).loc())),
            (qscan(old(self).input@, start as int, false) matches Some((e, v)) && plain_bytes(old(self).input@, start as int, e)
                && v.len() <= MAX_STRING_LEN) ==> r is Ok,
            qscan(old(self).input@, start as int, false) is None && plain_bytes(old(self).input@, start as int, old(self).input@.len() as int)
                ==> (r matches Err(e) && e.code is EofWhileParsingQuote),
            r is Ok ==> (qscan(old(self).input@, start as int, false) matches Some((e, v)) && plain_bytes(old(self).input@, start as int, e)
                && v.len() <= MAX_STRING_LEN),
    {
        let ghost s = self.input@;
        let str_loc = self.location();
        let mut buffer: Vec<u8> = Vec::new();
        let mut i = start;
        let mut inq = false;
        while i < self.input.len()
            invariant
                self.input == old(self).input,
                self.pos == old(self).pos,
                self.input@ == s,
                start <= i <= s.len() < usize::MAX / 4,
                start <= here < s.len(),
                s[here] == 0x22,
                forall|j: int| start <= j < here ==> !is_delim(#[trigger] s[j]) && s[j] != 0x22,
                i <= here ==> !inq,
                self.loc().at_or_after(old(self).loc()),
                str_loc == old(self).loc(),
                1 <= self.line <= i + 1,
                self.line == old(self).line ==> self.col <= old(self).col + (i - start),
                self.line != old(self).line ==> self.col <= i,
                old(self).col <= start + here,
                plain_bytes(s, start as int, i as int),
                qscan(s, start as int, false) == match qscan(s, i as int, inq) {
                    Some((e, v)) => Some((e, buffer@ + v)),
                    None => None,
                },
            decreases s.len() - i,
        {
            let b = self.input[i];
            let ghost buf0 = buffer@;
            let ghost inq0 = inq;
            proof {
                lemma_qscan_bounds(s, i as int + 1, inq);
                lemma_qscan_bounds(s, i as int + 1, !inq);
                lemma_qscan_valid(s, start as int, false);
            }
            if inq {
                if b == 0x22 {
                    self.col = self.col + 1;
                    inq = false;
                } else if b == 0 {
                    return Err(Error::new(ErrorCode::StringContainsNull, Some(self.location())));
                } else if b == 0x0a {
                    self.line = self.line + 1;
                    self.col = 0;
                    buffer.push(b);
                } else if b < 0x80 {
                    self.col = self.col + 1;
                    buffer.push(b);
                } else {
                    return Err(Error::new(ErrorCode::StringContainsInvalidChar, Some(self.location())));
                }
            } else {
                if b == 0x22 {
                    self.col = self.col + 1;
                    inq = true;
                } else if b == 0x20 || b == 0x09 || b == 0x0d || b == 0x0a || b == 0x28 || b == 0x29 {
                    from_raw(buffer.as_slice(), str_loc)?;
                    assert(buffer@ + Seq::<u8>::empty() =~= buffer@);
                    return Ok((Text::Quoted(buffer), i));
                } else if b == 0 {
                    return Err(Error::new(ErrorCode::StringContainsNull, Some(self.location())));
                } else if b < 0x80 {
                    buffer.push(b);
                    self.col = self.col + 1;
                } else {
                    return Err(Error::new(ErrorCode::StringContainsInvalidChar, Some(self.location())));
                }
            }
            proof {
                if b != 0x22 {
                    match qscan(s, i as int + 1, inq) {
                        Some((e, v)) => {
                            assert(buf0 + (seq![b] + v) =~= buffer@ + v);
                        },
                        None => {},
                    }
                } else {
                    assert(buffer@ == buf0);
                }
            }
            i = i + 1;
        }
        if inq {
            return Err(Error::new(ErrorCode::EofWhileParsingQuote, Some(self.location())));
        }
        proof {
            lemma_qscan_valid(s, start as int, false);
            assert(buffer@ + Seq::<u8>::empty() =~= buffer@);
        }
        from_raw(buffer.as_slice(), str_loc)?;
        assert(buffer@ + Seq::<u8>::empty() =~= buffer@);
        Ok((Text::Quoted(buffer), i))
    }
}

} // verus!
