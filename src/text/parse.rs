//! Reading scalars from text tokens.
use vstd::prelude::*;
use crate::text::error::{Error, ErrorCode, IntErrorKind, Location, TokenType};
use crate::text::tokenizer::{Span, Text, Token};

verus! {

/// A scalar read where any value may stand.
#[derive(Debug, Clone, PartialEq, Eq)]
pub enum Any {
    /// An integer.
    Int(i32),
    /// A float, as its decimal text: a sign, digits and at most one point,
    /// naming a finite binary32 value.
    Float(Vec<u8>),
    /// A string.
    String(Vec<u8>),
    /// The start of a list.
    ListStart,
}

/// A decimal digit.
pub open spec fn is_digit(b: u8) -> bool {
    0x30 <= b <= 0x39
}

/// Reading digits of `d` from `i`, with `acc` the value so far, and `limit`
/// the largest magnitude: the magnitude, or why there is none. The first
/// thing wrong, left to right, decides: a byte that is no digit, or a value
/// that passes the limit.
pub open spec fn scan_digits(d: Seq<u8>, i: int, acc: int, limit: int) -> Result<int, IntErrorKind>
    decreases d.len() - i,
{
    if i < 0 || i >= d.len() {
        Ok(acc)
    } else if !is_digit(d[i]) {
        Err(IntErrorKind::InvalidDigit)
    } else if acc * 10 + (d[i] - 0x30) > limit {
        Err(if limit == 0x7fff_ffff { IntErrorKind::PosOverflow } else { IntErrorKind::NegOverflow })
    } else {
        scan_digits(d, i + 1, acc * 10 + (d[i] - 0x30), limit)
    }
}

/// Base-10 reading of a 32-bit integer: an optional sign, then one or more
/// digits.
pub open spec fn parsed_i32(s: Seq<u8>) -> Result<int, IntErrorKind> {
    if s.len() == 0 {
        Err(IntErrorKind::Empty)
    } else if s.len() == 1 && (s[0] == 0x2b || s[0] == 0x2d) {
        Err(IntErrorKind::InvalidDigit)
    } else if s[0] == 0x2d {
        match scan_digits(s, 1, 0, 0x8000_0000) {
            Ok(m) => Ok(-m),
            Err(k) => Err(k),
        }
    } else if s[0] == 0x2b {
        scan_digits(s, 1, 0, 0x7fff_ffff)
    } else {
        scan_digits(s, 0, 0, 0x7fff_ffff)
    }
}

/// The largest integer part of a decimal that rounds to a finite binary32
/// value is one less than this (2^128 - 2^103).
pub const FLOAT_LIMIT: u128 = 340282356779733661637539395458142568448;

/// The bytes after an optional sign.
pub open spec fn unsigned_part(s: Seq<u8>) -> Seq<u8> {
    if s.len() > 0 && (s[0] == 0x2b || s[0] == 0x2d) {
        s.subrange(1, s.len() as int)
    } else {
        s
    }
}

/// The float grammar: an optional sign, then digits and at most one point,
/// with at least one digit.
pub open spec fn float_grammar(s: Seq<u8>) -> bool {
    let u = unsigned_part(s);
    &&& forall|i: int| 0 <= i < u.len() ==> is_digit(#[trigger] u[i]) || u[i] == 0x2e
    &&& forall|i: int, j: int| #![trigger u[i], u[j]] 0 <= i < j < u.len() && u[i] == 0x2e ==> u[j] != 0x2e
    &&& exists|i: int| 0 <= i < u.len() && is_digit(#[trigger] u[i])
}

/// The value of the digits of `u` before index `k`, read as an integer.
pub open spec fn digits_value(u: Seq<u8>, k: int) -> int
    decreases k,
{
    if k <= 0 || k > u.len() {
        0
    } else {
        digits_value(u, k - 1) * 10 + (u[k - 1] - 0x30)
    }
}

/// The index of the point in `u`, or its length.
pub open spec fn point_index(u: Seq<u8>) -> int {
    if exists|i: int| 0 <= i < u.len() && u[i] == 0x2e {
        choose|i: int| 0 <= i < u.len() && u[i] == 0x2e
    } else {
        u.len() as int
    }
}

/// A decimal text that names a finite binary32 value: it follows the float
/// grammar, and its integer part is below the limit of rounding to infinity.
pub open spec fn finite_float(s: Seq<u8>) -> bool {
    float_grammar(s) && digits_value(unsigned_part(s), point_index(unsigned_part(s))) < FLOAT_LIMIT
}

fn scan(d: &[u8], start: usize, limit: i64) -> (r: Result<i64, IntErrorKind>)
    requires
        start <= d@.len(),
        limit == 0x7fff_ffff || limit == 0x8000_0000,
    ensures
        scan_digits(d@, start as int, 0, limit as int) matches Ok(m) ==> r == Ok::<i64, IntErrorKind>(m as i64) && 0 <= m <= limit,
        scan_digits(d@, start as int, 0, limit as int) matches Err(k) ==> r == Err::<i64, IntErrorKind>(k),
{
    let mut acc: i64 = 0;
    let mut i = start;
    while i < d.len()
        invariant
            start <= i <= d@.len(),
            limit == 0x7fff_ffff || limit == 0x8000_0000,
            0 <= acc <= limit,
            scan_digits(d@, start as int, 0, limit as int) == scan_digits(d@, i as int, acc as int, limit as int),
        decreases d@.len() - i,
    {
        let b = d[i];
        if !(0x30 <= b && b <= 0x39) {
            return Err(IntErrorKind::InvalidDigit);
        }
        let next = acc * 10 + (b - 0x30) as i64;
        if next > limit {
            return Err(if limit == 0x7fff_ffff { IntErrorKind::PosOverflow } else { IntErrorKind::NegOverflow });
        }
        acc = next;
        i = i + 1;
    }
    Ok(acc)
}

fn copy_bytes(s: &[u8]) -> (r: Vec<u8>)
    ensures
        r@ == s@,
{
    let mut v: Vec<u8> = Vec::new();
    let mut i: usize = 0;
    while i < s.len()
        invariant
            i <= s@.len(),
            v@ == s@.subrange(0, i as int),
        decreases s@.len() - i,
    {
        v.push(s[i]);
        i = i + 1;
        assert(v@ =~= s@.subrange(0, i as int));
    }
    assert(v@ =~= s@);
    v
}

/// Read a base-10 integer from text; errors carry `loc`.
pub fn parse_i32_text(s: &[u8], loc: Location) -> (r: Result<i32, Error>)
    ensures
        parsed_i32(s@) matches Ok(v) ==> r == Ok::<i32, Error>(v as i32),
        parsed_i32(s@) matches Err(k) ==> (r matches Err(e) && e.location == Some(loc) && (e.code matches ErrorCode::ParseIntError { kind, s: t } && kind == k && t@ == s@)),
{
    let res = if s.len() == 0 {
        Err(IntErrorKind::Empty)
    } else if s.len() == 1 && (s[0] == 0x2b || s[0] == 0x2d) {
        Err(IntErrorKind::InvalidDigit)
    } else if s[0] == 0x2d {
        match scan(s, 1, 0x8000_0000) {
            Ok(m) => Ok((0 - m) as i32),
            Err(k) => Err(k),
        }
    } else if s[0] == 0x2b {
        match scan(s, 1, 0x7fff_ffff) {
            Ok(m) => Ok(m as i32),
            Err(k) => Err(k),
        }
    } else {
        match scan(s, 0, 0x7fff_ffff) {
            Ok(m) => Ok(m as i32),
            Err(k) => Err(k),
        }
    };
    match res {
        Ok(v) => Ok(v),
        Err(kind) => Err(Error::new(ErrorCode::ParseIntError { kind, s: copy_bytes(s) }, Some(loc))),
    }
}

proof fn lemma_digits_value_step(u: Seq<u8>, k: int)
    requires
        0 <= k < u.len(),
        forall|j: int| 0 <= j <= k ==> is_digit(#[trigger] u[j]),
    ensures
        digits_value(u, k + 1) == digits_value(u, k) * 10 + (u[k] - 0x30),
        digits_value(u, k) >= 0,
    decreases k,
{
    if k > 0 {
        lemma_digits_value_step(u, k - 1);
    }
}

/// Check that a decimal text names a finite binary32 value, under the float
/// grammar; errors carry `loc`.
pub fn parse_f32_text(s: &[u8], loc: Location) -> (r: Result<Vec<u8>, Error>)
    ensures
        finite_float(s@) ==> (r matches Ok(v) && v@ == s@),
        !finite_float(s@) ==> (r matches Err(e) && e.location == Some(loc) && (e.code matches ErrorCode::ParseFloatError { s: t } && t@ == s@)),
{
    let off: usize = if s.len() > 0 && (s[0] == 0x2b || s[0] == 0x2d) { 1 } else { 0 };
    let ghost u = unsigned_part(s@);
    assert(u =~= s@.subrange(off as int, s@.len() as int));
    let mut i = off;
    let mut seen = false;
    let mut has_digit = false;
    let mut ip: u128 = 0;
    let ghost mut pidx: int = 0;
    while i < s.len()
        invariant
            off <= i <= s@.len(),
            u == s@.subrange(off as int, s@.len() as int),
            u == unsigned_part(s@),
            forall|j: int| 0 <= j < i - off ==> is_digit(#[trigger] u[j]) || u[j] == 0x2e,
            seen ==> 0 <= pidx < i - off && u[pidx] == 0x2e && forall|j: int| 0 <= j < i - off && j != pidx ==> #[trigger] u[j] != 0x2e,
            !seen ==> forall|j: int| 0 <= j < i - off ==> #[trigger] u[j] != 0x2e,
            has_digit == exists|j: int| 0 <= j < i - off && is_digit(#[trigger] u[j]),
            ip <= FLOAT_LIMIT,
            ip == FLOAT_LIMIT <==> digits_value(u, if seen { pidx } else { i - off }) >= FLOAT_LIMIT,
            ip < FLOAT_LIMIT ==> ip == digits_value(u, if seen { pidx } else { i - off }),
        decreases s@.len() - i,
    {
        let b = s[i];
        let ghost k = i - off;
        if b == 0x2e {
            if seen {
                proof {
                    assert(u[pidx] == 0x2e && u[k] == 0x2e && 0 <= pidx < k < u.len());
                    assert(unsigned_part(s@) == u);
                    assert(!float_grammar(s@));
                }
                return Err(Error::new(ErrorCode::ParseFloatError { s: copy_bytes(s) }, Some(loc)));
            }
            seen = true;
            proof {
                pidx = k;
                assert(!is_digit(u[k]));
                if has_digit {
                    let j = choose|j: int| 0 <= j < k && is_digit(#[trigger] u[j]);
                    assert(0 <= j < k + 1 && is_digit(u[j]));
                }
            }
        } else if 0x30 <= b && b <= 0x39 {
            proof {
                if !seen {
                    lemma_digits_value_step(u, k);
                }
                assert(is_digit(u[k]));
            }
            has_digit = true;
            if !seen {
                let d = (b - 0x30) as u128;
                if ip >= FLOAT_LIMIT / 10 + 1 {
                    ip = FLOAT_LIMIT;
                } else {
                    let n = ip * 10 + d;
                    ip = if n >= FLOAT_LIMIT { FLOAT_LIMIT } else { n };
                }
            }
        } else {
            proof {
                assert(!(is_digit(u[k]) || u[k] == 0x2e) && 0 <= k < u.len());
                assert(unsigned_part(s@) == u);
                assert(!float_grammar(s@));
            }
            return Err(Error::new(ErrorCode::ParseFloatError { s: copy_bytes(s) }, Some(loc)));
        }
        i = i + 1;
    }
    proof {
        assert(i - off == u.len());
        if seen {
            assert(point_index(u) == pidx) by {
                assert(0 <= pidx < u.len() && u[pidx] == 0x2e);
                let q = choose|q: int| 0 <= q < u.len() && u[q] == 0x2e;
                if q != pidx {
                    assert(u[q] != 0x2e);
                }
            }
        } else {
            assert(point_index(u) == u.len());
        }
    }
    if has_digit && ip < FLOAT_LIMIT {
        Ok(copy_bytes(s))
    } else {
        Err(Error::new(ErrorCode::ParseFloatError { s: copy_bytes(s) }, Some(loc)))
    }
}

/// The error for finding a span that is not text where text was expected.
pub open spec fn expected_error(span: Span, expected: TokenType) -> Error {
    Error {
        code: ErrorCode::ExpectedToken { expected, found: span.token.token_type() },
        location: Some(span.loc),
    }
}

/// Read an integer from a span: quoted text is refused.
pub fn parse_i32(span: Span) -> (r: Result<i32, Error>)
    ensures
        span.token matches Token::Text(Text::Unquoted(t)) ==> (parsed_i32(t@) matches Ok(v) ==> r == Ok::<i32, Error>(v as i32)),
        span.token matches Token::Text(Text::Unquoted(t)) ==> (parsed_i32(t@) matches Err(k) ==> (r matches Err(e) && e.location == Some(span.loc)
            && (e.code matches ErrorCode::ParseIntError { kind, s } && kind == k && s@ == t@))),
        span.token is Text && span.token->Text_0 is Quoted ==> r == Err::<i32, Error>(Error { code: ErrorCode::QuotedString, location: Some(span.loc) }),
        !(span.token is Text) ==> r == Err::<i32, Error>(expected_error(span, TokenType::Text)),
{
    match span.token {
        Token::Text(Text::Quoted(_)) => Err(Error::new(ErrorCode::QuotedString, Some(span.loc))),
        Token::Text(Text::Unquoted(s)) => parse_i32_text(s.as_slice(), span.loc),
        _ => Err(span.expected(TokenType::Text)),
    }
}

/// Read a float from a span, as its checked decimal text: quoted text is
/// refused.
pub fn parse_f32(span: Span) -> (r: Result<Vec<u8>, Error>)
    ensures
        span.token matches Token::Text(Text::Unquoted(t)) ==> (finite_float(t@) ==> (r matches Ok(v) && v@ == t@)),
        span.token matches Token::Text(Text::Unquoted(t)) ==> (!finite_float(t@) ==> (r matches Err(e) && e.location == Some(span.loc)
            && (e.code matches ErrorCode::ParseFloatError { s } && s@ == t@))),
        span.token is Text && span.token->Text_0 is Quoted ==> r == Err::<Vec<u8>, Error>(Error { code: ErrorCode::QuotedString, location: Some(span.loc) }),
        !(span.token is Text) ==> r == Err::<Vec<u8>, Error>(expected_error(span, TokenType::Text)),
{
    match span.token {
        Token::Text(Text::Quoted(_)) => Err(Error::new(ErrorCode::QuotedString, Some(span.loc))),
        Token::Text(Text::Unquoted(s)) => parse_f32_text(s.as_slice(), span.loc),
        _ => Err(span.expected(TokenType::Text)),
    }
}

/// Read a string from a span, quoted or not.
pub fn parse_string(span: Span) -> (r: Result<Vec<u8>, Error>)
    ensures
        span.token matches Token::Text(Text::Unquoted(t)) ==> (r matches Ok(v) && v@ == t@),
        span.token matches Token::Text(Text::Quoted(t)) ==> (r matches Ok(v) && v@ == t@),
        !(span.token is Text) ==> r == Err::<Vec<u8>, Error>(expected_error(span, TokenType::Text)),
{
    match span.token {
        Token::Text(Text::Quoted(s)) => Ok(s),
        Token::Text(Text::Unquoted(s)) => Ok(s),
        _ => Err(span.expected(TokenType::Text)),
    }
}

/// What unquoted text is, where any scalar may stand: an integer if it reads
/// as one, else a float if it reads as one, else a string.
pub open spec fn any_of(t: Seq<u8>) -> AnyView {
    if parsed_i32(t) is Ok {
        AnyView::Int(parsed_i32(t)->Ok_0 as i32)
    } else if finite_float(t) {
        AnyView::Float(t)
    } else {
        AnyView::String(t)
    }
}

/// What an [`Any`] holds.
pub enum AnyView {
    Int(i32),
    Float(Seq<u8>),
    String(Seq<u8>),
    ListStart,
}

impl Any {
    /// What the scalar holds.
    pub open spec fn view(&self) -> AnyView {
        match self {
            Any::Int(v) => AnyView::Int(*v),
            Any::Float(t) => AnyView::Float(t@),
            Any::String(t) => AnyView::String(t@),
            Any::ListStart => AnyView::ListStart,
        }
    }
}

/// Read any scalar, or the start of a list, from a span. Quoted text is
/// always a string.
pub fn parse_any(span: Span) -> (r: Result<Any, Error>)
    ensures
        span.token matches Token::Text(Text::Unquoted(t)) ==> (r matches Ok(a) && a@ == any_of(t@)),
        span.token matches Token::Text(Text::Quoted(t)) ==> (r matches Ok(a) && a@ == AnyView::String(t@)),
        span.token is ListStart ==> (r matches Ok(a) && a@ == AnyView::ListStart),
        span.token is ListEnd || span.token is Eof ==> r == Err::<Any, Error>(expected_error(span, TokenType::TextOrListStart)),
{
    match span.token {
        Token::Text(Text::Quoted(s)) => Ok(Any::String(s)),
        Token::Text(Text::Unquoted(s)) => {
            if let Ok(v) = parse_i32_text(s.as_slice(), span.loc) {
                return Ok(Any::Int(v));
            }
            if let Ok(f) = parse_f32_text(s.as_slice(), span.loc) {
                return Ok(Any::Float(f));
            }
            Ok(Any::String(s))
        },
        Token::ListStart => Ok(Any::ListStart),
        _ => Err(span.expected(TokenType::TextOrListStart)),
    }
}

} // verus!
