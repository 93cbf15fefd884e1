//! The string alphabet of the text format, and when a string is quoted.
use vstd::prelude::*;
use crate::text::error::{Error, ErrorCode, Location};

verus! {

/// The largest number of bytes in a string.
pub const MAX_STRING_LEN: usize = 255;

/// A byte that separates tokens: space, tab, CR, LF and the parentheses.
pub open spec fn is_delim(b: u8) -> bool {
    b == 0x20 || b == 0x09 || b == 0x0d || b == 0x0a || b == 0x28 || b == 0x29
}

/// A byte that may appear in a number: a sign, a point or a digit.
pub open spec fn is_number_byte(b: u8) -> bool {
    b == 0x2d || b == 0x2b || b == 0x2e || (0x30 <= b <= 0x39)
}

/// A byte that may stand in a string: not null, not a quote, ASCII.
pub open spec fn valid_byte(b: u8) -> bool {
    b != 0 && b != 0x22 && b < 0x80
}

/// `i` is the first byte of `s` that may not stand in a string.
pub open spec fn first_invalid(s: Seq<u8>, i: int) -> bool {
    0 <= i < s.len() && !valid_byte(s[i]) && forall|j: int| 0 <= j < i ==> valid_byte(#[trigger] s[j])
}

/// The error for a byte that may not stand in a string.
pub open spec fn invalid_char_code(b: u8) -> ErrorCode {
    if b == 0 {
        ErrorCode::StringContainsNull
    } else if b == 0x22 {
        ErrorCode::StringContainsQuote
    } else {
        ErrorCode::StringContainsInvalidChar
    }
}

/// Every byte may stand in a string.
pub open spec fn all_valid(s: Seq<u8>) -> bool {
    forall|i: int| 0 <= i < s.len() ==> valid_byte(#[trigger] s[i])
}

/// What checking a string gives: the error (with location `loc`) for the
/// first thing wrong with it, or `Ok`.
pub open spec fn checked(s: Seq<u8>, loc: Option<Location>) -> Result<(), Error> {
    if s.len() > MAX_STRING_LEN {
        Err(Error { code: ErrorCode::StringTooLong, location: loc })
    } else if all_valid(s) {
        Ok(())
    } else {
        let i = choose|i: int| first_invalid(s, i);
        Err(Error { code: invalid_char_code(s[i]), location: loc })
    }
}

/// A string must be quoted when written: it is empty, holds a delimiter, or
/// could be read as a number.
pub open spec fn needs_quoting(s: Seq<u8>) -> bool {
    s.len() == 0 || (exists|i: int| 0 <= i < s.len() && is_delim(#[trigger] s[i])) || (forall|i: int|
        0 <= i < s.len() ==> is_number_byte(#[trigger] s[i]))
}

fn check(s: &[u8], loc: Option<Location>) -> (r: Result<(), Error>)
    ensures
        r == checked(s@, loc),
{
    if s.len() > MAX_STRING_LEN {
        return Err(Error::new(ErrorCode::StringTooLong, loc));
    }
    let mut i: usize = 0;
    while i < s.len()
        invariant
            i <= s@.len() <= MAX_STRING_LEN,
            forall|j: int| 0 <= j < i ==> valid_byte(#[trigger] s@[j]),
        decreases s@.len() - i,
    {
        let b = s[i];
        if b == 0 || b == 0x22 || b >= 0x80 {
            let code = if b == 0 {
                ErrorCode::StringContainsNull
            } else if b == 0x22 {
                ErrorCode::StringContainsQuote
            } else {
                ErrorCode::StringContainsInvalidChar
            };
            proof {
                assert(first_invalid(s@, i as int));
                assert(!all_valid(s@));
                let k = choose|k: int| first_invalid(s@, k);
                if k < i {
                    assert(valid_byte(s@[k]));
                } else if i < k {
                    assert(valid_byte(s@[i as int]));
                }
            }
            return Err(Error::new(code, loc));
        }
        i = i + 1;
    }
    Ok(())
}

/// Check a string read from text, reporting errors at `loc`.
pub fn from_raw(s: &[u8], loc: Location) -> (r: Result<(), Error>)
    ensures
        r == checked(s@, Some(loc)),
{
    check(s, Some(loc))
}

/// Check a string to be written, and tell whether it must be quoted; errors
/// carry no location.
pub fn to_raw(s: &[u8]) -> (r: Result<bool, Error>)
    ensures
        s@.len() == 0 ==> r == Ok::<bool, Error>(true),
        s@.len() > 0 ==> (checked(s@, None) matches Err(e) ==> r == Err::<bool, Error>(e)),
        s@.len() > 0 ==> (checked(s@, None) is Ok ==> r == Ok::<bool, Error>(needs_quoting(s@))),
{
    if s.len() == 0 {
        return Ok(true);
    }
    check(s, None)?;
    let mut has_delim = false;
    let mut possible_number = true;
    let mut i: usize = 0;
    while i < s.len()
        invariant
            i <= s@.len(),
            has_delim == (exists|j: int| 0 <= j < i && is_delim(#[trigger] s@[j])),
            possible_number == (forall|j: int| 0 <= j < i ==> is_number_byte(#[trigger] s@[j])),
        decreases s@.len() - i,
    {
        let b = s[i];
        if b == 0x20 || b == 0x09 || b == 0x0d || b == 0x0a || b == 0x28 || b == 0x29 {
            has_delim = true;
        }
        if !(b == 0x2d || b == 0x2b || b == 0x2e || (0x30 <= b && b <= 0x39)) {
            possible_number = false;
        }
        i = i + 1;
        assert(has_delim == (exists|j: int| 0 <= j < i && is_delim(#[trigger] s@[j]))) by {
            if has_delim && !is_delim(s@[i - 1]) {
                let j = choose|j: int| 0 <= j < i - 1 && is_delim(#[trigger] s@[j]);
                assert(0 <= j < i && is_delim(s@[j]));
            }
        }
    }
    Ok(has_delim || possible_number)
}

} // verus!
