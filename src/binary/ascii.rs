//! The string alphabet of the binary format.
use vstd::prelude::*;
use vstd::string::StringSliceAdditionalSpecFns;
use crate::binary::error::{Error, ErrorCode};
use crate::binary::wire::MAX_STRING_LEN;

verus! {

/// A byte that may stand in a string: not null, not a quote, ASCII.
pub open spec fn valid_byte(b: u8) -> bool {
    b != 0 && b != 0x22 && b < 0x80
}

/// Every byte may stand in a string.
pub open spec fn all_valid(s: Seq<u8>) -> bool {
    forall|i: int| 0 <= i < s.len() ==> valid_byte(#[trigger] s[i])
}

/// A string of the binary format: at most 255 valid bytes.
pub open spec fn valid_str(s: Seq<u8>) -> bool {
    s.len() <= MAX_STRING_LEN && all_valid(s)
}

/// `i` is the first byte of `s` that may not stand in a string.
pub open spec fn first_invalid(s: Seq<u8>, i: int) -> bool {
    0 <= i < s.len() && !valid_byte(s[i]) && forall|j: int| 0 <= j < i ==> valid_byte(#[trigger] s[j])
}

/// The error for a byte that may not stand in a string.
pub open spec fn invalid_byte_code(b: u8) -> ErrorCode {
    if b == 0 {
        ErrorCode::StringContainsNull
    } else if b == 0x22 {
        ErrorCode::StringContainsQuote
    } else {
        ErrorCode::StringContainsInvalidByte
    }
}

/// The offset `start` moved by `i`, when there is one.
pub open spec fn shifted(start: Option<usize>, i: int) -> Option<usize> {
    match start {
        Some(o) => Some((o + i) as usize),
        None => None,
    }
}

/// What validating `s` gives, with `start` the offset of its first byte (or
/// no offset at all).
pub open spec fn checked(s: Seq<u8>, start: Option<usize>) -> Result<(), Error> {
    if s.len() > MAX_STRING_LEN {
        Err(Error { code: ErrorCode::StringTooLong, offset: start })
    } else if all_valid(s) {
        Ok(())
    } else {
        let i = choose|i: int| first_invalid(s, i);
        Err(Error { code: invalid_byte_code(s[i]), offset: shifted(start, i) })
    }
}

/// A byte sequence has at most one first invalid byte.
pub proof fn lemma_first_invalid_unique(s: Seq<u8>, i: int, k: int)
    requires
        first_invalid(s, i),
        first_invalid(s, k),
    ensures
        i == k,
{
    if k < i {
        assert(valid_byte(s[k]));
    } else if i < k {
        assert(valid_byte(s[i]));
    }
}

/// A byte sequence with an invalid byte has a first one.
pub proof fn lemma_first_invalid_exists(s: Seq<u8>, k: int)
    requires
        0 <= k <= s.len(),
        exists|j: int| 0 <= j < k && !valid_byte(#[trigger] s[j]),
    ensures
        exists|i: int| first_invalid(s, i),
    decreases k,
{
    if forall|j: int| 0 <= j < k - 1 ==> valid_byte(#[trigger] s[j]) {
        assert(first_invalid(s, k - 1));
    } else {
        lemma_first_invalid_exists(s, k - 1);
    }
}

pub(crate) fn check_bytes(v: &[u8], start: Option<usize>) -> (r: Result<(), Error>)
    requires
        start matches Some(o) ==> o + v@.len() <= usize::MAX,
    ensures
        r == checked(v@, start),
{
    if v.len() > MAX_STRING_LEN {
        return Err(Error::new(ErrorCode::StringTooLong, start));
    }
    let mut i: usize = 0;
    while i < v.len()
        invariant
            i <= v@.len() <= MAX_STRING_LEN,
            start matches Some(o) ==> o + v@.len() <= usize::MAX,
            forall|j: int| 0 <= j < i ==> valid_byte(#[trigger] v@[j]),
        decreases v@.len() - i,
    {
        let b = v[i];
        if b == 0 || b == 0x22 || b >= 0x80 {
            let offset = match start {
                Some(o) => Some(o + i),
                None => None,
            };
            let code = if b == 0 {
                ErrorCode::StringContainsNull
            } else if b == 0x22 {
                ErrorCode::StringContainsQuote
            } else {
                ErrorCode::StringContainsInvalidByte
            };
            let r = Err(Error::new(code, offset));
            proof {
                assert(first_invalid(v@, i as int));
                assert(!all_valid(v@));
                let k = choose|k: int| first_invalid(v@, k);
                lemma_first_invalid_unique(v@, i as int, k);
            }
            return r;
        }
        i = i + 1;
    }
    Ok(())
}

/// Validate the bytes of a string read from the data, whose first byte
/// stands at `start_offset`; errors carry the offset of the offending byte.
pub fn from_raw(v: &[u8], start_offset: usize) -> (r: Result<(), Error>)
    requires
        start_offset + v@.len() <= usize::MAX,
    ensures
        r == checked(v@, Some(start_offset)),
{
    check_bytes(v, Some(start_offset))
}

/// Validate a string to be written, and give its bytes and length; errors
/// carry no offset.
pub fn to_raw(s: &str) -> (r: Result<(&[u8], i32), Error>)
    ensures
        checked(s.spec_bytes(), None) matches Err(e) ==> r == Err::<(&[u8], i32), Error>(e),
        checked(s.spec_bytes(), None) is Ok ==> (r matches Ok((b, len)) && b@ == s.spec_bytes()
            && len as int == b@.len()),
{
    let v = s.as_bytes();
    match check_bytes(v, None) {
        Ok(()) => Ok((v, v.len() as i32)),
        Err(e) => Err(e),
    }
}

} // verus!
