//! Length rules shared by the text writers.
use vstd::prelude::*;
use crate::text::error::{Error, ErrorCode};

verus! {

/// The number of items that a struct of `len` fields takes: a name and a
/// value each.
pub fn struct_len(len: usize) -> (r: Result<usize, Error>)
    ensures
        2 * len <= usize::MAX ==> r == Ok::<usize, Error>((2 * len) as usize),
        2 * len > usize::MAX ==> r == Err::<usize, Error>(Error { code: ErrorCode::SequenceTooLong, location: None }),
{
    if len > usize::MAX / 2 {
        Err(Error::new(ErrorCode::SequenceTooLong, None))
    } else {
        Ok(len * 2)
    }
}

/// The number of items that a map of `len` entries takes, when known.
pub fn map_len(len: Option<usize>) -> (r: Result<Option<usize>, Error>)
    ensures
        len is None ==> r == Ok::<Option<usize>, Error>(None),
        len matches Some(n) ==> (2 * n <= usize::MAX ==> r == Ok::<Option<usize>, Error>(Some((2 * n) as usize))),
        len matches Some(n) ==> (2 * n > usize::MAX ==> r == Err::<Option<usize>, Error>(Error { code: ErrorCode::SequenceTooLong, location: None })),
{
    match len {
        None => Ok(None),
        Some(n) => {
            let m = struct_len(n)?;
            Ok(Some(m))
        },
    }
}

/// The length, which must be known.
pub fn require_len(len: Option<usize>) -> (r: Result<usize, Error>)
    ensures
        len matches Some(n) ==> r == Ok::<usize, Error>(n),
        len is None ==> r == Err::<usize, Error>(Error { code: ErrorCode::SequenceMustHaveLength, location: None }),
{
    match len {
        Some(n) => Ok(n),
        None => Err(Error::new(ErrorCode::SequenceMustHaveLength, None)),
    }
}

/// The length as a 32-bit count, which it must fit.
pub fn validate_len(len: usize) -> (r: Result<i32, Error>)
    ensures
        len <= i32::MAX ==> r == Ok::<i32, Error>(len as i32),
        len > i32::MAX ==> r == Err::<i32, Error>(Error { code: ErrorCode::SequenceTooLong, location: None }),
{
    if len > i32::MAX as usize {
        Err(Error::new(ErrorCode::SequenceTooLong, None))
    } else {
        Ok(len as i32)
    }
}

} // verus!
