//! Writing tokens as binary data.
use vstd::prelude::*;
use crate::binary::ascii::{checked, check_bytes};
use crate::binary::error::{Error, ErrorCode};
use crate::binary::wire::{i32_bytes, push_i32, push_u32, u32_bytes, FLOAT, INT, LIST, MAX_LIST_LEN, STRING};

verus! {

/// The bytes of an integer token.
pub open spec fn int_bytes(v: i32) -> Seq<u8> {
    i32_bytes(1) + i32_bytes(v as int)
}

/// The bytes of a float token holding the bit pattern `w`.
pub open spec fn float_bytes(w: u32) -> Seq<u8> {
    i32_bytes(2) + u32_bytes(w as int)
}

/// The bytes of a string token.
pub open spec fn str_bytes(b: Seq<u8>) -> Seq<u8> {
    i32_bytes(3) + i32_bytes(b.len() as int) + b
}

/// The bytes that start a list of `n` elements.
pub open spec fn list_bytes(n: int) -> Seq<u8> {
    i32_bytes(4) + i32_bytes(n + 1)
}

/// Writes tokens to a growing byte buffer.
#[derive(Debug, Clone)]
pub struct IoWriter {
    inner: Vec<u8>,
}

impl IoWriter {
    /// The bytes written so far.
    pub closed spec fn bytes(&self) -> Seq<u8> {
        self.inner@
    }

    /// A writer that appends to `inner`.
    pub fn new(inner: Vec<u8>) -> (r: Self)
        ensures
            r.bytes() == inner@,
    {
        IoWriter { inner }
    }

    fn write_all(&mut self, buf: &[u8])
        ensures
            final(self).bytes() == old(self).bytes() + buf@,
    {
        let mut i: usize = 0;
        while i < buf.len()
            invariant
                i <= buf@.len(),
                self.bytes() == old(self).bytes() + buf@.subrange(0, i as int),
            decreases buf@.len() - i,
        {
            self.inner.push(buf[i]);
            i = i + 1;
            assert(self.bytes() =~= old(self).bytes() + buf@.subrange(0, i as int));
        }
        assert(buf@.subrange(0, i as int) =~= buf@);
    }

    /// Write an integer token.
    pub fn write_i32(&mut self, v: i32)
        ensures
            final(self).bytes() == old(self).bytes() + int_bytes(v),
    {
        push_i32(&mut self.inner, INT);
        push_i32(&mut self.inner, v);
        assert(self.bytes() =~= old(self).bytes() + int_bytes(v));
    }

    /// Write a float token holding the binary32 bit pattern `v`.
    pub fn write_f32(&mut self, v: u32)
        ensures
            final(self).bytes() == old(self).bytes() + float_bytes(v),
    {
        push_i32(&mut self.inner, FLOAT);
        push_u32(&mut self.inner, v);
        assert(self.bytes() =~= old(self).bytes() + float_bytes(v));
    }

    /// Write a string token, after checking the string's bytes.
    pub fn write_str(&mut self, v: &[u8]) -> (r: Result<(), Error>)
        ensures
            r == checked(v@, None),
            r is Ok ==> final(self).bytes() == old(self).bytes() + str_bytes(v@),
            r is Err ==> final(self).bytes() == old(self).bytes(),
    {
        check_bytes(v, None)?;
        push_i32(&mut self.inner, STRING);
        push_i32(&mut self.inner, v.len() as i32);
        self.write_all(v);
        assert(self.bytes() =~= old(self).bytes() + str_bytes(v@));
        Ok(())
    }

    /// Write the start of a list of `len` elements; the length must be known
    /// and at most 255.
    pub fn write_list(&mut self, len: Option<usize>) -> (r: Result<(), Error>)
        ensures
            len is None ==> r == Err::<(), Error>(Error { code: ErrorCode::SequenceMustHaveLength, offset: None }),
            len matches Some(n) ==> (n > MAX_LIST_LEN ==> r == Err::<(), Error>(Error { code: ErrorCode::SequenceTooLong, offset: None })),
            len matches Some(n) ==> (n <= MAX_LIST_LEN ==> r is Ok && final(self).bytes() == old(self).bytes() + list_bytes(n as int)),
            r is Err ==> final(self).bytes() == old(self).bytes(),
    {
        match len {
            None => Err(Error::new(ErrorCode::SequenceMustHaveLength, None)),
            Some(n) => if n > MAX_LIST_LEN {
                Err(Error::new(ErrorCode::SequenceTooLong, None))
            } else {
                self.write_list_unchecked(n as i32);
                Ok(())
            },
        }
    }

    /// Write the start of a list of `len` elements, without checking `len`
    /// against the largest list length.
    pub fn write_list_unchecked(&mut self, len: i32)
        requires
            len < i32::MAX,
        ensures
            final(self).bytes() == old(self).bytes() + list_bytes(len as int),
    {
        push_i32(&mut self.inner, LIST);
        push_i32(&mut self.inner, len + 1);
        assert(self.bytes() =~= old(self).bytes() + list_bytes(len as int));
    }

    /// Write the outer wrapper that starts all binary data: a list of one
    /// element.
    pub fn wrap_outer_list(&mut self)
        ensures
            final(self).bytes() == old(self).bytes() + list_bytes(1),
    {
        self.write_list_unchecked(1);
    }

    /// The error for a data type that the format does not hold; a writer
    /// reports it without an offset.
    pub fn unsupported(&self) -> (r: Error)
        ensures
            r == (Error { code: ErrorCode::UnsupportedType, offset: None }),
    {
        Error::new(ErrorCode::UnsupportedType, None)
    }

    /// The bytes written.
    pub fn finish(self) -> (r: Vec<u8>)
        ensures
            r@ == self.bytes(),
    {
        self.inner
    }
}

} // verus!
