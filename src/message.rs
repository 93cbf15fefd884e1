//! Building human-readable messages as bytes.
use vstd::prelude::*;
use vstd::utf8::{decode_utf8, valid_utf8};

verus! {

/// The decimal digits of a natural number.
pub open spec fn usize_text(n: nat) -> Seq<u8>
    decreases n,
{
    if n < 10 {
        seq![(0x30 + n) as u8]
    } else {
        usize_text(n / 10) + seq![(0x30 + n % 10) as u8]
    }
}

/// Append the decimal digits of `n`.
pub fn push_usize(out: &mut Vec<u8>, n: usize)
    ensures
        final(out)@ == old(out)@ + usize_text(n as nat),
    decreases n,
{
    if n >= 10 {
        push_usize(out, n / 10);
    }
    out.push((0x30 + n % 10) as u8);
    assert(final(out)@ =~= old(out)@ + usize_text(n as nat));
}

/// Relies on `String::from_utf8_lossy`: bytes that are valid UTF-8 give the
/// characters they encode (others are replaced).
#[verifier::external_body]
pub(crate) fn lossy_string(v: &[u8]) -> (r: String)
    ensures
        valid_utf8(v@) ==> r@ == decode_utf8(v@),
{
    String::from_utf8_lossy(v).into_owned()
}

} // verus!
