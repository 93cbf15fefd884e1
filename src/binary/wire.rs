//! Little-endian 32-bit words, the unit of the binary format.
use vstd::prelude::*;

verus! {

/// The tag of an integer token.
pub const INT: i32 = 1;

/// The tag of a float token.
pub const FLOAT: i32 = 2;

/// The tag of a string token.
pub const STRING: i32 = 3;

/// The tag of a list token.
pub const LIST: i32 = 4;

/// The largest number of bytes in a string.
pub const MAX_STRING_LEN: usize = 255;

/// The largest number of elements in a list.
pub const MAX_LIST_LEN: usize = 255;

/// The unsigned value of the little-endian word at `i`.
pub open spec fn u32_at(s: Seq<u8>, i: int) -> int {
    s[i] as int + 256 * (s[i + 1] as int) + 65536 * (s[i + 2] as int) + 16777216 * (
    s[i + 3] as int)
}

/// The two's complement reading of an unsigned 32-bit value.
pub open spec fn as_signed(w: int) -> int {
    if w < 0x8000_0000 {
        w
    } else {
        w - 0x1_0000_0000
    }
}

/// The two's complement bit pattern of a signed 32-bit value.
pub open spec fn as_unsigned(v: int) -> int {
    if v < 0 {
        v + 0x1_0000_0000
    } else {
        v
    }
}

/// The signed value of the little-endian word at `i`.
pub open spec fn i32_at(s: Seq<u8>, i: int) -> int {
    as_signed(u32_at(s, i))
}

/// The four little-endian bytes of an unsigned 32-bit value.
pub open spec fn u32_bytes(w: int) -> Seq<u8> {
    seq![(w % 256) as u8, ((w / 256) % 256) as u8, ((w / 65536) % 256) as u8, ((w / 16777216) % 256) as u8]
}

/// The four little-endian bytes of a signed 32-bit value.
pub open spec fn i32_bytes(v: int) -> Seq<u8> {
    u32_bytes(as_unsigned(v))
}

/// Reading back the bytes of a word gives the word.
pub proof fn lemma_u32_round_trip(w: int, s: Seq<u8>, i: int)
    requires
        0 <= w < 0x1_0000_0000,
        0 <= i,
        i + 4 <= s.len(),
        s.subrange(i, i + 4) == u32_bytes(w),
    ensures
        u32_at(s, i) == w,
{
    assert(s[i] == s.subrange(i, i + 4)[0]);
    assert(s[i + 1] == s.subrange(i, i + 4)[1]);
    assert(s[i + 2] == s.subrange(i, i + 4)[2]);
    assert(s[i + 3] == s.subrange(i, i + 4)[3]);
    assert(u32_at(s, i) == w) by (nonlinear_arith)
        requires
            0 <= w < 0x1_0000_0000,
            s[i] as int == w % 256,
            s[i + 1] as int == (w / 256) % 256,
            s[i + 2] as int == (w / 65536) % 256,
            s[i + 3] as int == (w / 16777216) % 256,
    ;
}

/// Reading back the bytes of a signed value gives the value.
pub proof fn lemma_i32_round_trip(v: int, s: Seq<u8>, i: int)
    requires
        i32::MIN <= v <= i32::MAX,
        0 <= i,
        i + 4 <= s.len(),
        s.subrange(i, i + 4) == i32_bytes(v),
    ensures
        i32_at(s, i) == v,
{
    lemma_u32_round_trip(as_unsigned(v), s, i);
}

/// The bytes of the word read at `i` are the bytes at `i`.
pub proof fn lemma_bytes_of_word(s: Seq<u8>, i: int)
    requires
        0 <= i,
        i + 4 <= s.len(),
    ensures
        0 <= u32_at(s, i) < 0x1_0000_0000,
        u32_bytes(u32_at(s, i)) == s.subrange(i, i + 4),
        i32_bytes(i32_at(s, i)) == s.subrange(i, i + 4),
        i32::MIN <= i32_at(s, i) <= i32::MAX,
{
    let b0 = s[i] as int;
    let b1 = s[i + 1] as int;
    let b2 = s[i + 2] as int;
    let b3 = s[i + 3] as int;
    let w = u32_at(s, i);
    assert(0 <= w < 0x1_0000_0000) by (nonlinear_arith)
        requires
            w == b0 + 256 * b1 + 65536 * b2 + 16777216 * b3,
            0 <= b0 < 256,
            0 <= b1 < 256,
            0 <= b2 < 256,
            0 <= b3 < 256,
    ;
    assert(w % 256 == b0 && (w / 256) % 256 == b1 && (w / 65536) % 256 == b2 && (w / 16777216) % 256
        == b3) by (nonlinear_arith)
        requires
            w == b0 + 256 * b1 + 65536 * b2 + 16777216 * b3,
            0 <= b0 < 256,
            0 <= b1 < 256,
            0 <= b2 < 256,
            0 <= b3 < 256,
    ;
    assert(u32_bytes(w) =~= s.subrange(i, i + 4));
    assert(as_unsigned(as_signed(w)) == w);
}

/// The word read at offset `k` of a known stretch `e` of `s`.
pub proof fn lemma_word_in(s: Seq<u8>, o: int, e: Seq<u8>, k: int, x: int)
    requires
        0 <= o,
        o + e.len() <= s.len(),
        s.subrange(o, o + e.len()) == e,
        0 <= k,
        k + 4 <= e.len(),
        e.subrange(k, k + 4) == i32_bytes(x),
        i32::MIN <= x <= i32::MAX,
    ensures
        i32_at(s, o + k) == x,
        u32_at(s, o + k) == as_unsigned(x),
{
    assert(s.subrange(o + k, o + k + 4) =~= e.subrange(k, k + 4));
    lemma_i32_round_trip(x, s, o + k);
    lemma_u32_round_trip(as_unsigned(x), s, o + k);
}

/// The word at `pos`.
pub fn read_u32(s: &[u8], pos: usize) -> (r: u32)
    requires
        pos + 4 <= s@.len(),
    ensures
        r as int == u32_at(s@, pos as int),
{
    let b0 = s[pos] as u32;
    let b1 = s[pos + 1] as u32;
    let b2 = s[pos + 2] as u32;
    let b3 = s[pos + 3] as u32;
    assert(b0 + 256 * b1 + 65536 * b2 + 16777216 * b3 < 0x1_0000_0000) by (nonlinear_arith)
        requires
            b0 < 256,
            b1 < 256,
            b2 < 256,
            b3 < 256,
    ;
    b0 + 256 * b1 + 65536 * b2 + 16777216 * b3
}

/// The signed word at `pos`.
pub fn read_i32(s: &[u8], pos: usize) -> (r: i32)
    requires
        pos + 4 <= s@.len(),
    ensures
        r as int == i32_at(s@, pos as int),
{
    let w = read_u32(s, pos);
    if w < 0x8000_0000 {
        w as i32
    } else {
        let low = (w - 0x8000_0000) as i32;
        low - 0x7fff_ffff - 1
    }
}

/// Append the four little-endian bytes of `w`.
pub fn push_u32(out: &mut Vec<u8>, w: u32)
    ensures
        final(out)@ == old(out)@ + u32_bytes(w as int),
{
    out.push((w % 256) as u8);
    out.push(((w / 256) % 256) as u8);
    out.push(((w / 65536) % 256) as u8);
    out.push(((w / 16777216) % 256) as u8);
    assert(final(out)@ =~= old(out)@ + u32_bytes(w as int));
}

/// Append the four little-endian bytes of `v`.
pub fn push_i32(out: &mut Vec<u8>, v: i32)
    ensures
        final(out)@ == old(out)@ + i32_bytes(v as int),
{
    let w: u32 = if v < 0 {
        let low = (v + 0x7fff_ffff + 1) as u32;
        low + 0x8000_0000
    } else {
        v as u32
    };
    push_u32(out, w);
}

} // verus!
