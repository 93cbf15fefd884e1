//! Laws of the binary codec.
use vstd::prelude::*;
use crate::binary::ascii::all_valid;
use crate::binary::codec::{decode_at, decode_items_at, decode_all, encoded, encoded_items, items_error, lemma_items_error_none, lemma_items_prefix, lemma_items_same_prefix, value_error, wrapper_error};
use crate::binary::error::{Error, ErrorCode, TokenType};
use crate::binary::ascii::{checked, first_invalid, valid_str};
use crate::binary::reader::{head, short, tag_type, token_at};
use crate::binary::wire::{i32_at, i32_bytes, lemma_word_in};
use crate::binary::writer::list_bytes;
use crate::value::ValueView;

verus! {

/// The signed word whose bytes are those of the unsigned word `w`.
pub open spec fn signed_of(w: u32) -> int {
    w as int - (if w >= 0x8000_0000 { 0x1_0000_0000int } else { 0 })
}

proof fn lemma_head_words(v: ValueView, rest: Seq<u8>)
    requires
        value_error(v) is None,
    ensures
        ({
            let s = encoded(v) + rest;
            &&& s.len() >= 8
            &&& i32_at(s, 0) == match v {
                ValueView::Int(_) => 1int,
                ValueView::Float(_) => 2,
                ValueView::String(_) => 3,
                ValueView::List(_) => 4,
            }
            &&& i32_at(s, 4) == match v {
                ValueView::Int(i) => i as int,
                ValueView::Float(f) => signed_of(f),
                ValueView::String(b) => b.len() as int,
                ValueView::List(items) => items.len() as int + 1,
            }
        }),
{
    let e = encoded(v);
    let s = e + rest;
    assert(s.subrange(0, e.len() as int) =~= e);
    match v {
        ValueView::Int(i) => {
            assert(e.subrange(0, 4) =~= i32_bytes(1));
            assert(e.subrange(4, 8) =~= i32_bytes(i as int));
            lemma_word_in(s, 0, e, 0, 1);
            lemma_word_in(s, 0, e, 4, i as int);
        },
        ValueView::Float(f) => {
            assert(e.subrange(0, 4) =~= i32_bytes(2));
            assert(e.subrange(4, 8) =~= i32_bytes(signed_of(f)));
            lemma_word_in(s, 0, e, 0, 2);
            lemma_word_in(s, 0, e, 4, signed_of(f));
        },
        ValueView::String(b) => {
            assert(e.subrange(0, 4) =~= i32_bytes(3));
            assert(e.subrange(4, 8) =~= i32_bytes(b.len() as int));
            lemma_word_in(s, 0, e, 0, 3);
            lemma_word_in(s, 0, e, 4, b.len() as int);
        },
        ValueView::List(items) => {
            assert(e.subrange(0, 4) =~= i32_bytes(4));
            assert(e.subrange(4, 8) =~= i32_bytes(items.len() as int + 1));
            lemma_word_in(s, 0, e, 0, 4);
            lemma_word_in(s, 0, e, 4, items.len() as int + 1);
        },
    }
}

/// No two values that can be encoded share their bytes: a value's bytes,
/// followed by anything, tell the value and what follows.
#[verifier::rlimit(100)]
pub proof fn lemma_encoded_unique(a: ValueView, b: ValueView, ra: Seq<u8>, rb: Seq<u8>)
    requires
        value_error(a) is None,
        value_error(b) is None,
        encoded(a) + ra == encoded(b) + rb,
    ensures
        a == b,
        ra == rb,
    decreases a, 0int,
{
    let s = encoded(a) + ra;
    lemma_head_words(a, ra);
    lemma_head_words(b, rb);
    match a {
        ValueView::List(ia) => {
            let ib = b->List_0;
            let n = ia.len() as int;
            let ta = encoded_items(ia, n) + ra;
            let tb = encoded_items(ib, n) + rb;
            assert(ta =~= s.subrange(8, s.len() as int));
            assert(tb =~= s.subrange(8, s.len() as int));
            lemma_items_unique(ia, ib, n, 0, ra, rb);
            assert(ia =~= ib);
        },
        ValueView::String(ba) => {
            let bb = b->String_0;
            assert(ba =~= s.subrange(8, 8 + ba.len() as int));
            assert(bb =~= s.subrange(8, 8 + bb.len() as int));
            assert(ra =~= s.subrange(8 + ba.len() as int, s.len() as int));
            assert(rb =~= s.subrange(8 + bb.len() as int, s.len() as int));
        },
        ValueView::Float(fa) => {
            assert(ra =~= s.subrange(8, s.len() as int));
            assert(rb =~= s.subrange(8, s.len() as int));
        },
        ValueView::Int(_) => {
            assert(ra =~= s.subrange(8, s.len() as int));
            assert(rb =~= s.subrange(8, s.len() as int));
        },
    }
}

proof fn lemma_items_unique(ia: Seq<ValueView>, ib: Seq<ValueView>, n: int, k: int, ra: Seq<u8>, rb: Seq<u8>)
    requires
        n == ia.len() == ib.len(),
        0 <= k <= n,
        items_error(ia, n) is None,
        items_error(ib, n) is None,
        encoded_items(ia, n) + ra == encoded_items(ib, n) + rb,
        forall|j: int| 0 <= j < k ==> ia[j] == ib[j],
    ensures
        forall|j: int| 0 <= j < n ==> ia[j] == ib[j],
        ra == rb,
    decreases ia, n - k,
{
    lemma_items_same_prefix(ia, ib, k);
    if k == n {
        let t = encoded_items(ia, n) + ra;
        assert(ra =~= t.subrange(encoded_items(ia, n).len() as int, t.len() as int));
        assert(rb =~= t.subrange(encoded_items(ib, n).len() as int, t.len() as int));
    } else {
        lemma_items_prefix(ia, k, n);
        lemma_items_prefix(ib, k, n);
        lemma_items_error_none(ia, k, n);
        lemma_items_error_none(ib, k, n);
        let t = encoded_items(ia, n) + ra;
        let p = encoded_items(ia, k).len() as int;
        let la = encoded(ia[k]).len() as int;
        let lb = encoded(ib[k]).len() as int;
        let rest_a = t.subrange(p + la, t.len() as int);
        let rest_b = t.subrange(p + lb, t.len() as int);
        assert(t.subrange(p, t.len() as int) =~= encoded(ia[k]) + rest_a);
        assert(t.subrange(p, t.len() as int) =~= encoded(ib[k]) + rest_b);
        assert(decreases_to!(ia => ia[k]));
        lemma_encoded_unique(ia[k], ib[k], rest_a, rest_b);
        lemma_items_unique(ia, ib, n, k + 1, ra, rb);
    }
}

/// Binary round trip: the bytes that `to_vec` gives for a value that can be
/// encoded are accepted by `from_slice`, and the value that `from_slice`
/// gives for them is that value.
pub proof fn lemma_binary_round_trip(v: ValueView, x: ValueView)
    requires
        value_error(v) is None,
        value_error(x) is None,
        list_bytes(1) + encoded(x) == list_bytes(1) + encoded(v),
    ensures
        x == v,
        exists|w: ValueView| value_error(w) is None && list_bytes(1) + encoded(v) == list_bytes(1) + encoded(w),
{
    let a = list_bytes(1) + encoded(x);
    assert(encoded(x) =~= a.subrange(8, a.len() as int));
    assert(encoded(v) =~= a.subrange(8, a.len() as int));
    assert(encoded(x) + Seq::empty() =~= encoded(v) + Seq::empty());
    lemma_encoded_unique(x, v, Seq::empty(), Seq::empty());
}

/// Alphabet closure: a string can be encoded exactly when it has at most 255
/// bytes, none null, a quote or above ASCII; and one that was encoded decodes
/// to the same string.
pub proof fn lemma_string_round_trip(b: Seq<u8>, x: ValueView)
    requires
        value_error(ValueView::String(b)) is None,
        value_error(x) is None,
        list_bytes(1) + encoded(x) == list_bytes(1) + encoded(ValueView::String(b)),
    ensures
        x == ValueView::String(b),
        valid_str(b),
{
    lemma_binary_round_trip(ValueView::String(b), x);
}

/// A string encodes exactly when it is valid.
pub proof fn lemma_string_encodable(b: Seq<u8>)
    ensures
        value_error(ValueView::String(b)) is None <==> valid_str(b),
{
}

/// Length policing: a string of 256 bytes or a list of 256 items cannot be
/// encoded; a valid string of 255 bytes, or a list of 255 items that can
/// each be encoded, can.
pub proof fn lemma_length_limits(b: Seq<u8>, items: Seq<ValueView>)
    ensures
        b.len() == 256 ==> value_error(ValueView::String(b)) == Some(
            Error { code: ErrorCode::StringTooLong, offset: None },
        ),
        b.len() == 255 && all_valid(b) ==> value_error(ValueView::String(b)) is None,
        items.len() == 256 ==> value_error(ValueView::List(items)) == Some(
            Error { code: ErrorCode::SequenceTooLong, offset: None },
        ),
        items.len() == 255 && (forall|i: int| 0 <= i < 255 ==> value_error(#[trigger] items[i]) is None)
            ==> value_error(ValueView::List(items)) is None,
{
    if items.len() == 255 && (forall|i: int| 0 <= i < 255 ==> value_error(#[trigger] items[i]) is None) {
        lemma_items_all_ok(items, 255);
    }
}

proof fn lemma_items_all_ok(items: Seq<ValueView>, k: int)
    requires
        0 <= k <= items.len(),
        forall|i: int| 0 <= i < k ==> value_error(#[trigger] items[i]) is None,
    ensures
        items_error(items, k) is None,
    decreases k,
{
    if k > 0 {
        lemma_items_all_ok(items, k - 1);
    }
}

/// Outer wrapper: data whose first 8 bytes hold a valid tag, but not a list
/// of one element, is refused with an error that expects a list or that
/// names the list length.
pub proof fn lemma_outer_wrapper(s: Seq<u8>)
    requires
        s.len() >= 8,
        tag_type(i32_at(s, 0)) is Some,
        !(i32_at(s, 0) == 4 && i32_at(s, 4) == 2),
    ensures
        wrapper_error(s) matches Some(e) && (e.code matches ErrorCode::ExpectedToken { expected, .. } && expected == TokenType::List
            || e.code == ErrorCode::InvalidListLength),
{
}

/// Offsets only grow: an error in reading a token reports an offset at or
/// after the place where the token starts.
pub proof fn lemma_error_offset_monotone(s: Seq<u8>, o: int, expected: TokenType)
    requires
        0 <= o <= s.len(),
        s.len() <= usize::MAX,
    ensures
        token_at(s, o, expected) matches Err(e) ==> (e.offset matches Some(x) && x >= o),
{
    if head(s, o, expected) is Ok {
        let p = o + 4;
        let t = head(s, o, expected)->Ok_0;
        if t == TokenType::String && short(s, p, 4) is None {
            let len = i32_at(s, p);
            if 0 <= len <= 255 && short(s, p + 4, len) is None {
                let bytes = s.subrange(p + 4, p + 4 + len);
                if checked(bytes, Some((p + 4) as usize)) is Err && !(bytes.len() > 255) && !crate::binary::ascii::all_valid(bytes) {
                    crate::binary::ascii::lemma_first_invalid_exists(bytes, bytes.len() as int);
                }
            }
        }
    }
}

/// Offsets only grow across a whole decode: an error in decoding a value
/// from offset `o` reports an offset at or after `o`. Each item of a list is
/// decoded from where the items before it ended, so an error reports an
/// offset at or after the start of every token read before it.
pub proof fn lemma_decode_error_offset(s: Seq<u8>, o: int)
    requires
        0 <= o <= s.len(),
        s.len() <= usize::MAX,
    ensures
        decode_at(s, o) matches Err(e) ==> (e.offset matches Some(x) && x >= o),
    decreases s.len() - o, 0int,
{
    lemma_error_offset_monotone(s, o, TokenType::Any);
    if let Ok(t) = token_at(s, o, TokenType::Any) {
        let e = o + crate::binary::reader::token_size(t);
        if let crate::binary::reader::TokenView::List(n) = t {
            if e <= s.len() {
                lemma_items_error_offset(s, e, n, Seq::empty());
            }
        }
    }
}

/// An error in decoding the rest of a list from offset `o` reports an
/// offset at or after `o`.
pub proof fn lemma_items_error_offset(s: Seq<u8>, o: int, n: int, acc: Seq<ValueView>)
    requires
        0 <= o <= s.len(),
        s.len() <= usize::MAX,
    ensures
        decode_items_at(s, o, n, acc) matches Err(e) ==> (e.offset matches Some(x) && x >= o),
    decreases s.len() - o, 1int, n,
{
    if n > 0 {
        lemma_decode_error_offset(s, o);
        if let Ok((v, e)) = decode_at(s, o) {
            if !(e <= o || e > s.len()) {
                lemma_items_error_offset(s, e, n - 1, acc.push(v));
            }
        }
    }
}

/// Every error of a whole decode carries an offset.
pub proof fn lemma_decode_all_error_offset(s: Seq<u8>)
    requires
        s.len() <= usize::MAX,
    ensures
        decode_all(s) matches Err(e) ==> e.offset is Some,
{
    lemma_error_offset_monotone(s, 0, TokenType::List);
    if s.len() >= 8 {
        lemma_decode_error_offset(s, 8);
    }
}

} // verus!
