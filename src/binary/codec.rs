//! Encoding and decoding the generic value carrier as binary data.
use vstd::prelude::*;
use crate::binary::ascii::checked;
use crate::binary::error::{Error, ErrorCode};
use crate::binary::reader::{err_at, token_at, SliceReader, Token, TokenView};
use crate::binary::error::TokenType;
use crate::binary::wire::{as_unsigned, i32_bytes, lemma_bytes_of_word, lemma_word_in, u32_bytes};
use crate::binary::writer::{float_bytes, int_bytes, list_bytes, str_bytes, IoWriter};
use crate::binary::wire::MAX_LIST_LEN;
use crate::value::{Value, ValueView};

verus! {

broadcast use vstd::std_specs::vec::group_vec_axioms;

/// The bytes of a value, without the outer wrapper.
pub open spec fn encoded(v: ValueView) -> Seq<u8>
    decreases v, 0int,
{
    match v {
        ValueView::Int(i) => int_bytes(i),
        ValueView::Float(w) => float_bytes(w),
        ValueView::String(s) => str_bytes(s),
        ValueView::List(items) => list_bytes(items.len() as int) + encoded_items(items, items.len() as int),
    }
}

/// The bytes of the first `k` items of a list, one after the other.
pub open spec fn encoded_items(items: Seq<ValueView>, k: int) -> Seq<u8>
    decreases items, k,
{
    if k <= 0 || k > items.len() {
        Seq::empty()
    } else {
        encoded_items(items, k - 1) + encoded(items[k - 1])
    }
}

/// Why a value cannot be encoded, if it cannot: the first string or list,
/// in the order of writing, that breaks the format's limits.
pub open spec fn value_error(v: ValueView) -> Option<Error>
    decreases v, 0int,
{
    match v {
        ValueView::String(s) => match checked(s, None) {
            Ok(_) => None,
            Err(e) => Some(e),
        },
        ValueView::List(items) => if items.len() > MAX_LIST_LEN {
            Some(Error { code: crate::binary::error::ErrorCode::SequenceTooLong, offset: None })
        } else {
            items_error(items, items.len() as int)
        },
        _ => None,
    }
}

/// Why one of the first `k` items of a list cannot be encoded, if one cannot.
pub open spec fn items_error(items: Seq<ValueView>, k: int) -> Option<Error>
    decreases items, k,
{
    if k <= 0 || k > items.len() {
        None
    } else {
        match items_error(items, k - 1) {
            Some(e) => Some(e),
            None => value_error(items[k - 1]),
        }
    }
}

/// Write a value's tokens.
pub fn write_value(w: &mut IoWriter, v: &Value) -> (r: Result<(), Error>)
    ensures
        value_error(v@) matches Some(e) ==> r == Err::<(), Error>(e),
        value_error(v@) is None ==> r is Ok && final(w).bytes() == old(w).bytes() + encoded(v@),
    decreases v@,
{
    match v {
        Value::Int(i) => {
            w.write_i32(*i);
            Ok(())
        },
        Value::Float(f) => {
            w.write_f32(*f);
            Ok(())
        },
        Value::String(s) => w.write_str(s.as_slice()),
        Value::List(items) => {
            assert(*v == Value::List(*items));
            let ghost view = v@;
            assert(view is List);
            let ghost iv = view->List_0;
            assert(iv.len() == items@.len());
            w.write_list(Some(items.len()))?;
            let mut i: usize = 0;
            while i < items.len()
                invariant
                    view == v@,
                    view is List,
                    iv == view->List_0,
                    iv.len() == items@.len() <= MAX_LIST_LEN,
                    forall|j: int| 0 <= j < iv.len() ==> iv[j] == (#[trigger] items@[j])@,
                    i <= items@.len(),
                    items_error(iv, i as int) is None,
                    w.bytes() == old(w).bytes() + list_bytes(iv.len() as int) + encoded_items(iv, i as int),
                    value_error(view) == items_error(iv, iv.len() as int),
                decreases items@.len() - i,
            {
                proof {
                    assert(items_error(iv, i as int + 1) == value_error(iv[i as int]));
                }
                proof {
                    assert(decreases_to!(view => view->List_0));
                    assert(decreases_to!(iv => iv[i as int]));
                    assert(decreases_to!(v@ => items@[i as int]@));
                }
                let r = write_value(w, &items[i]);
                if r.is_err() {
                    assert(items_error(iv, i as int + 1) is Some);
                    proof {
                        lemma_items_error_extends(iv, i as int + 1, iv.len() as int);
                    }
                    return r;
                }
                assert(encoded_items(iv, i as int + 1) == encoded_items(iv, i as int) + encoded(iv[i as int]));
                i = i + 1;
                assert(w.bytes() =~= old(w).bytes() + list_bytes(iv.len() as int) + encoded_items(iv, i as int));
            }
            Ok(())
        },
    }
}

/// An error among the first `k` items is the error among the first `n`.
pub proof fn lemma_items_error_extends(items: Seq<ValueView>, k: int, n: int)
    requires
        0 <= k <= n <= items.len(),
        items_error(items, k) is Some,
    ensures
        items_error(items, n) == items_error(items, k),
    decreases n - k,
{
    if k < n {
        lemma_items_error_extends(items, k, n - 1);
    }
}

/// Encode a value as binary data, inside the outer wrapper.
pub fn to_vec(v: &Value) -> (r: Result<Vec<u8>, Error>)
    ensures
        value_error(v@) matches Some(e) ==> r == Err::<Vec<u8>, Error>(e),
        value_error(v@) is None ==> (r matches Ok(b) && b@ == list_bytes(1) + encoded(v@)),
{
    let mut w = IoWriter::new(Vec::new());
    w.wrap_outer_list();
    write_value(&mut w, v)?;
    let b = w.finish();
    assert(b@ =~= list_bytes(1) + encoded(v@));
    Ok(b)
}

/// Decoding one value from offset `o` of `s`: the value and where it ends,
/// or the first error met, as the reader reports it.
pub open spec fn decode_at(s: Seq<u8>, o: int) -> Result<(ValueView, int), Error>
    decreases s.len() - o, 0int,
{
    if o < 0 || o > s.len() {
        Err(err_at(ErrorCode::TrailingData, o))
    } else {
        match token_at(s, o, TokenType::Any) {
            Err(e) => Err(e),
            Ok(t) => {
                let e = o + crate::binary::reader::token_size(t);
                match t {
                    TokenView::Int(i) => Ok((ValueView::Int(i), e)),
                    TokenView::Float(f) => Ok((ValueView::Float(f), e)),
                    TokenView::Str(b) => Ok((ValueView::String(b), e)),
                    TokenView::List(n) => decode_items_at(s, e, n, Seq::empty()),
                }
            },
        }
    }
}

/// Decoding `n` more items of a list from offset `o`, with `acc` the items
/// read so far.
pub open spec fn decode_items_at(s: Seq<u8>, o: int, n: int, acc: Seq<ValueView>) -> Result<(ValueView, int), Error>
    decreases s.len() - o, 1int, n,
{
    if n <= 0 {
        Ok((ValueView::List(acc), o))
    } else {
        match decode_at(s, o) {
            Err(e) => Err(e),
            Ok((v, e)) => if e <= o || e > s.len() {
                Err(err_at(ErrorCode::TrailingData, o))
            } else {
                decode_items_at(s, e, n - 1, acc.push(v))
            },
        }
    }
}

/// Why the data does not start with the outer wrapper, if it does not.
pub open spec fn wrapper_error(s: Seq<u8>) -> Option<Error> {
    match token_at(s, 0, TokenType::List) {
        Err(e) => if e.code is SequenceTooLong {
            Some(err_at(ErrorCode::InvalidListLength, 4))
        } else {
            Some(e)
        },
        Ok(TokenView::List(n)) => if n != 1 {
            Some(err_at(ErrorCode::InvalidListLength, 4))
        } else {
            None
        },
        Ok(_) => None,
    }
}

/// What decoding whole binary data gives: the outer wrapper, one value
/// inside it, and nothing after; or the first error met.
pub open spec fn decode_all(s: Seq<u8>) -> Result<ValueView, Error> {
    match wrapper_error(s) {
        Some(e) => Err(e),
        None => match decode_at(s, 8) {
            Err(e) => Err(e),
            Ok((w, end)) => if end < s.len() {
                Err(err_at(ErrorCode::TrailingData, end))
            } else {
                Ok(w)
            },
        },
    }
}

/// Decode a value from binary data: the outer wrapper, one value inside it,
/// and nothing after.
#[verifier::rlimit(100)]
pub fn from_slice(input: &[u8]) -> (r: Result<Value, Error>)
    ensures
        decode_all(input@) matches Err(e) ==> r == Err::<Value, Error>(e),
        decode_all(input@) matches Ok(w) ==> (r matches Ok(v) && v@ == w),
        wrapper_error(input@) matches Some(e) ==> r == Err::<Value, Error>(e),
        r matches Ok(v) ==> value_error(v@) is None && input@ == list_bytes(1) + encoded(v@),
        (exists|w: ValueView| value_error(w) is None && input@ == list_bytes(1) + encoded(w)) ==> r is Ok,
{
    let mut reader = SliceReader::new(input);
    let ghost s = input@;
    let (len, offset) = match reader.read_list() {
        Ok(head) => head,
        Err(e) => {
            if let ErrorCode::SequenceTooLong = e.code {
                return Err(Error::new(ErrorCode::InvalidListLength, Some(4)));
            }
            return Err(e);
        },
    };
    if len != 1 {
        return Err(Error::new(ErrorCode::InvalidListLength, Some(offset)));
    }
    let ghost expect: Option<ValueView> = if exists|w: ValueView| value_error(w) is None && s == list_bytes(1) + encoded(w) {
        Some(choose|w: ValueView| value_error(w) is None && s == list_bytes(1) + encoded(w))
    } else {
        None
    };
    proof {
        if let Some(w) = expect {
            assert(s.subrange(8, 8 + encoded(w).len() as int) =~= encoded(w));
        }
    }
    let v = read_value(&mut reader, Ghost(expect))?;
    proof {
        lemma_bytes_of_word(s, 0);
        lemma_bytes_of_word(s, 4);
        if let Some(w) = expect {
            assert(reader.pos() == s.len());
        }
    }
    reader.finish()?;
    assert(s =~= s.subrange(0, 8) + s.subrange(8, s.len() as int));
    Ok(v)
}

/// The bytes of one more item follow the bytes of the items before it.
pub proof fn lemma_items_prefix(items: Seq<ValueView>, k: int, n: int)
    requires
        0 <= k < n <= items.len(),
    ensures
        encoded_items(items, k).len() + encoded(items[k]).len() <= encoded_items(items, n).len(),
        encoded_items(items, n).subrange(
            encoded_items(items, k).len() as int,
            encoded_items(items, k).len() + encoded(items[k]).len() as int,
        ) == encoded(items[k]),
    decreases n - k,
{
    let a = encoded_items(items, k).len() as int;
    let b = a + encoded(items[k]).len();
    if n == k + 1 {
        assert(encoded_items(items, n).subrange(a, b) =~= encoded(items[k]));
    } else {
        lemma_items_prefix(items, k, n - 1);
        assert(encoded_items(items, n).subrange(a, b) =~= encoded_items(items, n - 1).subrange(a, b));
    }
}

/// A stretch of a stretch of `s`.
pub proof fn lemma_sub(s: Seq<u8>, o: int, e: Seq<u8>, a: int, b: int)
    requires
        0 <= o,
        o + e.len() <= s.len(),
        s.subrange(o, o + e.len()) == e,
        0 <= a <= b <= e.len(),
    ensures
        s.subrange(o + a, o + b) == e.subrange(a, b),
{
    assert(s.subrange(o + a, o + b) =~= e.subrange(a, b));
}

/// The data at `o` starts with the bytes of `w`.
pub open spec fn holds_at(s: Seq<u8>, o: int, w: ValueView) -> bool {
    &&& 0 <= o
    &&& o + encoded(w).len() <= s.len()
    &&& s.subrange(o, o + encoded(w).len()) == encoded(w)
}

/// Read one value's tokens. What is read is always the bytes of a value that
/// can be encoded; and where the data holds the bytes of `expect`, that value
/// is read.
#[verifier::rlimit(50)]
fn read_value(r: &mut SliceReader, Ghost(expect): Ghost<Option<ValueView>>) -> (res: Result<Value, Error>)
    requires
        old(r).wf(),
        expect matches Some(w) ==> value_error(w) is None && holds_at(old(r).data(), old(r).pos(), w),
    ensures
        final(r).wf(),
        final(r).data() == old(r).data(),
        res is Ok ==> final(r).pos() > old(r).pos(),
        res matches Ok(v) ==> value_error(v@) is None && holds_at(old(r).data(), old(r).pos(), v@)
            && final(r).pos() == old(r).pos() + encoded(v@).len(),
        expect matches Some(w) ==> (res matches Ok(v) && v@ == w),
        decode_at(old(r).data(), old(r).pos()) matches Err(e) ==> res == Err::<Value, Error>(e),
        decode_at(old(r).data(), old(r).pos()) matches Ok((w, e)) ==> (res matches Ok(v) && v@ == w) && final(r).pos() == e,
    decreases old(r).data().len() - old(r).pos(),
{
    let ghost s = r.data();
    let ghost o = r.pos();
    proof {
        if let Some(w) = expect {
            let e = encoded(w);
            match w {
                ValueView::Int(i) => {
                    assert(e.subrange(0, 4) =~= i32_bytes(1));
                    assert(e.subrange(4, 8) =~= i32_bytes(i as int));
                    lemma_word_in(s, o, e, 0, 1);
                    lemma_word_in(s, o, e, 4, i as int);
                },
                ValueView::Float(f) => {
                    assert(e.subrange(0, 4) =~= i32_bytes(2));
                    assert(e.subrange(4, 8) =~= i32_bytes(f as int - (if f >= 0x8000_0000 { 0x1_0000_0000int } else { 0 })));
                    lemma_word_in(s, o, e, 0, 2);
                    lemma_word_in(s, o, e, 4, f as int - (if f >= 0x8000_0000 { 0x1_0000_0000int } else { 0 }));
                },
                ValueView::String(b) => {
                    assert(e.subrange(0, 4) =~= i32_bytes(3));
                    assert(e.subrange(4, 8) =~= i32_bytes(b.len() as int));
                    lemma_word_in(s, o, e, 0, 3);
                    lemma_word_in(s, o, e, 4, b.len() as int);
                    lemma_sub(s, o, e, 8, e.len() as int);
                    assert(e.subrange(8, e.len() as int) =~= b);
                },
                ValueView::List(items) => {
                    assert(e.subrange(0, 4) =~= i32_bytes(4));
                    assert(e.subrange(4, 8) =~= i32_bytes(items.len() as int + 1));
                    lemma_word_in(s, o, e, 0, 4);
                    lemma_word_in(s, o, e, 4, items.len() as int + 1);
                },
            }
        }
    }
    let t = r.read_any()?;
    proof {
        lemma_bytes_of_word(s, o);
        lemma_bytes_of_word(s, o + 4);
    }
    match t {
        Token::Int(i) => {
            let v = Value::Int(i);
            assert(s.subrange(o, o + 8) =~= encoded(v@));
            Ok(v)
        },
        Token::Float(f) => {
            let v = Value::Float(f);
            assert(s.subrange(o, o + 8) =~= encoded(v@));
            Ok(v)
        },
        Token::Str(b) => {
            let v = Value::String(b);
            assert(s.subrange(o, o + 8 + b@.len()) =~= encoded(v@));
            Ok(v)
        },
        Token::List(n) => {
            let ghost wi: Seq<ValueView> = match expect {
                Some(w) => w->List_0,
                None => Seq::empty(),
            };
            let mut items: Vec<Value> = Vec::new();
            let mut k: usize = 0;
            proof {
                assert(Seq::new(0nat, |j: int| items@[j]@) =~= Seq::<ValueView>::empty());
                assert(decode_at(s, o) == decode_items_at(s, o + 8, n as int, Seq::empty()));
            }
            while k < n
                invariant
                    r.wf(),
                    r.data() == s,
                    s == old(r).data(),
                    o == old(r).pos(),
                    0 <= o,
                    o + 8 <= r.pos(),
                    n <= MAX_LIST_LEN,
                    k <= n,
                    items@.len() == k,
                    s.subrange(o, o + 8) == list_bytes(n as int),
                    ({
                        let cur = Seq::new(k as nat, |j: int| items@[j]@);
                        &&& items_error(cur, k as int) is None
                        &&& r.pos() == o + 8 + encoded_items(cur, k as int).len()
                        &&& s.subrange(o + 8, r.pos() as int) == encoded_items(cur, k as int)
                    }),
                    expect matches Some(w) ==> w == ValueView::List(wi) && wi.len() == n && value_error(w) is None
                        && holds_at(s, o, w),
                    expect is Some ==> forall|j: int| 0 <= j < k ==> (#[trigger] items@[j])@ == wi[j],
                    decode_at(s, o) == decode_items_at(s, r.pos(), n - k, Seq::new(k as nat, |j: int| items@[j]@)),
                decreases n - k,
            {
                let ghost cur = Seq::new(k as nat, |j: int| items@[j]@);
                let ghost p = r.pos();
                let ghost sub: Option<ValueView> = match expect {
                    Some(w) => Some(wi[k as int]),
                    None => None,
                };
                proof {
                    if let Some(w) = expect {
                        assert(cur =~= wi.subrange(0, k as int));
                        lemma_items_same_prefix(cur, wi, k as int);
                        lemma_items_prefix(wi, k as int, n as int);
                        let e = encoded(w);
                        let a = 8 + encoded_items(wi, k as int).len() as int;
                        let b = a + encoded(wi[k as int]).len() as int;
                        assert(e.subrange(a, b) =~= encoded_items(wi, n as int).subrange(a - 8, b - 8));
                        lemma_sub(s, o, e, a, b);
                        lemma_items_error_none(wi, k as int, n as int);
                    }
                }
                let item = read_value(r, Ghost(sub))?;
                let ghost iv = item@;
                proof {
                    assert(decode_at(s, p) is Ok);
                }
                items.push(item);
                k = k + 1;
                proof {
                    let next = Seq::new(k as nat, |j: int| items@[j]@);
                    assert(next.subrange(0, k - 1) =~= cur);
                    lemma_items_same_prefix(next, cur, k - 1);
                    assert(next[k - 1] == iv);
                    assert(next =~= cur.push(iv));
                    assert(s.subrange(o + 8, r.pos() as int) =~= s.subrange(o + 8, p) + s.subrange(p, r.pos() as int));
                }
            }
            let v = Value::List(items);
            proof {
                let cur = Seq::new(n as nat, |j: int| items@[j]@);
                assert(v@->List_0 =~= cur);
                assert(s.subrange(o, r.pos() as int) =~= s.subrange(o, o + 8) + s.subrange(o + 8, r.pos() as int));
                if let Some(w) = expect {
                    assert(cur =~= wi);
                }
            }
            Ok(v)
        },
    }
}

/// Items that agree on a prefix have the same bytes and errors there.
pub proof fn lemma_items_same_prefix(a: Seq<ValueView>, b: Seq<ValueView>, k: int)
    requires
        0 <= k <= a.len(),
        k <= b.len(),
        forall|j: int| 0 <= j < k ==> a[j] == b[j],
    ensures
        encoded_items(a, k) == encoded_items(b, k),
        items_error(a, k) == items_error(b, k),
    decreases k,
{
    if k > 0 {
        lemma_items_same_prefix(a, b, k - 1);
    }
}

/// Where none of the first `n` items has an error, none of the first `k` has.
pub proof fn lemma_items_error_none(items: Seq<ValueView>, k: int, n: int)
    requires
        0 <= k <= n <= items.len(),
        items_error(items, n) is None,
    ensures
        items_error(items, k) is None,
        k < n ==> value_error(items[k]) is None,
{
    if items_error(items, k) is Some {
        lemma_items_error_extends(items, k, n);
    }
    if k < n {
        if items_error(items, k + 1) is Some {
            lemma_items_error_extends(items, k + 1, n);
        }
    }
}

} // verus!
