//! How the two formats relate: the same data, written in either, reads back.
use vstd::prelude::*;
use crate::binary::codec::{encoded, items_error, value_error};
use crate::binary::laws::lemma_binary_round_trip;
use crate::binary::writer::list_bytes;
use crate::text::codec::{streamed, decoded, text_error, text_items_error, TextValue, TextValueView};
use crate::text::round_trip::{floats_read_back, items_read_back, lemma_text_round_trip, ws_config};
use crate::text::tokenizer::{token_kind, TokenView};
use crate::value::{Value, ValueView};

verus! {

/// A binary value and a text value hold the same data: equal integers,
/// equal strings, and lists whose items hold the same data one by one. A
/// float is a bit pattern on one side and decimal text on the other, which
/// only the host's float conversion relates, so neither holds one.
pub open spec fn same_data(v: ValueView, t: TextValue) -> bool
    decreases t, 0int,
{
    match (v, t) {
        (ValueView::Int(a), TextValue::Int(b)) => a == b,
        (ValueView::String(a), TextValue::String(b)) => a == b@,
        (ValueView::List(a), TextValue::List(b)) => a.len() == b@.len() && same_items(a, b@, b@.len() as int),
        _ => false,
    }
}

/// The first `k` items hold the same data.
pub open spec fn same_items(a: Seq<ValueView>, b: Seq<TextValue>, k: int) -> bool
    decreases b, k,
{
    if k <= 0 || k > b.len() || k > a.len() {
        true
    } else {
        same_items(a, b, k - 1) && same_data(a[k - 1], b[k - 1])
    }
}

proof fn lemma_same_items(a: Seq<ValueView>, b: Seq<TextValue>, i: int, k: int)
    requires
        0 <= i < k <= b.len(),
        k <= a.len(),
        same_items(a, b, k),
    ensures
        same_data(a[i], b[i]),
    decreases k,
{
    if i < k - 1 {
        lemma_same_items(a, b, i, k - 1);
    }
}

proof fn lemma_binary_items_ok(a: Seq<ValueView>, i: int, k: int)
    requires
        0 <= i < k <= a.len(),
        items_error(a, k) is None,
    ensures
        value_error(a[i]) is None,
    decreases k,
{
    if i < k - 1 {
        lemma_binary_items_ok(a, i, k - 1);
    }
}

/// Data that the binary writer accepts, held as text, can be written as
/// text and holds no float.
pub proof fn lemma_binary_data_writes_as_text(v: ValueView, t: TextValue)
    requires
        value_error(v) is None,
        same_data(v, t),
    ensures
        text_error(t) is None,
        floats_read_back(t),
    decreases t, 0int,
{
    match t {
        TextValue::List(items) => {
            let a = v->List_0;
            lemma_items_write(a, items@, items@.len() as int);
        },
        TextValue::String(s) => {
            let b = s@;
            assert(crate::binary::ascii::checked(b, None) is Ok);
            assert(b.len() <= 255);
            assert(crate::text::ascii::all_valid(b)) by {
                assert(crate::binary::ascii::all_valid(b));
                assert forall|i: int| 0 <= i < b.len() implies crate::text::ascii::valid_byte(#[trigger] b[i]) by {
                    assert(crate::binary::ascii::valid_byte(b[i]));
                }
            }
        },
        _ => {},
    }
}

proof fn lemma_items_write(a: Seq<ValueView>, b: Seq<TextValue>, k: int)
    requires
        a.len() == b.len() <= 255,
        0 <= k <= b.len(),
        items_error(a, a.len() as int) is None,
        same_items(a, b, b.len() as int),
    ensures
        text_items_error(b, k) is None,
        items_read_back(b, k),
    decreases b, k,
{
    if k > 0 {
        lemma_items_write(a, b, k - 1);
        lemma_binary_items_ok(a, k - 1, a.len() as int);
        lemma_same_items(a, b, k - 1, b.len() as int);
        assert(decreases_to!(b => b[k - 1]));
        lemma_binary_data_writes_as_text(a[k - 1], b[k - 1]);
    }
}

/// Cross-format round trip: data that the binary decoder gives (it can be
/// encoded, by what `from_slice` states) and that holds no float, written
/// as text by the streaming writer, decodes to the same data, with only
/// whitespace after it.
pub proof fn lemma_binary_to_text(v: ValueView, t: TextValue, ind: Seq<u8>, nl: Seq<u8>, dl: Seq<u8>)
    requires
        value_error(v) is None,
        same_data(v, t),
        ws_config(ind, nl, dl),
    ensures
        text_error(t) is None,
        ({
            let s = streamed(t, 0, false, ind, nl, dl);
            decoded(s, 0) matches Some((x, e)) && x == t@ && token_kind(s, e) == TokenView::Eof
        }),
{
    lemma_binary_data_writes_as_text(v, t);
    lemma_text_round_trip(t, ind, nl, dl);
}

proof fn lemma_text_items_ok(b: Seq<TextValue>, i: int, k: int)
    requires
        0 <= i < k <= b.len(),
        text_items_error(b, k) is None,
    ensures
        text_error(b[i]) is None,
    decreases k,
{
    if i < k - 1 {
        lemma_text_items_ok(b, i, k - 1);
    }
}

/// Data that the text writer accepts can be encoded in binary.
pub proof fn lemma_text_data_encodes(v: ValueView, t: TextValue)
    requires
        text_error(t) is None,
        same_data(v, t),
    ensures
        value_error(v) is None,
    decreases t, 0int,
{
    match t {
        TextValue::List(items) => {
            let a = v->List_0;
            lemma_text_items_encode(a, items@, a.len() as int);
        },
        TextValue::String(s) => {
            let b = s@;
            if b.len() > 0 {
                assert(crate::text::ascii::checked(b, None) is Ok);
            }
            assert(crate::binary::ascii::all_valid(b)) by {
                assert forall|i: int| 0 <= i < b.len() implies crate::binary::ascii::valid_byte(#[trigger] b[i]) by {
                    assert(crate::text::ascii::valid_byte(b[i]));
                }
            }
        },
        _ => {},
    }
}

proof fn lemma_text_items_encode(a: Seq<ValueView>, b: Seq<TextValue>, k: int)
    requires
        a.len() == b.len() <= 255,
        0 <= k <= a.len(),
        text_items_error(b, b.len() as int) is None,
        same_items(a, b, b.len() as int),
    ensures
        items_error(a, k) is None,
    decreases b, k,
{
    if k > 0 {
        lemma_text_items_encode(a, b, k - 1);
        lemma_text_items_ok(b, k - 1, b.len() as int);
        lemma_same_items(a, b, k - 1, b.len() as int);
        assert(decreases_to!(b => b[k - 1]));
        lemma_text_data_encodes(a[k - 1], b[k - 1]);
    }
}

/// Cross-format round trip, the other way: data that the text decoder
/// gives (which the text writer accepts, by what `from_str` states) and that
/// holds no float, encodes in binary, and what the binary decoder
/// gives for those bytes is that data.
pub proof fn lemma_text_to_binary(v: ValueView, t: TextValue, x: ValueView)
    requires
        text_error(t) is None,
        same_data(v, t),
        value_error(x) is None,
        list_bytes(1) + encoded(x) == list_bytes(1) + encoded(v),
    ensures
        value_error(v) is None,
        x == v,
{
    lemma_text_data_encodes(v, t);
    lemma_binary_round_trip(v, x);
}

/// The same data held in the other form, checked item by item up to `k`.
proof fn lemma_same_items_prefix(a: Seq<ValueView>, b1: Seq<TextValue>, b2: Seq<TextValue>, k: int)
    requires
        0 <= k <= b1.len(),
        k <= b2.len(),
        forall|j: int| 0 <= j < k ==> b1[j] == b2[j],
    ensures
        same_items(a, b1, k) == same_items(a, b2, k),
    decreases k,
{
    if k > 0 {
        lemma_same_items_prefix(a, b1, b2, k - 1);
    }
}

/// The value holds no float.
pub open spec fn float_free(v: ValueView) -> bool
    decreases v,
{
    match v {
        ValueView::Float(_) => false,
        ValueView::List(items) => forall|i: int| 0 <= i < items.len() ==> float_free(#[trigger] items[i]),
        _ => true,
    }
}

fn copy_bytes(s: &Vec<u8>) -> (r: Vec<u8>)
    ensures
        r@ == s@,
{
    let mut r: Vec<u8> = Vec::new();
    crate::text::string_writer::append(&mut r, s.as_slice());
    assert(r@ =~= s@);
    r
}

/// The same data as a text value: `None` when the value holds a float,
/// whose decimal text only the host's float conversion gives.
pub fn text_of(v: &Value) -> (r: Option<TextValue>)
    ensures
        r matches Some(t) ==> same_data(v@, t),
        float_free(v@) <==> r is Some,
    decreases v@,
{
    match v {
        Value::Int(i) => Some(TextValue::Int(*i)),
        Value::Float(_) => None,
        Value::String(s) => Some(TextValue::String(copy_bytes(s))),
        Value::List(items) => {
            let ghost a = v@->List_0;
            let mut out: Vec<TextValue> = Vec::new();
            let mut i: usize = 0;
            while i < items.len()
                invariant
                    v@ is List,
                    a == v@->List_0,
                    a.len() == items@.len(),
                    forall|j: int| 0 <= j < a.len() ==> a[j] == (#[trigger] items@[j])@,
                    i <= items@.len(),
                    out@.len() == i,
                    same_items(a, out@, i as int),
                    forall|j: int| 0 <= j < i ==> float_free(#[trigger] a[j]),
                decreases items@.len() - i,
            {
                proof {
                    assert(decreases_to!(v@ => v@->List_0));
                    assert(decreases_to!(a => a[i as int]));
                }
                match text_of(&items[i]) {
                    Some(t) => {
                        let ghost before = out@;
                        out.push(t);
                        proof {
                            lemma_same_items_prefix(a, before, out@, i as int);
                        }
                    },
                    None => {
                        assert(!float_free(a[i as int]));
                        return None;
                    },
                }
                i = i + 1;
            }
            Some(TextValue::List(out))
        },
    }
}

/// The text value's data as a value: `None` when it holds a float.
pub fn value_of(t: &TextValue) -> (r: Option<Value>)
    ensures
        r matches Some(v) ==> same_data(v@, *t),
    decreases *t, 0int,
{
    match t {
        TextValue::Int(i) => Some(Value::Int(*i)),
        TextValue::Float(_) => None,
        TextValue::String(s) => Some(Value::String(copy_bytes(s))),
        TextValue::List(items) => {
            let out = values_of(items)?;
            let v = Value::List(out);
            proof {
                assert(v@->List_0 =~= Seq::new(out@.len() as nat, |j: int| out@[j]@));
            }
            Some(v)
        },
    }
}

fn values_of(items: &Vec<TextValue>) -> (r: Option<Vec<Value>>)
    ensures
        r matches Some(out) ==> out@.len() == items@.len()
            && same_items(Seq::new(out@.len() as nat, |j: int| out@[j]@), items@, items@.len() as int),
    decreases items@, 1int,
{
    let mut out: Vec<Value> = Vec::new();
    let mut i: usize = 0;
    while i < items.len()
        invariant
            i <= items@.len(),
            out@.len() == i,
            same_items(Seq::new(i as nat, |j: int| out@[j]@), items@, i as int),
        decreases items@.len() - i,
    {
        proof {
            assert(decreases_to!(items@ => items@[i as int]));
        }
        let ghost cur = Seq::new(i as nat, |j: int| out@[j]@);
        match value_of(&items[i]) {
            Some(v) => {
                let ghost vv = v@;
                out.push(v);
                proof {
                    let next = Seq::new((i + 1) as nat, |j: int| out@[j]@);
                    lemma_same_items_views(cur, next, items@, i as int);
                    assert(next[i as int] == vv);
                }
            },
            None => {
                return None;
            },
        }
        i = i + 1;
    }
    Some(out)
}

proof fn lemma_same_items_views(a1: Seq<ValueView>, a2: Seq<ValueView>, b: Seq<TextValue>, k: int)
    requires
        0 <= k <= a1.len(),
        k <= a2.len(),
        k <= b.len(),
        forall|j: int| 0 <= j < k ==> a1[j] == a2[j],
    ensures
        same_items(a1, b, k) == same_items(a2, b, k),
    decreases k,
{
    if k > 0 {
        lemma_same_items_views(a1, a2, b, k - 1);
    }
}

/// The data of a text value's view, as a value's view (a float, which
/// holds no data in common, reads as 0).
pub open spec fn data_of(t: TextValueView) -> ValueView
    decreases t,
{
    match t {
        TextValueView::Int(i) => ValueView::Int(i),
        TextValueView::String(b) => ValueView::String(b),
        TextValueView::Float(_) => ValueView::Int(0),
        TextValueView::List(items) => ValueView::List(
            Seq::new(items.len(), |i: int| if 0 <= i < items.len() { data_of(items[i]) } else { ValueView::Int(0) }),
        ),
    }
}

/// A value that holds the same data as a text value is fixed by what the
/// text value holds.
pub proof fn lemma_same_data_view(x: ValueView, t: TextValue)
    requires
        same_data(x, t),
    ensures
        x == data_of(t@),
    decreases t, 0int,
{
    if let TextValue::List(items) = t {
        let a = x->List_0;
        let n = items@.len() as int;
        assert forall|j: int| 0 <= j < n implies a[j] == data_of(#[trigger] t@->List_0[j]) by {
            lemma_same_items(a, items@, j, n);
            assert(decreases_to!(t => t->List_0));
            assert(decreases_to!(items@ => items@[j]));
            lemma_same_data_view(a[j], items@[j]);
        }
        assert(a =~= data_of(t@)->List_0);
    }
}

/// Cross-format chain: data decoded from binary, carried as text
/// (`text_of`), written and read back as text, and carried back as a value
/// (`value_of`), is the data decoded from binary.
pub proof fn lemma_binary_text_binary(v: Value, t: TextValue, t2: TextValue, v2: Value)
    requires
        same_data(v@, t),
        t2@ == t@,
        same_data(v2@, t2),
    ensures
        v2@ == v@,
{
    lemma_same_data_view(v@, t);
    lemma_same_data_view(v2@, t2);
}

} // verus!
