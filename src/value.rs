//! The generic value carrier: any zlisp value, without a static shape.
use vstd::prelude::*;

verus! {

/// Any zlisp value.
#[derive(Debug, PartialEq)]
pub enum Value {
    /// An integer.
    Int(i32),
    /// A float, as the bit pattern of an IEEE-754 binary32 value.
    Float(u32),
    /// A string, as its bytes.
    String(Vec<u8>),
    /// A list.
    List(Vec<Value>),
}

/// What a value holds, in terms of plain values.
pub enum ValueView {
    Int(i32),
    Float(u32),
    String(Seq<u8>),
    List(Seq<ValueView>),
}

impl Value {
    /// What the value holds.
    pub open spec fn view(&self) -> ValueView
        decreases self,
    {
        match self {
            Value::Int(v) => ValueView::Int(*v),
            Value::Float(v) => ValueView::Float(*v),
            Value::String(s) => ValueView::String(s@),
            Value::List(items) => ValueView::List(
                Seq::new(
                    items.len() as nat,
                    |i: int|
                        if 0 <= i < items.len() {
                            items[i].view()
                        } else {
                            ValueView::Int(0)
                        },
                ),
            ),
        }
    }
}

} // verus!
