//! Display of a value: compact on one line, or pretty with nested lists on
//! indented lines.
use vstd::prelude::*;
use crate::text::codec::TextValue;
use crate::text::string_writer::{append, append_repeat, int_text, push_decimal, repeat};

verus! {

broadcast use vstd::std_specs::vec::group_vec_axioms;

/// The display of a value at nesting `level`: scalars as they are (strings
/// unquoted); lists in parentheses, items separated by a space when
/// compact; when pretty, by a tab, or one per tab-indented line when a list
/// holds a list.
pub open spec fn shown(v: TextValue, pretty: bool, level: nat) -> Seq<u8>
    decreases v, 0int,
{
    match v {
        TextValue::Int(i) => int_text(i as int),
        TextValue::Float(t) => t@,
        TextValue::String(s) => s@,
        TextValue::List(items) => if pretty && items@.len() == 0 {
            seq![0x28u8, 0x29u8]
        } else if pretty && has_list(items@) {
            seq![0x28u8, 0x0au8] + shown_lines(items@, items@.len() as int, level) + repeat(seq![0x09u8], level)
                + seq![0x29u8]
        } else {
            seq![0x28u8] + shown_join(items@, items@.len() as int, pretty, level) + seq![0x29u8]
        },
    }
}

/// Some item is a list.
pub open spec fn has_list(items: Seq<TextValue>) -> bool {
    exists|i: int| 0 <= i < items.len() && (#[trigger] items[i]) is List
}

/// The first `k` items on one line: separated by a space when compact, by a
/// tab when pretty.
pub open spec fn shown_join(items: Seq<TextValue>, k: int, pretty: bool, level: nat) -> Seq<u8>
    decreases items, k,
{
    if k <= 0 || k > items.len() {
        Seq::empty()
    } else if k == 1 {
        shown(items[0], pretty, level)
    } else {
        shown_join(items, k - 1, pretty, level) + (if pretty { seq![0x09u8] } else { seq![0x20u8] }) + shown(
            items[k - 1],
            pretty,
            level,
        )
    }
}

/// The first `k` items, each on its own line indented one tab deeper.
pub open spec fn shown_lines(items: Seq<TextValue>, k: int, level: nat) -> Seq<u8>
    decreases items, k,
{
    if k <= 0 || k > items.len() {
        Seq::empty()
    } else {
        shown_lines(items, k - 1, level) + repeat(seq![0x09u8], level + 1) + shown(items[k - 1], true, level + 1)
            + seq![0x0au8]
    }
}

fn any_list(items: &Vec<TextValue>) -> (r: bool)
    ensures
        r == has_list(items@),
{
    let mut i: usize = 0;
    while i < items.len()
        invariant
            i <= items@.len(),
            forall|j: int| 0 <= j < i ==> !((#[trigger] items@[j]) is List),
        decreases items@.len() - i,
    {
        if let TextValue::List(_) = &items[i] {
            assert(items@[i as int] is List);
            return true;
        }
        i = i + 1;
    }
    false
}

fn show_items(out: &mut Vec<u8>, items: &Vec<TextValue>, pretty: bool, level: usize)
    requires
        level + 1 + crate::text::codec::items_depth(items@, items@.len() as int) < usize::MAX,
    ensures
        pretty && has_list(items@) && items@.len() > 0 ==> final(out)@ == old(out)@ + shown_lines(items@, items@.len() as int, level as nat),
        !(pretty && has_list(items@)) ==> final(out)@ == old(out)@ + shown_join(items@, items@.len() as int, pretty, level as nat),
    decreases items@, 1int,
{
    let lines = pretty && any_list(items);
    let ghost n = items@.len() as int;
    let mut i: usize = 0;
    let tab: [u8; 1] = [0x09];
    proof {
        assert(tab@ == seq![0x09u8]);
    }
    while i < items.len()
        invariant
            i <= items@.len() == n,
            level + 1 + crate::text::codec::items_depth(items@, n) < usize::MAX,
            tab@ == seq![0x09u8],
            lines == (pretty && has_list(items@)),
            lines ==> out@ == old(out)@ + shown_lines(items@, i as int, level as nat),
            !lines ==> out@ == old(out)@ + shown_join(items@, i as int, pretty, level as nat),
        decreases items@.len() - i,
    {
        proof {
            assert(decreases_to!(items@ => items@[i as int]));
            crate::text::codec::lemma_depth_items(items@);
        }
        if lines {
            append_repeat(out, tab.as_slice(), level + 1);
            show(out, &items[i], true, level + 1);
            out.push(0x0a);
        } else {
            if i > 0 {
                out.push(if pretty { 0x09 } else { 0x20 });
            }
            show(out, &items[i], pretty, level);
        }
        i = i + 1;
        proof {
            if lines {
                assert(out@ =~= old(out)@ + shown_lines(items@, i as int, level as nat));
            } else {
                assert(out@ =~= old(out)@ + shown_join(items@, i as int, pretty, level as nat));
            }
        }
    }
}

fn show(out: &mut Vec<u8>, v: &TextValue, pretty: bool, level: usize)
    requires
        level + crate::text::codec::depth(*v) < usize::MAX,
    ensures
        final(out)@ == old(out)@ + shown(*v, pretty, level as nat),
    decreases *v, 0int,
{
    match v {
        TextValue::Int(i) => push_decimal(out, *i),
        TextValue::Float(t) => append(out, t.as_slice()),
        TextValue::String(s) => append(out, s.as_slice()),
        TextValue::List(items) => {
            if pretty && items.len() == 0 {
                out.push(0x28);
                out.push(0x29);
                assert(final(out)@ =~= old(out)@ + shown(*v, pretty, level as nat));
                return;
            }
            proof {
                crate::text::codec::lemma_depth_items(items@);
            }
            let lines = pretty && any_list(items);
            if lines {
                out.push(0x28);
                out.push(0x0a);
                show_items(out, items, pretty, level);
                let tab: [u8; 1] = [0x09];
                append_repeat(out, tab.as_slice(), level);
                out.push(0x29);
                assert(tab@ == seq![0x09u8]);
            } else {
                out.push(0x28);
                show_items(out, items, pretty, level);
                out.push(0x29);
            }
            assert(final(out)@ =~= old(out)@ + shown(*v, pretty, level as nat));
        },
    }
}

impl TextValue {
    /// The value on one line: lists in parentheses, items separated by a
    /// space.
    pub fn display_compact(&self) -> (r: Vec<u8>)
        requires
            crate::text::codec::depth(*self) < usize::MAX,
        ensures
            r@ == shown(*self, false, 0),
    {
        let mut out: Vec<u8> = Vec::new();
        show(&mut out, self, false, 0);
        assert(out@ =~= shown(*self, false, 0));
        out
    }

    /// The value with lists that hold lists laid out one item per
    /// tab-indented line.
    pub fn display_pretty(&self) -> (r: Vec<u8>)
        requires
            crate::text::codec::depth(*self) < usize::MAX,
        ensures
            r@ == shown(*self, true, 0),
    {
        let mut out: Vec<u8> = Vec::new();
        show(&mut out, self, true, 0);
        assert(out@ =~= shown(*self, true, 0));
        out
    }
}

} // verus!
