//! The pretty text writer: a value is gathered into a tree of elements
//! first, since whether a list fits on one line depends on its children.
use vstd::prelude::*;
use vstd::string::StringSliceAdditionalSpecFns;
use crate::text::config::WhitespaceConfig;
use crate::text::string_writer::{append, append_repeat, repeat};

verus! {

broadcast use vstd::std_specs::vec::group_vec_axioms;

/// The payload of an enum variant.
#[derive(Debug)]
pub enum Variant {
    /// No payload.
    Unit,
    /// One value.
    NewType(Box<Element>),
    /// Values by position.
    Tuple(Vec<Element>),
    /// Values by name.
    Struct(Vec<(Vec<u8>, Element)>),
}

/// A value gathered for pretty writing. The flags tell whether a list is
/// written on one line.
#[derive(Debug)]
pub enum Element {
    /// `()`.
    Unit,
    /// A scalar, as its text.
    Scalar(Vec<u8>),
    /// A present optional value.
    Wrapped(Box<Element>),
    /// A sequence.
    Sequence(Vec<Element>, bool),
    /// A map: key and value pairs.
    Mapping(Vec<(Element, Element)>),
    /// A struct: named fields.
    Struct(Vec<(Vec<u8>, Element)>, bool),
    /// An enum variant: its name and payload.
    Enum(Vec<u8>, Variant, bool),
}

impl Element {
    /// The element is written on one line.
    pub open spec fn compact(&self) -> bool
        decreases self,
    {
        match self {
            Element::Scalar(_) | Element::Unit => true,
            Element::Wrapped(inner) => inner.compact(),
            Element::Sequence(_, c) => *c,
            Element::Mapping(_) => false,
            Element::Struct(_, c) => *c,
            Element::Enum(_, _, c) => *c,
        }
    }

    /// The element is written on one line.
    pub fn is_compact(&self) -> (r: bool)
        ensures
            r == self.compact(),
        decreases self,
    {
        match self {
            Element::Scalar(_) | Element::Unit => true,
            Element::Wrapped(inner) => inner.is_compact(),
            Element::Sequence(_, c) => *c,
            Element::Mapping(_) => false,
            Element::Struct(_, c) => *c,
            Element::Enum(_, _, c) => *c,
        }
    }
}

/// A list with these children is written on one line: all are, and it has
/// fewer than 7 items.
pub open spec fn compact_list(all_compact: bool, len: int) -> bool {
    all_compact && len < 7
}

/// The items are all written on one line.
pub open spec fn all_compact(items: Seq<Element>) -> bool {
    forall|i: int| 0 <= i < items.len() ==> (#[trigger] items[i]).compact()
}

/// The field values are all written on one line.
pub open spec fn all_fields_compact(fields: Seq<(Vec<u8>, Element)>) -> bool {
    forall|i: int| 0 <= i < fields.len() ==> (#[trigger] fields[i]).1.compact()
}

fn items_compact(items: &Vec<Element>) -> (r: bool)
    ensures
        r == all_compact(items@),
{
    let mut i: usize = 0;
    while i < items.len()
        invariant
            i <= items@.len(),
            forall|j: int| 0 <= j < i ==> (#[trigger] items@[j]).compact(),
        decreases items@.len() - i,
    {
        if !items[i].is_compact() {
            return false;
        }
        i = i + 1;
    }
    true
}

fn fields_compact(fields: &Vec<(Vec<u8>, Element)>) -> (r: bool)
    ensures
        r == all_fields_compact(fields@),
{
    let mut i: usize = 0;
    while i < fields.len()
        invariant
            i <= fields@.len(),
            forall|j: int| 0 <= j < i ==> (#[trigger] fields@[j]).1.compact(),
        decreases fields@.len() - i,
    {
        if !fields[i].1.is_compact() {
            return false;
        }
        i = i + 1;
    }
    true
}

impl Element {
    /// A sequence (or tuple) of items, on one line when all items are and
    /// there are fewer than 7.
    pub fn seq(items: Vec<Element>) -> (r: Element)
        ensures
            r matches Element::Sequence(v, c) && v@ == items@ && c == compact_list(all_compact(items@), items@.len() as int),
    {
        let c = items_compact(&items) && items.len() < 7;
        Element::Sequence(items, c)
    }

    /// A struct of named fields, on one line when all values are and there
    /// are fewer than 7 names and values together.
    pub fn structure(fields: Vec<(Vec<u8>, Element)>) -> (r: Element)
        ensures
            r matches Element::Struct(v, c) && v@ == fields@ && c == compact_list(all_fields_compact(fields@), 2 * fields@.len() as int),
    {
        let c = fields_compact(&fields) && fields.len() < 4;
        Element::Struct(fields, c)
    }

    /// A variant with one value: on one line when the value is.
    pub fn newtype_variant(name: Vec<u8>, inner: Element) -> (r: Element)
        ensures
            r matches Element::Enum(n, Variant::NewType(b), c) && n@ == name@ && *b == inner && c == inner.compact(),
    {
        let c = inner.is_compact();
        Element::Enum(name, Variant::NewType(Box::new(inner)), c)
    }

    /// A variant with values by position, on one line when all are and there
    /// are fewer than 7.
    pub fn tuple_variant(name: Vec<u8>, items: Vec<Element>) -> (r: Element)
        ensures
            r matches Element::Enum(n, Variant::Tuple(v), c) && n@ == name@ && v@ == items@
                && c == compact_list(all_compact(items@), items@.len() as int),
    {
        let c = items_compact(&items) && items.len() < 7;
        Element::Enum(name, Variant::Tuple(items), c)
    }

    /// A variant with values by name, on one line when all values are and
    /// there are fewer than 7 names and values together.
    pub fn struct_variant(name: Vec<u8>, fields: Vec<(Vec<u8>, Element)>) -> (r: Element)
        ensures
            r matches Element::Enum(n, Variant::Struct(v), c) && n@ == name@ && v@ == fields@
                && c == compact_list(all_fields_compact(fields@), 2 * fields@.len() as int),
    {
        let c = fields_compact(&fields) && fields.len() < 4;
        Element::Enum(name, Variant::Struct(fields), c)
    }
}

/// The whitespace of a configuration, as bytes.
pub struct Ws {
    pub ind: Seq<u8>,
    pub nl: Seq<u8>,
    pub dl: Seq<u8>,
}

/// The whitespace bytes of a configuration.
pub open spec fn ws_of(config: WhitespaceConfig) -> Ws {
    Ws {
        ind: config.indent.spec_bytes(),
        nl: config.newline.spec_bytes(),
        dl: config.delimiter.spec_bytes(),
    }
}

/// How deep lists nest inside an element.
pub open spec fn height(e: Element) -> nat
    decreases e, 0int,
{
    match e {
        Element::Unit | Element::Scalar(_) => 0,
        Element::Wrapped(inner) => height(*inner),
        Element::Sequence(items, _) => 1 + items_height(items@, items@.len() as int),
        Element::Mapping(pairs) => 1 + pairs_height(pairs@, pairs@.len() as int),
        Element::Struct(fields, _) => 1 + fields_height(fields@, fields@.len() as int),
        Element::Enum(_, v, _) => match v {
            Variant::Unit => 0,
            Variant::NewType(inner) => height(*inner),
            Variant::Tuple(items) => 1 + items_height(items@, items@.len() as int),
            Variant::Struct(fields) => 1 + fields_height(fields@, fields@.len() as int),
        },
    }
}

/// The greatest height among the first `k` items.
pub open spec fn items_height(items: Seq<Element>, k: int) -> nat
    decreases items, k,
{
    if k <= 0 || k > items.len() {
        0
    } else {
        let h = height(items[k - 1]);
        let r = items_height(items, k - 1);
        if h > r { h } else { r }
    }
}

/// The greatest height among the values of the first `k` fields.
pub open spec fn fields_height(fields: Seq<(Vec<u8>, Element)>, k: int) -> nat
    decreases fields, k,
{
    if k <= 0 || k > fields.len() {
        0
    } else {
        let h = height(fields[k - 1].1);
        let r = fields_height(fields, k - 1);
        if h > r { h } else { r }
    }
}

/// The greatest height among the keys and values of the first `k` pairs.
pub open spec fn pairs_height(pairs: Seq<(Element, Element)>, k: int) -> nat
    decreases pairs, k,
{
    if k <= 0 || k > pairs.len() {
        0
    } else {
        let h0 = height(pairs[k - 1].0);
        let h1 = height(pairs[k - 1].1);
        let h = if h0 > h1 { h0 } else { h1 };
        let r = pairs_height(pairs, k - 1);
        if h > r { h } else { r }
    }
}

/// The text of an element written at nesting `level`; the caller writes the
/// indent before it and the newline after it.
pub open spec fn render(e: Element, level: int, w: Ws) -> Seq<u8>
    decreases e, 0int,
{
    match e {
        Element::Unit => seq![0x28u8, 0x29u8],
        Element::Scalar(s) => s@,
        Element::Wrapped(inner) => seq![0x28u8] + render(*inner, level, w) + seq![0x29u8],
        Element::Sequence(items, c) => seq![0x28u8] + (if c {
            items_join(items@, items@.len() as int, level, w)
        } else {
            w.nl + items_lines(items@, items@.len() as int, level, w) + repeat(w.ind, level as nat)
        }) + seq![0x29u8],
        Element::Mapping(pairs) => seq![0x28u8] + w.nl + pairs_lines(pairs@, pairs@.len() as int, level, w)
            + repeat(w.ind, level as nat) + seq![0x29u8],
        Element::Struct(fields, c) => seq![0x28u8] + (if c {
            fields_join(fields@, fields@.len() as int, level, w)
        } else {
            w.nl + fields_lines(fields@, fields@.len() as int, level, w) + repeat(w.ind, level as nat)
        }) + seq![0x29u8],
        Element::Enum(name, v, c) => match v {
            Variant::Unit => name@,
            Variant::NewType(inner) => name@ + seq![0x28u8] + render(*inner, level, w) + seq![0x29u8],
            Variant::Tuple(items) => name@ + seq![0x28u8] + (if c {
                items_join(items@, items@.len() as int, level, w)
            } else {
                w.nl + items_lines(items@, items@.len() as int, level, w) + repeat(w.ind, level as nat)
            }) + seq![0x29u8],
            Variant::Struct(fields) => name@ + seq![0x28u8] + (if c {
                fields_join(fields@, fields@.len() as int, level, w)
            } else {
                w.nl + fields_lines(fields@, fields@.len() as int, level, w) + repeat(w.ind, level as nat)
            }) + seq![0x29u8],
        },
    }
}

/// The first `k` items on one line, separated by the delimiter.
pub open spec fn items_join(items: Seq<Element>, k: int, level: int, w: Ws) -> Seq<u8>
    decreases items, k,
{
    if k <= 0 || k > items.len() {
        Seq::empty()
    } else if k == 1 {
        render(items[0], level + 1, w)
    } else {
        items_join(items, k - 1, level, w) + w.dl + render(items[k - 1], level + 1, w)
    }
}

/// The first `k` items, each on its own indented line.
pub open spec fn items_lines(items: Seq<Element>, k: int, level: int, w: Ws) -> Seq<u8>
    decreases items, k,
{
    if k <= 0 || k > items.len() {
        Seq::empty()
    } else {
        items_lines(items, k - 1, level, w) + repeat(w.ind, (level + 1) as nat) + render(items[k - 1], level + 1, w) + w.nl
    }
}

/// The first `k` fields on one line: names and values separated by the
/// delimiter.
pub open spec fn fields_join(fields: Seq<(Vec<u8>, Element)>, k: int, level: int, w: Ws) -> Seq<u8>
    decreases fields, k,
{
    if k <= 0 || k > fields.len() {
        Seq::empty()
    } else if k == 1 {
        fields[0].0@ + w.dl + render(fields[0].1, level + 1, w)
    } else {
        fields_join(fields, k - 1, level, w) + w.dl + fields[k - 1].0@ + w.dl + render(fields[k - 1].1, level + 1, w)
    }
}

/// The first `k` fields, each on its own indented line.
pub open spec fn fields_lines(fields: Seq<(Vec<u8>, Element)>, k: int, level: int, w: Ws) -> Seq<u8>
    decreases fields, k,
{
    if k <= 0 || k > fields.len() {
        Seq::empty()
    } else {
        fields_lines(fields, k - 1, level, w) + repeat(w.ind, (level + 1) as nat) + fields[k - 1].0@ + w.dl
            + render(fields[k - 1].1, level + 1, w) + w.nl
    }
}

/// The first `k` pairs of a map, each on its own indented line.
pub open spec fn pairs_lines(pairs: Seq<(Element, Element)>, k: int, level: int, w: Ws) -> Seq<u8>
    decreases pairs, k,
{
    if k <= 0 || k > pairs.len() {
        Seq::empty()
    } else {
        pairs_lines(pairs, k - 1, level, w) + repeat(w.ind, (level + 1) as nat) + render(pairs[k - 1].0, level + 1, w) + w.dl
            + render(pairs[k - 1].1, level + 1, w) + w.nl
    }
}

proof fn lemma_items_height(items: Seq<Element>, i: int, k: int)
    requires
        0 <= i < k <= items.len(),
    ensures
        height(items[i]) <= items_height(items, k),
    decreases k,
{
    if i < k - 1 {
        lemma_items_height(items, i, k - 1);
    }
}

proof fn lemma_fields_height(fields: Seq<(Vec<u8>, Element)>, i: int, k: int)
    requires
        0 <= i < k <= fields.len(),
    ensures
        height(fields[i].1) <= fields_height(fields, k),
    decreases k,
{
    if i < k - 1 {
        lemma_fields_height(fields, i, k - 1);
    }
}

proof fn lemma_pairs_height(pairs: Seq<(Element, Element)>, i: int, k: int)
    requires
        0 <= i < k <= pairs.len(),
    ensures
        height(pairs[i].0) <= pairs_height(pairs, k),
        height(pairs[i].1) <= pairs_height(pairs, k),
    decreases k,
{
    if i < k - 1 {
        lemma_pairs_height(pairs, i, k - 1);
    }
}

fn push_byte(out: &mut Vec<u8>, b: u8)
    ensures
        final(out)@ == old(out)@ + seq![b],
{
    out.push(b);
    assert(final(out)@ =~= old(out)@ + seq![b]);
}

fn write_items(out: &mut Vec<u8>, items: &Vec<Element>, compact: bool, level: usize, config: &WhitespaceConfig)
    requires
        level + 1 + items_height(items@, items@.len() as int) < usize::MAX,
    ensures
        final(out)@ == old(out)@ + (if compact {
            items_join(items@, items@.len() as int, level as int, ws_of(*config))
        } else {
            ws_of(*config).nl + items_lines(items@, items@.len() as int, level as int, ws_of(*config)) + repeat(ws_of(*config).ind, level as nat)
        }),
    decreases items@, 1int,
{
    let ghost w = ws_of(*config);
    let ghost n = items@.len() as int;
    if !compact {
        append(out, config.newline.as_bytes());
    }
    let ghost start = out@;
    let mut i: usize = 0;
    while i < items.len()
        invariant
            i <= items@.len() == n,
            w == ws_of(*config),
            level + 1 + items_height(items@, n) < usize::MAX,
            compact ==> out@ == start + items_join(items@, i as int, level as int, w),
            !compact ==> out@ == start + items_lines(items@, i as int, level as int, w),
        decreases items@.len() - i,
    {
        proof {
            lemma_items_height(items@, i as int, n);
            assert(decreases_to!(items@ => items@[i as int]));
        }
        if compact {
            if i > 0 {
                append(out, config.delimiter.as_bytes());
            }
        } else {
            append_repeat(out, config.indent.as_bytes(), level + 1);
        }
        write_element(out, &items[i], level + 1, config);
        if !compact {
            append(out, config.newline.as_bytes());
        }
        i = i + 1;
        proof {
            if compact {
                if i == 1 {
                    assert(out@ =~= start + items_join(items@, i as int, level as int, w));
                } else {
                    assert(out@ =~= start + items_join(items@, i as int, level as int, w));
                }
            } else {
                assert(out@ =~= start + items_lines(items@, i as int, level as int, w));
            }
        }
    }
    if !compact {
        append_repeat(out, config.indent.as_bytes(), level);
    }
    assert(final(out)@ =~= old(out)@ + (if compact {
        items_join(items@, n, level as int, w)
    } else {
        w.nl + items_lines(items@, n, level as int, w) + repeat(w.ind, level as nat)
    }));
}

fn write_fields(out: &mut Vec<u8>, fields: &Vec<(Vec<u8>, Element)>, compact: bool, level: usize, config: &WhitespaceConfig)
    requires
        level + 1 + fields_height(fields@, fields@.len() as int) < usize::MAX,
    ensures
        final(out)@ == old(out)@ + (if compact {
            fields_join(fields@, fields@.len() as int, level as int, ws_of(*config))
        } else {
            ws_of(*config).nl + fields_lines(fields@, fields@.len() as int, level as int, ws_of(*config)) + repeat(ws_of(*config).ind, level as nat)
        }),
    decreases fields@, 1int,
{
    let ghost w = ws_of(*config);
    let ghost n = fields@.len() as int;
    if !compact {
        append(out, config.newline.as_bytes());
    }
    let ghost start = out@;
    let mut i: usize = 0;
    while i < fields.len()
        invariant
            i <= fields@.len() == n,
            w == ws_of(*config),
            level + 1 + fields_height(fields@, n) < usize::MAX,
            compact ==> out@ == start + fields_join(fields@, i as int, level as int, w),
            !compact ==> out@ == start + fields_lines(fields@, i as int, level as int, w),
        decreases fields@.len() - i,
    {
        proof {
            lemma_fields_height(fields@, i as int, n);
            assert(decreases_to!(fields@ => fields@[i as int]));
            assert(decreases_to!(fields@[i as int] => fields@[i as int].1));
        }
        if compact {
            if i > 0 {
                append(out, config.delimiter.as_bytes());
            }
        } else {
            append_repeat(out, config.indent.as_bytes(), level + 1);
        }
        append(out, fields[i].0.as_slice());
        append(out, config.delimiter.as_bytes());
        write_element(out, &fields[i].1, level + 1, config);
        if !compact {
            append(out, config.newline.as_bytes());
        }
        i = i + 1;
        proof {
            if compact {
                assert(out@ =~= start + fields_join(fields@, i as int, level as int, w));
            } else {
                assert(out@ =~= start + fields_lines(fields@, i as int, level as int, w));
            }
        }
    }
    if !compact {
        append_repeat(out, config.indent.as_bytes(), level);
    }
    assert(final(out)@ =~= old(out)@ + (if compact {
        fields_join(fields@, n, level as int, w)
    } else {
        w.nl + fields_lines(fields@, n, level as int, w) + repeat(w.ind, level as nat)
    }));
}

fn write_pairs(out: &mut Vec<u8>, pairs: &Vec<(Element, Element)>, level: usize, config: &WhitespaceConfig)
    requires
        level + 1 + pairs_height(pairs@, pairs@.len() as int) < usize::MAX,
    ensures
        final(out)@ == old(out)@ + pairs_lines(pairs@, pairs@.len() as int, level as int, ws_of(*config)),
    decreases pairs@, 1int,
{
    let ghost w = ws_of(*config);
    let ghost n = pairs@.len() as int;
    let mut i: usize = 0;
    while i < pairs.len()
        invariant
            i <= pairs@.len() == n,
            w == ws_of(*config),
            level + 1 + pairs_height(pairs@, n) < usize::MAX,
            out@ == old(out)@ + pairs_lines(pairs@, i as int, level as int, w),
        decreases pairs@.len() - i,
    {
        proof {
            lemma_pairs_height(pairs@, i as int, n);
            assert(decreases_to!(pairs@ => pairs@[i as int]));
            assert(decreases_to!(pairs@[i as int] => pairs@[i as int].0));
            assert(decreases_to!(pairs@[i as int] => pairs@[i as int].1));
        }
        append_repeat(out, config.indent.as_bytes(), level + 1);
        write_element(out, &pairs[i].0, level + 1, config);
        append(out, config.delimiter.as_bytes());
        write_element(out, &pairs[i].1, level + 1, config);
        append(out, config.newline.as_bytes());
        i = i + 1;
        assert(out@ =~= old(out)@ + pairs_lines(pairs@, i as int, level as int, w));
    }
}

fn write_element(out: &mut Vec<u8>, e: &Element, level: usize, config: &WhitespaceConfig)
    requires
        level + height(*e) < usize::MAX,
    ensures
        final(out)@ == old(out)@ + render(*e, level as int, ws_of(*config)),
    decreases *e, 0int,
{
    let ghost w = ws_of(*config);
    match e {
        Element::Unit => {
            push_byte(out, 0x28);
            push_byte(out, 0x29);
        },
        Element::Scalar(s) => append(out, s.as_slice()),
        Element::Wrapped(inner) => {
            push_byte(out, 0x28);
            write_element(out, inner, level, config);
            push_byte(out, 0x29);
        },
        Element::Sequence(items, c) => {
            push_byte(out, 0x28);
            write_items(out, items, *c, level, config);
            push_byte(out, 0x29);
        },
        Element::Mapping(pairs) => {
            push_byte(out, 0x28);
            append(out, config.newline.as_bytes());
            write_pairs(out, pairs, level, config);
            append_repeat(out, config.indent.as_bytes(), level);
            push_byte(out, 0x29);
        },
        Element::Struct(fields, c) => {
            push_byte(out, 0x28);
            write_fields(out, fields, *c, level, config);
            push_byte(out, 0x29);
        },
        Element::Enum(name, v, c) => {
            append(out, name.as_slice());
            match v {
                Variant::Unit => {},
                Variant::NewType(inner) => {
                    push_byte(out, 0x28);
                    write_element(out, inner, level, config);
                    push_byte(out, 0x29);
                },
                Variant::Tuple(items) => {
                    push_byte(out, 0x28);
                    write_items(out, items, *c, level, config);
                    push_byte(out, 0x29);
                },
                Variant::Struct(fields) => {
                    push_byte(out, 0x28);
                    write_fields(out, fields, *c, level, config);
                    push_byte(out, 0x29);
                },
            }
        },
    }
    assert(final(out)@ =~= old(out)@ + render(*e, level as int, w));
}

/// Write an element as text, followed by a newline.
pub fn write(element: &Element, config: &WhitespaceConfig) -> (r: Vec<u8>)
    requires
        height(*element) < usize::MAX,
    ensures
        r@ == render(*element, 0, ws_of(*config)) + ws_of(*config).nl,
{
    let mut out: Vec<u8> = Vec::new();
    write_element(&mut out, element, 0, config);
    append(&mut out, config.newline.as_bytes());
    assert(out@ =~= render(*element, 0, ws_of(*config)) + ws_of(*config).nl);
    out
}

} // verus!
