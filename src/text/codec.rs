//! Encoding and decoding the generic value carrier as text.
use vstd::prelude::*;
use vstd::string::StringSliceAdditionalSpecFns;
use vstd::utf8::decode_utf8;
use crate::text::ascii::{checked, needs_quoting, to_raw};
use crate::text::config::WhitespaceConfig;
use crate::text::error::{Error, ErrorCode, TokenType};
use crate::text::pretty::{all_compact, height, items_height, items_join, items_lines, render, ws_of, Element, Ws};
use crate::text::reader::{token_any, type_at, StrReader};
use crate::text::tokenizer::{skip_ws, token_end, token_kind, token_ok, TokenView};
use crate::text::parse::AnyView;
use crate::text::parse::Any;
use crate::text::string_writer::{int_text, is_ascii_bytes, repeat, written_str, StringWriter};
use crate::text::tokenizer::Token;

verus! {

/// The largest number of items in a list.
pub const MAX_LIST_LEN: usize = 255;

broadcast use vstd::std_specs::vec::group_vec_axioms;

/// A zlisp value as the text format holds it: a float as its decimal text.
#[derive(Debug, PartialEq)]
pub enum TextValue {
    /// An integer.
    Int(i32),
    /// A float, as decimal text.
    Float(Vec<u8>),
    /// A string.
    String(Vec<u8>),
    /// A list.
    List(Vec<TextValue>),
}

/// Why a value cannot be written as text, if it cannot: the first string,
/// in the order of writing, that breaks the alphabet, or a list of more
/// than 255 items.
pub open spec fn text_error(v: TextValue) -> Option<Error>
    decreases v, 0int,
{
    match v {
        TextValue::String(s) => if s@.len() > 0 && checked(s@, None) is Err {
            Some(checked(s@, None)->Err_0)
        } else {
            None
        },
        TextValue::List(items) => if items@.len() > MAX_LIST_LEN {
            Some(Error { code: ErrorCode::SequenceTooLong, location: None })
        } else {
            text_items_error(items@, items@.len() as int)
        },
        _ => None,
    }
}

/// Why one of the first `k` items cannot be written, if one cannot.
pub open spec fn text_items_error(items: Seq<TextValue>, k: int) -> Option<Error>
    decreases items, k,
{
    if k <= 0 || k > items.len() {
        None
    } else {
        match text_items_error(items, k - 1) {
            Some(e) => Some(e),
            None => text_error(items[k - 1]),
        }
    }
}

/// Floats hold ASCII text.
pub open spec fn floats_ascii(v: TextValue) -> bool
    decreases v, 0int,
{
    match v {
        TextValue::Float(t) => is_ascii_bytes(t@),
        TextValue::List(items) => floats_items_ascii(items@, items@.len() as int),
        _ => true,
    }
}

/// The first `k` items hold ASCII float text.
pub open spec fn floats_items_ascii(items: Seq<TextValue>, k: int) -> bool
    decreases items, k,
{
    if k <= 0 || k > items.len() {
        true
    } else {
        floats_items_ascii(items, k - 1) && floats_ascii(items[k - 1])
    }
}

/// How deep lists nest in a value.
pub open spec fn depth(v: TextValue) -> nat
    decreases v, 0int,
{
    match v {
        TextValue::List(items) => 1 + items_depth(items@, items@.len() as int),
        _ => 0,
    }
}

/// The greatest depth among the first `k` items.
pub open spec fn items_depth(items: Seq<TextValue>, k: int) -> nat
    decreases items, k,
{
    if k <= 0 || k > items.len() {
        0
    } else {
        let h = depth(items[k - 1]);
        let r = items_depth(items, k - 1);
        if h > r { h } else { r }
    }
}

/// The streaming text of a value at nesting `level`, where `after` tells
/// whether a string was written just before.
pub open spec fn streamed(v: TextValue, level: nat, after: bool, ind: Seq<u8>, nl: Seq<u8>, dl: Seq<u8>) -> Seq<u8>
    decreases v, 0int,
{
    match v {
        TextValue::Int(i) => repeat(ind, level) + int_text(i as int) + nl,
        TextValue::Float(t) => repeat(ind, level) + t@ + nl,
        TextValue::String(s) => repeat(ind, level) + written_str(s@, needs_quoting(s@)) + nl,
        TextValue::List(items) => (if after { dl } else { repeat(ind, level) }) + seq![0x28u8] + nl
            + streamed_items(items@, items@.len() as int, level + 1, ind, nl, dl) + repeat(ind, level) + seq![0x29u8] + nl,
    }
}

/// The streaming text of the first `k` items of a list at nesting `level`.
pub open spec fn streamed_items(items: Seq<TextValue>, k: int, level: nat, ind: Seq<u8>, nl: Seq<u8>, dl: Seq<u8>) -> Seq<u8>
    decreases items, k,
{
    if k <= 0 || k > items.len() {
        Seq::empty()
    } else {
        streamed_items(items, k - 1, level, ind, nl, dl) + streamed(
            items[k - 1],
            level,
            k >= 2 && items[k - 2] is String,
            ind,
            nl,
            dl,
        )
    }
}

pub proof fn lemma_items_error_prefix(items: Seq<TextValue>, k: int, n: int)
    requires
        0 <= k <= n <= items.len(),
        text_items_error(items, n) is None,
    ensures
        text_items_error(items, k) is None,
        k < n ==> text_error(items[k]) is None,
    decreases n - k,
{
    if k < n {
        lemma_items_error_prefix(items, k + 1, n);
    }
}

proof fn lemma_items_error_extend(items: Seq<TextValue>, k: int, n: int)
    requires
        0 <= k <= n <= items.len(),
        text_items_error(items, k) is Some,
    ensures
        text_items_error(items, n) == text_items_error(items, k),
    decreases n - k,
{
    if k < n {
        lemma_items_error_extend(items, k, n - 1);
    }
}

proof fn lemma_items_depth(items: Seq<TextValue>, i: int, k: int)
    requires
        0 <= i < k <= items.len(),
    ensures
        depth(items[i]) <= items_depth(items, k),
    decreases k,
{
    if i < k - 1 {
        lemma_items_depth(items, i, k - 1);
    }
}

proof fn lemma_floats_prefix(items: Seq<TextValue>, i: int, k: int)
    requires
        0 <= i < k <= items.len(),
        floats_items_ascii(items, k),
    ensures
        floats_ascii(items[i]),
    decreases k,
{
    if i < k - 1 {
        lemma_floats_prefix(items, i, k - 1);
    }
}

fn stream_items(w: &mut StringWriter, items: &Vec<TextValue>) -> (r: Result<(), Error>)
    requires
        old(w).wf(),
        !old(w).after_string(),
        old(w).level() + items_depth(items@, items@.len() as int) < usize::MAX,
        floats_items_ascii(items@, items@.len() as int),
    ensures
        final(w).wf(),
        final(w).cfg() == old(w).cfg(),
        r is Ok ==> final(w).level() == old(w).level(),
        text_items_error(items@, items@.len() as int) matches Some(e) ==> r == Err::<(), Error>(e),
        text_items_error(items@, items@.len() as int) is None ==> r is Ok && final(w).out() == old(w).out()
            + streamed_items(items@, items@.len() as int, old(w).level(), old(w).indent(), old(w).newline(), old(w).delimiter()),
    decreases items@, 1int,
{
    let ghost n = items@.len() as int;
    let mut i: usize = 0;
    while i < items.len()
        invariant
            w.wf(),
            w.cfg() == old(w).cfg(),
            w.level() == old(w).level(),
            i <= items@.len() == n,
            old(w).level() + items_depth(items@, n) < usize::MAX,
            floats_items_ascii(items@, n),
            text_items_error(items@, i as int) is None,
            w.after_string() == (i >= 1 && items@[i - 1] is String),
            w.out() == old(w).out() + streamed_items(items@, i as int, old(w).level(), old(w).indent(), old(w).newline(), old(w).delimiter()),
        decreases items@.len() - i,
    {
        proof {
            lemma_items_depth(items@, i as int, n);
            lemma_floats_prefix(items@, i as int, n);
            assert(decreases_to!(items@ => items@[i as int]));
        }
        let r = stream_value(w, &items[i]);
        if r.is_err() {
            proof {
                assert(text_items_error(items@, i as int + 1) == text_error(items@[i as int]));
                lemma_items_error_extend(items@, i as int + 1, n);
            }
            return r;
        }
        i = i + 1;
        assert(w.out() =~= old(w).out() + streamed_items(items@, i as int, old(w).level(), old(w).indent(), old(w).newline(), old(w).delimiter()));
    }
    Ok(())
}

#[verifier::rlimit(50)]
fn stream_value(w: &mut StringWriter, v: &TextValue) -> (r: Result<(), Error>)
    requires
        old(w).wf(),
        old(w).level() + depth(*v) < usize::MAX,
        floats_ascii(*v),
    ensures
        final(w).wf(),
        final(w).cfg() == old(w).cfg(),
        r is Ok ==> final(w).level() == old(w).level(),
        text_error(*v) matches Some(e) ==> r == Err::<(), Error>(e),
        text_error(*v) is None ==> r is Ok && final(w).after_string() == (*v is String) && final(w).out() == old(w).out()
            + streamed(*v, old(w).level(), old(w).after_string(), old(w).indent(), old(w).newline(), old(w).delimiter()),
    decreases *v, 0int,
{
    match v {
        TextValue::Int(i) => {
            w.write_i32(*i);
            Ok(())
        },
        TextValue::Float(t) => {
            w.write_f32(t.as_slice());
            Ok(())
        },
        TextValue::String(s) => w.write_str(s.as_slice()),
        TextValue::List(items) => {
            if items.len() > MAX_LIST_LEN {
                return Err(Error::new(ErrorCode::SequenceTooLong, None));
            }
            w.write_list_start(items.len() as i32)?;
            stream_items(w, items)?;
            w.write_list_end();
            assert(w.out() =~= old(w).out() + streamed(*v, old(w).level(), old(w).after_string(), old(w).indent(), old(w).newline(), old(w).delimiter()));
            Ok(())
        },
    }
}

/// Write a value as text, each scalar and list on its own indented line.
pub fn to_string(v: &TextValue, config: WhitespaceConfig) -> (r: Result<String, Error>)
    requires
        depth(*v) < usize::MAX,
        floats_ascii(*v),
    ensures
        text_error(*v) matches Some(e) ==> r == Err::<String, Error>(e),
        text_error(*v) is None ==> (r matches Ok(s) && s@ == decode_utf8(
            streamed(*v, 0, false, config.indent.spec_bytes(), config.newline.spec_bytes(), config.delimiter.spec_bytes()),
        ) && vstd::utf8::valid_utf8(
            streamed(*v, 0, false, config.indent.spec_bytes(), config.newline.spec_bytes(), config.delimiter.spec_bytes()),
        )),
{
    let mut w = StringWriter::new(config);
    stream_value(&mut w, v)?;
    assert(w.out() =~= streamed(*v, 0, false, config.indent.spec_bytes(), config.newline.spec_bytes(), config.delimiter.spec_bytes()));
    Ok(w.finish())
}

/// What a text value holds, in terms of plain values.
pub enum TextValueView {
    Int(i32),
    Float(Seq<u8>),
    String(Seq<u8>),
    List(Seq<TextValueView>),
}

impl TextValue {
    /// What the value holds.
    pub open spec fn view(&self) -> TextValueView
        decreases self,
    {
        match self {
            TextValue::Int(i) => TextValueView::Int(*i),
            TextValue::Float(t) => TextValueView::Float(t@),
            TextValue::String(s) => TextValueView::String(s@),
            TextValue::List(items) => TextValueView::List(
                Seq::new(
                    items.len() as nat,
                    |i: int|
                        if 0 <= i < items.len() {
                            items[i].view()
                        } else {
                            TextValueView::Int(0)
                        },
                ),
            ),
        }
    }
}

/// Decoding a value from the tokens of `s` read from offset `p`: the value
/// and where reading stopped; `None` where the tokens hold no value.
pub open spec fn decoded(s: Seq<u8>, p: int) -> Option<(TextValueView, int)>
    decreases s.len() - p, 0int,
{
    let e = token_end(s, p);
    if p < 0 || e <= p || e > s.len() {
        None
    } else {
        match token_any(token_kind(s, p)) {
            Some(AnyView::Int(i)) => Some((TextValueView::Int(i), e)),
            Some(AnyView::Float(t)) => Some((TextValueView::Float(t), e)),
            Some(AnyView::String(t)) => Some((TextValueView::String(t), e)),
            Some(AnyView::ListStart) => decoded_items(s, e, Seq::empty()),
            None => None,
        }
    }
}

/// Decoding the rest of a list from offset `p`, with `acc` the items read
/// so far, up to and with the end of the list.
pub open spec fn decoded_items(s: Seq<u8>, p: int, acc: Seq<TextValueView>) -> Option<(TextValueView, int)>
    decreases s.len() - p, 1int,
{
    if p < 0 || p > s.len() {
        None
    } else {
        match token_kind(s, p) {
            TokenView::ListEnd => {
                let e = token_end(s, p);
                if e <= p {
                    None
                } else {
                    Some((TextValueView::List(acc), e))
                }
            },
            TokenView::Eof => None,
            _ => match decoded(s, p) {
                Some((v, e)) => if e <= p || e > s.len() {
                    None
                } else {
                    decoded_items(s, e, acc.push(v))
                },
                None => None,
            },
        }
    }
}

/// Decoding moves forward.
pub proof fn lemma_decoded_progress(s: Seq<u8>, p: int)
    ensures
        decoded(s, p) matches Some((_, e)) ==> p < e,
    decreases s.len() - p, 0int,
{
    let e = token_end(s, p);
    if !(p < 0 || e <= p || e > s.len()) {
        if token_any(token_kind(s, p)) == Some(AnyView::ListStart) {
            lemma_items_progress(s, e, Seq::empty());
        }
    }
}

/// Decoding the rest of a list moves forward.
pub proof fn lemma_items_progress(s: Seq<u8>, p: int, acc: Seq<TextValueView>)
    ensures
        decoded_items(s, p, acc) matches Some((_, e)) ==> p < e,
    decreases s.len() - p, 1int,
{
    if !(p < 0 || p > s.len()) {
        match token_kind(s, p) {
            TokenView::ListEnd => {},
            TokenView::Eof => {},
            _ => {
                lemma_decoded_progress(s, p);
                if let Some((v, e)) = decoded(s, p) {
                    if !(e <= p || e > s.len()) {
                        lemma_items_progress(s, e, acc.push(v));
                    }
                }
            },
        }
    }
}


proof fn lemma_text_items_same(b1: Seq<TextValue>, b2: Seq<TextValue>, k: int)
    requires
        0 <= k <= b1.len(),
        k <= b2.len(),
        forall|j: int| 0 <= j < k ==> b1[j] == b2[j],
    ensures
        text_items_error(b1, k) == text_items_error(b2, k),
    decreases k,
{
    if k > 0 {
        lemma_text_items_same(b1, b2, k - 1);
    }
}

/// Reading a value from offset `p` of `s` succeeds: every token read reads,
/// and no list holds more than 255 items.
pub open spec fn readable(s: Seq<u8>, p: int) -> bool
    decreases s.len() - p, 0int,
{
    let e = token_end(s, p);
    if p < 0 || e <= p || e > s.len() || !token_ok(s, p) {
        false
    } else {
        match token_any(token_kind(s, p)) {
            Some(AnyView::ListStart) => readable_items(s, e, 0),
            Some(_) => true,
            None => false,
        }
    }
}

/// Reading the rest of a list from offset `p`, with `k` items read so far,
/// succeeds.
pub open spec fn readable_items(s: Seq<u8>, p: int, k: int) -> bool
    decreases s.len() - p, 1int,
{
    if p < 0 || p > s.len() || !token_ok(s, p) {
        false
    } else {
        match token_kind(s, p) {
            TokenView::ListEnd => true,
            TokenView::Eof => false,
            _ => k < MAX_LIST_LEN && readable(s, p) && match decoded(s, p) {
                Some((_, e)) => p < e <= s.len() && readable_items(s, e, k + 1),
                None => false,
            },
        }
    }
}

/// Read one value: a scalar, or a list of values up to its end.
fn read_value(r: &mut StrReader) -> (res: Result<TextValue, Error>)
    requires
        old(r).wf(),
    ensures
        res is Ok ==> final(r).wf() && final(r).remaining() < old(r).remaining() && final(r).peeked() is None,
        final(r).data() == old(r).data(),
        old(r).next_type() == TokenType::ListEnd || old(r).next_type() == TokenType::Eof ==> res is Err,
        res matches Ok(v) ==> decoded(old(r).data(), old(r).lpos()) == Some((v@, final(r).lpos())),
        old(r).next_ok() && readable(old(r).data(), old(r).lpos()) ==> res is Ok,
        res matches Err(e) ==> (e.location matches Some(l) && l.at_or_after(old(r).loc())),
        res is Ok ==> final(r).loc().at_or_after(old(r).loc()),
        res matches Ok(v) ==> text_error(v) is None,
    decreases old(r).remaining(),
{
    let ghost s = r.data();
    let ghost origin = r.lpos();
    proof {
        r.lemma_lpos();
    }
    let ghost ok = r.next_ok() && readable(s, origin);
    proof {
        if ok {
            r.lemma_next_type();
        }
    }
    let a = r.read_any()?;
    proof {
        crate::text::tokenizer::lemma_token_end_progress(s, origin);
    }
    match a {
        Any::Int(v) => Ok(TextValue::Int(v)),
        Any::Float(t) => Ok(TextValue::Float(t)),
        Any::String(t) => Ok(TextValue::String(t)),
        Any::ListStart => {
            let ghost e0 = r.lpos();
            let mut items: Vec<TextValue> = Vec::new();
            proof {
                assert(Seq::new(0nat, |j: int| items@[j]@) =~= Seq::<TextValueView>::empty());
            }
            loop
                invariant_except_break
                    r.peeked() is None,
                invariant
                    r.wf(),
                    r.remaining() < old(r).remaining(),
                    r.data() == s,
                    s == old(r).data(),
                    origin == old(r).lpos(),
                    0 <= origin < e0 <= s.len(),
                    decoded(s, origin) == decoded_items(s, e0, Seq::empty()),
                    decoded_items(s, e0, Seq::empty()) == decoded_items(s, r.lpos(), Seq::new(items@.len() as nat, |j: int| items@[j]@)),
                    items@.len() <= MAX_LIST_LEN,
                    r.loc().at_or_after(old(r).loc()),
                    text_items_error(items@, items@.len() as int) is None,
                    ok ==> readable_items(s, r.lpos(), items@.len() as int),
                    ok == (old(r).next_ok() && readable(s, origin)),
                    ok ==> e0 == token_end(s, origin),
                ensures
                    ok ==> r.next_type() == TokenType::ListEnd,
                decreases r.remaining(),
            {
                let ghost cur = Seq::new(items@.len() as nat, |j: int| items@[j]@);
                let ghost lp = r.lpos();
                proof {
                    r.lemma_lpos();
                    r.lemma_next_ok();
                }
                let span = r.peek()?;
                proof {
                    if ok {
                        r.lemma_next_type();
                    }
                }
                match span.token {
                    Token::Text(_) | Token::ListStart => {
                        let loc = r.location();
                        if items.len() >= MAX_LIST_LEN {
                            return Err(Error::new(ErrorCode::SequenceTooLong, Some(loc)));
                        }
                        match read_value(r) {
                            Ok(item) => {
                                proof {
                                    lemma_decoded_progress(s, lp);
                                    r.lemma_lpos();
                                    let next = Seq::new((items@.len() + 1) as nat, |j: int| if j < items@.len() { items@[j]@ } else { item@ });
                                    assert(next =~= cur.push(item@));
                                }
                                let ghost iv = item@;
                                let ghost before = items@;
                                let ghost it = item;
                                items.push(item);
                                proof {
                                    lemma_text_items_same(before, items@, before.len() as int);
                                    assert(items@[before.len() as int] == it);
                                }
                                proof {
                                    assert(Seq::new(items@.len() as nat, |j: int| items@[j]@) =~= cur.push(iv));
                                }
                            },
                            Err(e) => return Err(e.attach_location(loc)),
                        }
                    },
                    _ => break,
                }
            }
            let ghost lp = r.lpos();
            proof {
                r.lemma_lpos();
            }
            r.read_list_end()?;
            proof {
                crate::text::tokenizer::lemma_token_end_progress(s, lp);
            }
            let v = TextValue::List(items);
            proof {
                assert(v@->List_0 =~= Seq::new(items@.len() as nat, |j: int| items@[j]@));
            }
            Ok(v)
        },
    }
}

/// Read a value from text: one value, then only whitespace.
pub fn from_str(input: &str) -> (r: Result<TextValue, Error>)
    requires
        input.spec_bytes().len() < usize::MAX / 4,
    ensures
        type_at(input.spec_bytes(), 0) == TokenType::ListEnd || type_at(input.spec_bytes(), 0) == TokenType::Eof ==> r is Err,
        r matches Ok(v) ==> (decoded(input.spec_bytes(), 0) matches Some((w, e)) && w == v@
            && token_kind(input.spec_bytes(), e) == TokenView::Eof),
        readable(input.spec_bytes(), 0) ==> (decoded(input.spec_bytes(), 0) matches Some((w, e)) ==> (
            skip_ws(input.spec_bytes(), e) >= input.spec_bytes().len() ==> (r matches Ok(v) && v@ == w))),
        r matches Err(e) ==> e.location is Some,
        r matches Ok(v) ==> text_error(v) is None,
{
    let mut reader = StrReader::new(input.as_bytes());
    let v = read_value(&mut reader)?;
    proof {
        reader.lemma_next_type_at();
    }
    reader.finish()?;
    Ok(v)
}

/// A value is written on one line by the pretty writer: a scalar always; a
/// list when all its items are and it has fewer than 7.
pub open spec fn value_compact(v: TextValue) -> bool
    decreases v, 0int,
{
    match v {
        TextValue::List(items) => items_compact(items@, items@.len() as int) && items@.len() < 7,
        _ => true,
    }
}

/// The first `k` items are all written on one line.
pub open spec fn items_compact(items: Seq<TextValue>, k: int) -> bool
    decreases items, k,
{
    if k <= 0 || k > items.len() {
        true
    } else {
        items_compact(items, k - 1) && value_compact(items[k - 1])
    }
}

/// The pretty text of a value at nesting `level`: scalars as the streaming
/// writer writes them; a list on one line, items separated by the
/// delimiter, when it is compact; else one item per line, indented one
/// level deeper, and the closing parenthesis at the list's indent.
pub open spec fn pretty_text(v: TextValue, level: int, w: Ws) -> Seq<u8>
    decreases v, 0int,
{
    match v {
        TextValue::Int(i) => int_text(i as int),
        TextValue::Float(t) => t@,
        TextValue::String(s) => written_str(s@, needs_quoting(s@)),
        TextValue::List(items) => seq![0x28u8] + (if value_compact(v) {
            pretty_join(items@, items@.len() as int, level, w)
        } else {
            w.nl + pretty_lines(items@, items@.len() as int, level, w) + repeat(w.ind, level as nat)
        }) + seq![0x29u8],
    }
}

/// The first `k` items on one line, separated by the delimiter.
pub open spec fn pretty_join(items: Seq<TextValue>, k: int, level: int, w: Ws) -> Seq<u8>
    decreases items, k,
{
    if k <= 0 || k > items.len() {
        Seq::empty()
    } else if k == 1 {
        pretty_text(items[0], level + 1, w)
    } else {
        pretty_join(items, k - 1, level, w) + w.dl + pretty_text(items[k - 1], level + 1, w)
    }
}

/// The first `k` items, each on its own indented line.
pub open spec fn pretty_lines(items: Seq<TextValue>, k: int, level: int, w: Ws) -> Seq<u8>
    decreases items, k,
{
    if k <= 0 || k > items.len() {
        Seq::empty()
    } else {
        pretty_lines(items, k - 1, level, w) + repeat(w.ind, (level + 1) as nat) + pretty_text(items[k - 1], level + 1, w) + w.nl
    }
}

proof fn lemma_render_items(g: Seq<Element>, items: Seq<TextValue>, k: int)
    requires
        0 <= k <= items.len() == g.len(),
        forall|j: int, l: int, w: Ws| 0 <= j < k ==> #[trigger] render(g[j], l, w) == pretty_text(items[j], l, w),
    ensures
        forall|l: int, w: Ws| #[trigger] items_join(g, k, l, w) == pretty_join(items, k, l, w),
        forall|l: int, w: Ws| #[trigger] items_lines(g, k, l, w) == pretty_lines(items, k, l, w),
    decreases k,
{
    if k > 0 {
        lemma_render_items(g, items, k - 1);
        assert forall|l: int, w: Ws| #[trigger] items_join(g, k, l, w) == pretty_join(items, k, l, w) by {
            assert(render(g[k - 1], l + 1, w) == pretty_text(items[k - 1], l + 1, w));
            if k > 1 {
                assert(items_join(g, k - 1, l, w) == pretty_join(items, k - 1, l, w));
            } else {
                assert(render(g[0], l + 1, w) == pretty_text(items[0], l + 1, w));
            }
        }
        assert forall|l: int, w: Ws| #[trigger] items_lines(g, k, l, w) == pretty_lines(items, k, l, w) by {
            assert(render(g[k - 1], l + 1, w) == pretty_text(items[k - 1], l + 1, w));
            assert(items_lines(g, k - 1, l, w) == pretty_lines(items, k - 1, l, w));
        }
    }
}

/// The scalar text of a string: quoted where it must be.
fn quoted_text(s: &[u8]) -> (r: Result<Vec<u8>, Error>)
    ensures
        s@.len() > 0 ==> (checked(s@, None) matches Err(e) ==> r == Err::<Vec<u8>, Error>(e)),
        (s@.len() == 0 || checked(s@, None) is Ok) ==> (r matches Ok(t) && t@ == written_str(s@, needs_quoting(s@))),
{
    let quote = to_raw(s)?;
    let mut t: Vec<u8> = Vec::new();
    if quote {
        t.push(0x22);
    }
    crate::text::string_writer::append(&mut t, s);
    if quote {
        t.push(0x22);
    }
    assert(t@ =~= written_str(s@, needs_quoting(s@)));
    Ok(t)
}

fn gather_items(items: &Vec<TextValue>) -> (r: Result<Vec<Element>, Error>)
    ensures
        text_items_error(items@, items@.len() as int) matches Some(e) ==> r == Err::<Vec<Element>, Error>(e),
        text_items_error(items@, items@.len() as int) is None ==> (r matches Ok(g) && g@.len() == items@.len()
            && all_compact(g@) == items_compact(items@, items@.len() as int)
            && items_height(g@, g@.len() as int) == items_depth(items@, items@.len() as int)
            && (forall|l: int, w: Ws| #[trigger] items_join(g@, g@.len() as int, l, w) == pretty_join(items@, items@.len() as int, l, w))
            && (forall|l: int, w: Ws| #[trigger] items_lines(g@, g@.len() as int, l, w) == pretty_lines(items@, items@.len() as int, l, w))),
    decreases items@, 1int,
{
    let ghost n = items@.len() as int;
    let mut gathered: Vec<Element> = Vec::new();
    let mut i: usize = 0;
    while i < items.len()
        invariant
            i <= items@.len() == n,
            gathered@.len() == i,
            text_items_error(items@, i as int) is None,
            forall|j: int| 0 <= j < i ==> (#[trigger] gathered@[j]).compact() == value_compact(items@[j]),
            forall|j: int| 0 <= j < i ==> height(#[trigger] gathered@[j]) == depth(items@[j]),
            forall|j: int, l: int, w: Ws| 0 <= j < i ==> #[trigger] render(gathered@[j], l, w) == pretty_text(items@[j], l, w),
        decreases items@.len() - i,
    {
        proof {
            assert(decreases_to!(items@ => items@[i as int]));
        }
        match gather(&items[i]) {
            Ok(e) => gathered.push(e),
            Err(e) => {
                proof {
                    assert(text_items_error(items@, i as int + 1) == text_error(items@[i as int]));
                    lemma_items_error_extend(items@, i as int + 1, n);
                }
                return Err(e);
            },
        }
        i = i + 1;
    }
    proof {
        lemma_compact_items(items@, gathered@, n);
        lemma_heights(items@, gathered@, n);
        assert(gathered@.subrange(0, n) =~= gathered@);
        lemma_render_items(gathered@, items@, n);
    }
    Ok(gathered)
}

/// Gather a value into an element for pretty writing.
pub fn gather(v: &TextValue) -> (r: Result<Element, Error>)
    ensures
        text_error(*v) matches Some(e) ==> r == Err::<Element, Error>(e),
        text_error(*v) is None ==> (r matches Ok(e) && e.compact() == value_compact(*v) && height(e) == depth(*v)
            && forall|l: int, w: Ws| #[trigger] render(e, l, w) == pretty_text(*v, l, w)),
    decreases *v, 0int,
{
    let e = match v {
        TextValue::Int(i) => {
            let mut t: Vec<u8> = Vec::new();
            crate::text::string_writer::push_decimal(&mut t, *i);
            assert(t@ =~= int_text(*i as int));
            Element::Scalar(t)
        },
        TextValue::Float(t) => {
            let mut c: Vec<u8> = Vec::new();
            crate::text::string_writer::append(&mut c, t.as_slice());
            assert(c@ =~= t@);
            Element::Scalar(c)
        },
        TextValue::String(s) => {
            let t = quoted_text(s.as_slice())?;
            Element::Scalar(t)
        },
        TextValue::List(items) => {
            if items.len() > MAX_LIST_LEN {
                return Err(Error::new(ErrorCode::SequenceTooLong, None));
            }
            let gathered = gather_items(items)?;
            Element::seq(gathered)
        },
    };
    proof {
        assert forall|l: int, w: Ws| #[trigger] render(e, l, w) == pretty_text(*v, l, w) by {
            match v {
                TextValue::List(items) => {
                    let g = e->Sequence_0;
                    assert(g@.len() == items@.len());
                    assert(items_join(g@, g@.len() as int, l, w) == pretty_join(items@, items@.len() as int, l, w));
                    assert(items_lines(g@, g@.len() as int, l, w) == pretty_lines(items@, items@.len() as int, l, w));
                },
                _ => {},
            }
        }
    }
    Ok(e)
}

proof fn lemma_compact_items(items: Seq<TextValue>, elems: Seq<Element>, k: int)
    requires
        0 <= k <= items.len(),
        k <= elems.len(),
        forall|j: int| 0 <= j < k ==> (#[trigger] elems[j]).compact() == value_compact(items[j]),
    ensures
        items_compact(items, k) == all_compact(elems.subrange(0, k)),
    decreases k,
{
    if k > 0 {
        lemma_compact_items(items, elems, k - 1);
        let a = elems.subrange(0, k);
        let b = elems.subrange(0, k - 1);
        assert(forall|j: int| 0 <= j < k - 1 ==> a[j] == b[j]);
        if items_compact(items, k) {
            assert(all_compact(a));
        }
        if all_compact(a) {
            assert(a[k - 1] == elems[k - 1]);
            assert(all_compact(b));
        }
    } else {
        assert(all_compact(elems.subrange(0, 0)));
    }
}

proof fn lemma_heights(items: Seq<TextValue>, elems: Seq<Element>, k: int)
    requires
        0 <= k <= items.len(),
        k <= elems.len(),
        forall|j: int| 0 <= j < k ==> height(#[trigger] elems[j]) == depth(items[j]),
    ensures
        items_height(elems, k) == items_depth(items, k) || k > elems.len(),
    decreases k,
{
    if k > 0 {
        lemma_heights(items, elems, k - 1);
        assert(height(elems[k - 1]) == depth(items[k - 1]));
    }
}

/// Write a value as text with the pretty writer: lists that fit on one
/// line are written on one line.
pub fn to_pretty(v: &TextValue, config: &WhitespaceConfig) -> (r: Result<Vec<u8>, Error>)
    requires
        depth(*v) < usize::MAX,
    ensures
        text_error(*v) matches Some(e) ==> r == Err::<Vec<u8>, Error>(e),
        text_error(*v) is None ==> (r matches Ok(b) && b@ == pretty_text(*v, 0, ws_of(*config)) + ws_of(*config).nl),
{
    let e = gather(v)?;
    Ok(crate::text::pretty::write(&e, config))
}

/// Items nest no deeper than the list that holds them allows.
pub proof fn lemma_depth_items(items: Seq<TextValue>)
    ensures
        forall|i: int| 0 <= i < items.len() ==> depth(#[trigger] items[i]) <= items_depth(items, items.len() as int),
{
    assert forall|i: int| 0 <= i < items.len() implies depth(#[trigger] items[i]) <= items_depth(items, items.len() as int) by {
        lemma_items_depth(items, i, items.len() as int);
    }
}

} // verus!
