//! The text round trip: what the streaming writer writes, the reader reads
//! back as the same value.
use vstd::prelude::*;
use vstd::string::StringSliceAdditionalSpecFns;
use crate::text::ascii::{checked, is_delim, needs_quoting, valid_byte, all_valid};
use crate::text::codec::{
    readable, readable_items, MAX_LIST_LEN, decoded, decoded_items, lemma_decoded_progress, lemma_items_error_prefix, streamed, streamed_items, text_error,
    text_items_error, TextValue, TextValueView,
};
use crate::text::laws::{lemma_int_text_parses, lemma_nat_text_digits, lemma_numbers_are_number_bytes, lemma_written_string_reads_back};
use crate::text::parse::finite_float;
use crate::text::codec::{pretty_join, pretty_lines, pretty_text, value_compact};
use crate::text::pretty::Ws;
use crate::text::parse::{any_of, AnyView};
use crate::text::reader::token_any;
use crate::text::string_writer::{int_text, repeat, written_str};
use crate::text::tokenizer::{
    text_ok, token_ok, plain_bytes, lemma_qscan_bounds, has_quote, is_ws, lemma_run_end_after, qscan, run_end, skip_ws, token_end, token_kind, TokenView,
};

verus! {

/// All bytes are whitespace.
pub open spec fn all_ws(s: Seq<u8>) -> bool {
    forall|i: int| 0 <= i < s.len() ==> is_ws(#[trigger] s[i])
}

proof fn lemma_skip_ws_same(t: Seq<u8>, p: int, q: int)
    requires
        0 <= p <= q <= t.len(),
        forall|j: int| p <= j < q ==> is_ws(#[trigger] t[j]),
    ensures
        skip_ws(t, p) == skip_ws(t, q),
    decreases q - p,
{
    if p < q {
        lemma_skip_ws_same(t, p + 1, q);
    }
}

/// Whitespace before a value changes nothing in decoding it.
pub proof fn lemma_decoded_after_ws(t: Seq<u8>, p: int, q: int)
    requires
        0 <= p <= q <= t.len(),
        forall|j: int| p <= j < q ==> is_ws(#[trigger] t[j]),
    ensures
        decoded(t, p) == decoded(t, q),
{
    lemma_skip_ws_same(t, p, q);
    crate::text::tokenizer::lemma_token_end_progress(t, q);
}

/// Whitespace before the rest of a list changes nothing in decoding it.
pub proof fn lemma_items_after_ws(t: Seq<u8>, p: int, q: int, acc: Seq<TextValueView>)
    requires
        0 <= p <= q <= t.len(),
        forall|j: int| p <= j < q ==> is_ws(#[trigger] t[j]),
    ensures
        decoded_items(t, p, acc) == decoded_items(t, q, acc),
{
    lemma_skip_ws_same(t, p, q);
    crate::text::tokenizer::lemma_token_end_progress(t, q);
    lemma_decoded_after_ws(t, p, q);
    lemma_decoded_progress(t, q);
}

/// A stretch of `t` that is known.
proof fn lemma_window(t: Seq<u8>, p: int, s: Seq<u8>, a: int, b: int)
    requires
        0 <= p,
        p + s.len() <= t.len(),
        t.subrange(p, p + s.len()) == s,
        0 <= a <= b <= s.len(),
    ensures
        t.subrange(p + a, p + b) == s.subrange(a, b),
        forall|j: int| a <= j < b ==> t[p + j] == #[trigger] s[j],
{
    assert(t.subrange(p + a, p + b) =~= s.subrange(a, b));
    assert forall|j: int| a <= j < b implies t[p + j] == #[trigger] s[j] by {
        assert(t.subrange(p, p + s.len())[j] == t[p + j]);
    }
}

proof fn lemma_run_end_at(t: Seq<u8>, p: int, n: int)
    requires
        0 <= p <= n <= t.len(),
        forall|j: int| p <= j < n ==> !is_delim(#[trigger] t[j]),
        n == t.len() || is_delim(t[n]),
    ensures
        run_end(t, p) == n,
    decreases n - p,
{
    if p < n {
        lemma_run_end_at(t, p + 1, n);
    }
}

/// An unquoted scalar `x` at `q`, followed by a delimiter or the end.
pub proof fn lemma_unquoted_token(t: Seq<u8>, q: int, x: Seq<u8>)
    requires
        0 <= q,
        q + x.len() <= t.len(),
        x.len() > 0,
        t.subrange(q, q + x.len()) == x,
        forall|j: int| 0 <= j < x.len() ==> !is_delim(#[trigger] x[j]) && x[j] != 0x22,
        q + x.len() == t.len() || is_delim(t[q + x.len()]),
    ensures
        token_kind(t, q) == TokenView::Unquoted(x),
        token_end(t, q) == q + x.len(),
        checked(x, None) is Ok ==> token_ok(t, q),
{
    lemma_window(t, q, x, 0, x.len() as int);
    assert(t[q + 0] == x[0]);
    assert(!is_ws(t[q]));
    assert forall|j: int| q <= j < q + x.len() implies !is_delim(#[trigger] t[j]) by {
        assert(t[q + (j - q)] == x[j - q]);
    }
    assert(skip_ws(t, q) == q);
    lemma_run_end_at(t, q, q + x.len());
    assert(!has_quote(t, q, q + x.len())) by {
        assert forall|i: int| q <= i < q + x.len() implies t[i] != 0x22 by {
            assert(t[q + (i - q)] == x[i - q]);
        }
    }
    assert(t.subrange(q, q + x.len()) == x);
}

proof fn lemma_qscan_in(t: Seq<u8>, p: int, n: int, v: Seq<u8>)
    requires
        1 <= p <= n < t.len(),
        t[n] == 0x22,
        forall|j: int| p <= j < n ==> #[trigger] t[j] != 0x22,
        v == t.subrange(p, n),
        qscan(t, n + 1, false) == Some((n + 1, Seq::<u8>::empty())),
    ensures
        qscan(t, p, true) == Some((n + 1, v)),
    decreases n - p,
{
    if p < n {
        lemma_qscan_in(t, p + 1, n, t.subrange(p + 1, n));
        assert(seq![t[p]] + t.subrange(p + 1, n) =~= v);
    } else {
        assert(v =~= Seq::<u8>::empty());
    }
}

/// A quoted scalar `s` at `q`, followed by a delimiter or the end.
pub proof fn lemma_quoted_token(t: Seq<u8>, q: int, s: Seq<u8>)
    requires
        0 <= q,
        q + s.len() + 2 <= t.len(),
        t.subrange(q, q + s.len() + 2) == seq![0x22u8] + s + seq![0x22u8],
        forall|j: int| 0 <= j < s.len() ==> #[trigger] s[j] != 0x22,
        q + s.len() + 2 == t.len() || is_delim(t[q + s.len() + 2]),
    ensures
        token_kind(t, q) == TokenView::Quoted(s),
        token_end(t, q) == q + s.len() + 2,
        all_valid(s) && s.len() <= 255 ==> token_ok(t, q),
{
    let w = seq![0x22u8] + s + seq![0x22u8];
    lemma_window(t, q, w, 0, w.len() as int);
    let n = q + s.len() + 1;
    assert(t[q] == w[0]);
    assert(t[n] == w[s.len() as int + 1]);
    assert forall|j: int| q + 1 <= j < n implies #[trigger] t[j] != 0x22 by {
        assert(t[q + (j - q)] == w[j - q]);
        assert(w[j - q] == s[j - q - 1]);
    }
    if n + 1 < t.len() {
        assert(t[n + 1] != 0x22);
    }
    assert(qscan(t, n + 1, false) == Some((n + 1, Seq::<u8>::empty())));
    lemma_qscan_in(t, q + 1, n, t.subrange(q + 1, n));
    assert forall|k: int| 0 <= k < s.len() implies #[trigger] t.subrange(q + 1, n)[k] == s[k] by {
        assert(t[q + (k + 1)] == w[k + 1]);
    }
    assert(t.subrange(q + 1, n) =~= s);
    assert(skip_ws(t, q) == q);
    assert(!is_delim(t[q]));
    if q + 1 < t.len() && !is_delim(t[q + 1]) {
        lemma_run_end_after(t, q + 1);
    }
    assert(run_end(t, q) == run_end(t, q + 1));
    assert(has_quote(t, q, run_end(t, q)));
    if all_valid(s) && s.len() <= 255 {
        assert forall|j: int| q <= j < q + s.len() + 2 implies t[j] != 0 && #[trigger] t[j] < 0x80 by {
            assert(t[q + (j - q)] == w[j - q]);
            if j > q && j < n {
                assert(w[j - q] == s[j - q - 1]);
                assert(valid_byte(s[j - q - 1]));
            }
        }
        assert(plain_bytes(t, q, q + s.len() + 2));
        assert(text_ok(t, q));
    }
}

/// Whitespace before a value changes nothing in whether it reads.
pub proof fn lemma_readable_after_ws(t: Seq<u8>, p: int, q: int, k: int)
    requires
        0 <= p <= q <= t.len(),
        forall|j: int| p <= j < q ==> is_ws(#[trigger] t[j]),
    ensures
        readable(t, p) == readable(t, q),
        readable_items(t, p, k) == readable_items(t, q, k),
{
    lemma_skip_ws_same(t, p, q);
    crate::text::tokenizer::lemma_token_end_progress(t, q);
    lemma_decoded_after_ws(t, p, q);
    lemma_decoded_progress(t, q);
    if token_kind(t, q) != TokenView::Eof && token_kind(t, q) != TokenView::ListEnd {
        assert(readable(t, p) == readable(t, q));
    }
}

/// The decimal digits of a number below `10^k` are at most `k`.
proof fn lemma_nat_text_len(n: nat, k: nat, bound: nat)
    requires
        n < bound,
        bound == pow10(k),
    ensures
        crate::text::string_writer::nat_text(n).len() <= if k == 0 { 1 } else { k },
    decreases k,
{
    if n >= 10 && k > 0 {
        lemma_pow10_step(k);
        lemma_nat_text_len(n / 10, (k - 1) as nat, pow10((k - 1) as nat));
    }
}

/// Ten to the power `k`.
pub open spec fn pow10(k: nat) -> nat
    decreases k,
{
    if k == 0 {
        1
    } else {
        10 * pow10((k - 1) as nat)
    }
}

proof fn lemma_pow10_step(k: nat)
    requires
        k > 0,
    ensures
        forall|n: nat| n < pow10(k) ==> #[trigger] (n / 10) < pow10((k - 1) as nat),
{
}

/// The decimal text of an integer passes the string check.
proof fn lemma_int_text_checked(i: i32)
    ensures
        checked(int_text(i as int), None) is Ok,
{
    let x = int_text(i as int);
    let n: nat = if i < 0 { (-(i as int)) as nat } else { i as nat };
    lemma_nat_text_digits(n);
    reveal_with_fuel(pow10, 11);
    assert(pow10(10) == 10000000000);
    lemma_nat_text_len(n, 10, pow10(10));
    assert forall|j: int| 0 <= j < x.len() implies valid_byte(#[trigger] x[j]) by {
        if i < 0 && j > 0 {
            assert(x[j] == crate::text::string_writer::nat_text(n)[j - 1]);
        }
    }
    assert(all_valid(x));
}

/// Every float holds text that reads back as that float.
pub open spec fn floats_read_back(v: TextValue) -> bool
    decreases v, 0int,
{
    match v {
        TextValue::Float(t) => any_of(t@) == AnyView::Float(t@) && t@.len() <= 255,
        TextValue::List(items) => items_read_back(items@, items@.len() as int),
        _ => true,
    }
}

/// Every float among the first `k` items reads back.
pub open spec fn items_read_back(items: Seq<TextValue>, k: int) -> bool
    decreases items, k,
{
    if k <= 0 || k > items.len() {
        true
    } else {
        items_read_back(items, k - 1) && floats_read_back(items[k - 1])
    }
}

/// Indent, newline and delimiter are whitespace, and the newline is not
/// empty.
pub open spec fn ws_config(ind: Seq<u8>, nl: Seq<u8>, dl: Seq<u8>) -> bool {
    all_ws(ind) && all_ws(nl) && all_ws(dl) && nl.len() > 0
}

proof fn lemma_repeat_ws(s: Seq<u8>, n: nat)
    requires
        all_ws(s),
    ensures
        all_ws(repeat(s, n)),
    decreases n,
{
    if n > 0 {
        lemma_repeat_ws(s, (n - 1) as nat);
        assert forall|i: int| 0 <= i < repeat(s, n).len() implies is_ws(#[trigger] repeat(s, n)[i]) by {
            let r = repeat(s, (n - 1) as nat);
            if i < r.len() {
                assert(repeat(s, n)[i] == r[i]);
            } else {
                assert(repeat(s, n)[i] == s[i - r.len()]);
            }
        }
    }
}

proof fn lemma_items_read_back_prefix(items: Seq<TextValue>, i: int, k: int)
    requires
        0 <= i < k <= items.len(),
        items_read_back(items, k),
    ensures
        floats_read_back(items[i]),
        items_read_back(items, k - 1),
    decreases k,
{
    if i < k - 1 {
        lemma_items_read_back_prefix(items, i, k - 1);
    }
}

proof fn lemma_ws_window(t: Seq<u8>, p: int, w: Seq<u8>, a: int, b: int)
    requires
        0 <= p,
        p + w.len() <= t.len(),
        t.subrange(p, p + w.len()) == w,
        0 <= a <= b <= w.len(),
        forall|j: int| a <= j < b ==> is_ws(#[trigger] w[j]),
    ensures
        forall|j: int| p + a <= j < p + b ==> is_ws(#[trigger] t[j]),
{
    lemma_window(t, p, w, a, b);
    assert forall|j: int| p + a <= j < p + b implies is_ws(#[trigger] t[j]) by {
        assert(t[p + (j - p)] == w[j - p]);
    }
}

/// A value's streaming text, found at `p` in `t`, decodes to the value and
/// stops right before the final newline.
#[verifier::rlimit(100)]
pub proof fn lemma_streamed_decodes(
    v: TextValue,
    t: Seq<u8>,
    p: int,
    level: nat,
    after: bool,
    ind: Seq<u8>,
    nl: Seq<u8>,
    dl: Seq<u8>,
)
    requires
        ws_config(ind, nl, dl),
        text_error(v) is None,
        floats_read_back(v),
        0 <= p,
        p + streamed(v, level, after, ind, nl, dl).len() <= t.len(),
        t.subrange(p, p + streamed(v, level, after, ind, nl, dl).len()) == streamed(v, level, after, ind, nl, dl),
    ensures
        decoded(t, p) == Some((v@, p + streamed(v, level, after, ind, nl, dl).len() - nl.len())),
        readable(t, p),
    decreases v, 1int,
{
    let w = streamed(v, level, after, ind, nl, dl);
    let r = repeat(ind, level);
    lemma_repeat_ws(ind, level);
    match v {
        TextValue::List(_) => {
            lemma_list_decodes(v, t, p, level, after, ind, nl, dl);
        },
        TextValue::Int(_) => {
            lemma_int_decodes(v, t, p, level, after, ind, nl, dl);
        },
        TextValue::Float(_) => {
            lemma_float_decodes(v, t, p, level, after, ind, nl, dl);
        },
        TextValue::String(_) => {
            lemma_string_decodes(v, t, p, level, after, ind, nl, dl);
        },
    }
}

proof fn lemma_int_decodes(
    v: TextValue,
    t: Seq<u8>,
    p: int,
    level: nat,
    after: bool,
    ind: Seq<u8>,
    nl: Seq<u8>,
    dl: Seq<u8>,
)
    requires
        v is Int,
        ws_config(ind, nl, dl),
        floats_read_back(v),
        0 <= p,
        p + streamed(v, level, after, ind, nl, dl).len() <= t.len(),
        t.subrange(p, p + streamed(v, level, after, ind, nl, dl).len()) == streamed(v, level, after, ind, nl, dl),
    ensures
        decoded(t, p) == Some((v@, p + streamed(v, level, after, ind, nl, dl).len() - nl.len())),
        readable(t, p),
{
    let w = streamed(v, level, after, ind, nl, dl);
    let r = repeat(ind, level);
    lemma_repeat_ws(ind, level);
    let i = v->Int_0;
    let x = int_text(i as int);
    assert(w =~= r + x + nl);
    let a = r.len() as int;
    lemma_ws_window(t, p, w, 0, a);
    lemma_decoded_after_ws(t, p, p + a);
    lemma_window(t, p, w, a, a + x.len() as int);
    assert(w.subrange(a, a + x.len() as int) =~= x);
    let n: nat = if i < 0 { (-(i as int)) as nat } else { i as nat };
    lemma_nat_text_digits(n);
    assert forall|j: int| 0 <= j < x.len() implies !is_delim(#[trigger] x[j]) && x[j] != 0x22 by {
        if i < 0 && j > 0 {
            assert(x[j] == crate::text::string_writer::nat_text(n)[j - 1]);
        }
    }
    lemma_window(t, p, w, a + x.len() as int, a + x.len() + 1);
    assert(w[a + x.len()] == nl[0]);
    assert(t[p + a + x.len()] == nl[0]);
    lemma_unquoted_token(t, p + a, x);
    lemma_int_text_parses(i);
    lemma_readable_after_ws(t, p, p + a, 0);
    lemma_int_text_checked(i);
}

proof fn lemma_float_decodes(
    v: TextValue,
    t: Seq<u8>,
    p: int,
    level: nat,
    after: bool,
    ind: Seq<u8>,
    nl: Seq<u8>,
    dl: Seq<u8>,
)
    requires
        v is Float,
        ws_config(ind, nl, dl),
        floats_read_back(v),
        0 <= p,
        p + streamed(v, level, after, ind, nl, dl).len() <= t.len(),
        t.subrange(p, p + streamed(v, level, after, ind, nl, dl).len()) == streamed(v, level, after, ind, nl, dl),
    ensures
        decoded(t, p) == Some((v@, p + streamed(v, level, after, ind, nl, dl).len() - nl.len())),
        readable(t, p),
{
    let w = streamed(v, level, after, ind, nl, dl);
    let r = repeat(ind, level);
    lemma_repeat_ws(ind, level);
    let f = v->Float_0;
    let x = f@;
    assert(w =~= r + x + nl);
    let a = r.len() as int;
    lemma_ws_window(t, p, w, 0, a);
    lemma_decoded_after_ws(t, p, p + a);
    lemma_window(t, p, w, a, a + x.len() as int);
    assert(w.subrange(a, a + x.len() as int) =~= x);
    assert(finite_float(x));
    lemma_numbers_are_number_bytes(x);
    assert(x.len() > 0) by {
        let u = crate::text::parse::unsigned_part(x);
        assert(exists|k: int| 0 <= k < u.len() && crate::text::parse::is_digit(#[trigger] u[k]));
    }
    lemma_window(t, p, w, a + x.len() as int, a + x.len() + 1);
    assert(w[a + x.len()] == nl[0]);
    assert(t[p + a + x.len()] == nl[0]);
    lemma_unquoted_token(t, p + a, x);
    lemma_readable_after_ws(t, p, p + a, 0);
    assert forall|j: int| 0 <= j < x.len() implies valid_byte(#[trigger] x[j]) by {
        assert(crate::text::ascii::is_number_byte(x[j]));
    }
    assert(all_valid(x));
}

#[verifier::rlimit(100)]
proof fn lemma_string_decodes(
    v: TextValue,
    t: Seq<u8>,
    p: int,
    level: nat,
    after: bool,
    ind: Seq<u8>,
    nl: Seq<u8>,
    dl: Seq<u8>,
)
    requires
        v is String,
        ws_config(ind, nl, dl),
        text_error(v) is None,
        0 <= p,
        p + streamed(v, level, after, ind, nl, dl).len() <= t.len(),
        t.subrange(p, p + streamed(v, level, after, ind, nl, dl).len()) == streamed(v, level, after, ind, nl, dl),
    ensures
        decoded(t, p) == Some((v@, p + streamed(v, level, after, ind, nl, dl).len() - nl.len())),
        readable(t, p),
{
    let w = streamed(v, level, after, ind, nl, dl);
    let r = repeat(ind, level);
    lemma_repeat_ws(ind, level);
    let x = v->String_0@;
    let q = needs_quoting(x);
    let ws_ = written_str(x, q);
    assert(w =~= r + ws_ + nl);
    let a = r.len() as int;
    lemma_ws_window(t, p, w, 0, a);
    lemma_decoded_after_ws(t, p, p + a);
    lemma_window(t, p, w, a, a + ws_.len() as int);
    assert(w.subrange(a, a + ws_.len() as int) =~= ws_);
    lemma_window(t, p, w, a + ws_.len() as int, a + ws_.len() + 1);
    assert(w[a + ws_.len()] == nl[0]);
    assert(t[p + a + ws_.len()] == nl[0]);
    if x.len() > 0 {
        assert(all_valid(x));
    }
    lemma_written_string_reads_back(x, Seq::empty());
    if q {
        assert forall|j: int| 0 <= j < x.len() implies #[trigger] x[j] != 0x22 by {
            assert(valid_byte(x[j]));
        }
        lemma_quoted_token(t, p + a, x);
    } else {
        assert forall|j: int| 0 <= j < x.len() implies !is_delim(#[trigger] x[j]) && x[j] != 0x22 by {
            assert(valid_byte(x[j]));
        }
        lemma_unquoted_token(t, p + a, x);
    }
    lemma_readable_after_ws(t, p, p + a, 0);
}

#[verifier::rlimit(100)]
proof fn lemma_list_decodes(
    v: TextValue,
    t: Seq<u8>,
    p: int,
    level: nat,
    after: bool,
    ind: Seq<u8>,
    nl: Seq<u8>,
    dl: Seq<u8>,
)
    requires
        v is List,
        ws_config(ind, nl, dl),
        text_error(v) is None,
        floats_read_back(v),
        0 <= p,
        p + streamed(v, level, after, ind, nl, dl).len() <= t.len(),
        t.subrange(p, p + streamed(v, level, after, ind, nl, dl).len()) == streamed(v, level, after, ind, nl, dl),
    ensures
        decoded(t, p) == Some((v@, p + streamed(v, level, after, ind, nl, dl).len() - nl.len())),
        readable(t, p),
    decreases v, 0int,
{
    let w = streamed(v, level, after, ind, nl, dl);
    let r = repeat(ind, level);
    lemma_repeat_ws(ind, level);
    let items = v->List_0;
    let pre = if after { dl } else { r };
    let n = items@.len() as int;
    let si = streamed_items(items@, n, level + 1, ind, nl, dl);
    let a = pre.len() as int;
    assert(w =~= pre + seq![0x28u8] + nl + si + r + seq![0x29u8] + nl);
    lemma_ws_window(t, p, w, 0, a);
    lemma_decoded_after_ws(t, p, p + a);
    lemma_window(t, p, w, a, a + 1);
    assert(w[a] == 0x28);
    assert(t[p + a] == 0x28);
    assert(skip_ws(t, p + a) == p + a);
    let e0 = p + a + 1;
    assert(decoded(t, p + a) == decoded_items(t, e0, Seq::empty()));
    let sp = e0 + nl.len();
    assert forall|j: int| a + 1 <= j < a + 1 + nl.len() implies is_ws(#[trigger] w[j]) by {
        assert(w[j] == nl[j - a - 1]);
    }
    lemma_ws_window(t, p, w, a + 1, a + 1 + nl.len() as int);
    lemma_window(t, p, w, a + 1 + nl.len() as int, a + 1 + nl.len() + si.len() as int);
    assert(w.subrange(a + 1 + nl.len() as int, a + 1 + nl.len() + si.len() as int) =~= si);
    assert(decreases_to!(v => v->List_0));
    lemma_items_decode(items@, n, t, e0, sp, level + 1, ind, nl, dl, Seq::empty());
    let m = sp + si.len();
    let b = a + 1 + nl.len() + si.len() as int;
    assert forall|j: int| b <= j < b + r.len() implies is_ws(#[trigger] w[j]) by {
        assert(w[j] == r[j - b]);
    }
    lemma_ws_window(t, p, w, b, b + r.len() as int);
    let acc = Seq::new(n as nat, |j: int| items@[j]@);
    lemma_items_after_ws(t, m, m + r.len(), acc);
    lemma_window(t, p, w, b + r.len() as int, b + r.len() + 1);
    assert(w[b + r.len()] == 0x29);
    assert(t[m + r.len()] == 0x29);
    assert(skip_ws(t, m + r.len()) == m + r.len());
    assert(v@ == TextValueView::List(acc)) by {
        assert(v@->List_0 =~= acc);
    }
    assert(Seq::<TextValueView>::empty() + acc =~= acc);
        
    lemma_readable_after_ws(t, p, p + a, 0);
    lemma_readable_after_ws(t, m, m + r.len(), n);
    assert(readable_items(t, m + r.len(), n));
    assert(readable_items(t, m, n));
    assert(readable_items(t, e0, 0));
}

/// The streaming text of the first `k` items of a list, found at `p` in `t`
/// after whitespace from `start`, decodes to those items.
pub proof fn lemma_items_decode(
    items: Seq<TextValue>,
    k: int,
    t: Seq<u8>,
    start: int,
    p: int,
    level: nat,
    ind: Seq<u8>,
    nl: Seq<u8>,
    dl: Seq<u8>,
    acc: Seq<TextValueView>,
)
    requires
        ws_config(ind, nl, dl),
        0 <= k <= items.len(),
        text_items_error(items, items.len() as int) is None,
        items_read_back(items, items.len() as int),
        0 <= start <= p,
        forall|j: int| start <= j < p ==> is_ws(#[trigger] t[j]),
        p + streamed_items(items, k, level, ind, nl, dl).len() <= t.len(),
        t.subrange(p, p + streamed_items(items, k, level, ind, nl, dl).len()) == streamed_items(items, k, level, ind, nl, dl),
    ensures
        decoded_items(t, start, acc) == decoded_items(
            t,
            p + streamed_items(items, k, level, ind, nl, dl).len(),
            acc + Seq::new(k as nat, |j: int| items[j]@),
        ),
        acc.len() + k <= MAX_LIST_LEN && readable_items(t, p + streamed_items(items, k, level, ind, nl, dl).len(), acc.len() + k)
            ==> readable_items(t, start, acc.len() as int),
    decreases items, k,
{
    if k == 0 {
        lemma_items_after_ws(t, start, p, acc);
        lemma_readable_after_ws(t, start, p, acc.len() as int);
        assert(acc + Seq::new(0nat, |j: int| items[j]@) =~= acc);
    } else {
        let prev = streamed_items(items, k - 1, level, ind, nl, dl);
        let after = k >= 2 && items[k - 2] is String;
        let last = streamed(items[k - 1], level, after, ind, nl, dl);
        let whole = streamed_items(items, k, level, ind, nl, dl);
        assert(whole == prev + last);
        lemma_window(t, p, whole, 0, prev.len() as int);
        assert(whole.subrange(0, prev.len() as int) =~= prev);
        lemma_items_decode(items, k - 1, t, start, p, level, ind, nl, dl, acc);
        let m = p + prev.len();
        lemma_window(t, p, whole, prev.len() as int, whole.len() as int);
        assert(whole.subrange(prev.len() as int, whole.len() as int) =~= last);
        lemma_items_error_prefix(items, k - 1, items.len() as int);
        crate::text::round_trip::lemma_items_read_back_prefix(items, k - 1, items.len() as int);
        assert(decreases_to!(items => items[k - 1]));
        lemma_streamed_decodes(items[k - 1], t, m, level, after, ind, nl, dl);
        let e = m + last.len() - nl.len();
        let acc1 = acc + Seq::new((k - 1) as nat, |j: int| items[j]@);
        lemma_decoded_progress(t, m);
        assert(token_any(token_kind(t, m)) is Some);
        assert(decoded_items(t, m, acc1) == decoded_items(t, e, acc1.push(items[k - 1]@)));
        assert(last.len() >= nl.len());
        assert forall|j: int| last.len() - nl.len() <= j < last.len() implies is_ws(#[trigger] last[j]) by {
            assert(last[j] == nl[j - (last.len() - nl.len())]);
        }
        lemma_ws_window(t, m, last, last.len() - nl.len(), last.len() as int);
        lemma_items_after_ws(t, e, m + last.len(), acc1.push(items[k - 1]@));
        assert(acc1.push(items[k - 1]@) =~= acc + Seq::new(k as nat, |j: int| items[j]@));
        let c = acc.len() + k;
        lemma_readable_after_ws(t, e, m + last.len(), c);
        if c <= MAX_LIST_LEN && readable_items(t, m + last.len(), c) {
            assert(readable_items(t, e, c));
            assert(readable_items(t, m, c - 1));
        }
    }
}

/// Text round trip: the text that the streaming writer (`to_string`) gives
/// for a value decodes to that same value with only whitespace after it,
/// when indent, newline and delimiter are whitespace (as by default), the
/// value can be written, and each float holds text that reads as a float.
pub proof fn lemma_text_round_trip(v: TextValue, ind: Seq<u8>, nl: Seq<u8>, dl: Seq<u8>)
    requires
        ws_config(ind, nl, dl),
        text_error(v) is None,
        floats_read_back(v),
    ensures
        ({
            let s = streamed(v, 0, false, ind, nl, dl);
            decoded(s, 0) matches Some((w, e)) && w == v@ && token_kind(s, e) == TokenView::Eof
                && skip_ws(s, e) >= s.len() && readable(s, 0)
        }),
{
    let s = streamed(v, 0, false, ind, nl, dl);
    assert(s.subrange(0, s.len() as int) =~= s);
    lemma_streamed_decodes(v, s, 0, 0, false, ind, nl, dl);
    let e = s.len() - nl.len();
    assert(s.len() >= nl.len()) by {
        match v {
            TextValue::List(_) => {},
            _ => {},
        }
    }
    assert forall|j: int| e <= j < s.len() implies is_ws(#[trigger] s[j]) by {
        assert(s[j] == nl[j - e]);
    }
    lemma_skip_ws_same(s, e, s.len() as int);
}

/// Whitespace configuration for the pretty writer: as for the streaming
/// writer, and a delimiter that is not empty.
pub open spec fn pretty_ws(w: Ws) -> bool {
    ws_config(w.ind, w.nl, w.dl) && w.dl.len() > 0
}

proof fn lemma_pretty_scalar_decodes(v: TextValue, t: Seq<u8>, p: int, level: int, w: Ws)
    requires
        !(v is List),
        pretty_ws(w),
        text_error(v) is None,
        floats_read_back(v),
        0 <= p,
        p + pretty_text(v, level, w).len() <= t.len(),
        t.subrange(p, p + pretty_text(v, level, w).len()) == pretty_text(v, level, w),
        p + pretty_text(v, level, w).len() == t.len() || is_delim(t[p + pretty_text(v, level, w).len()]),
    ensures
        decoded(t, p) == Some((v@, p + pretty_text(v, level, w).len())),
        readable(t, p),
{
    let x = pretty_text(v, level, w);
    lemma_window(t, p, x, 0, x.len() as int);
    match v {
        TextValue::Int(i) => {
            let n: nat = if i < 0 { (-(i as int)) as nat } else { i as nat };
            lemma_nat_text_digits(n);
            assert forall|j: int| 0 <= j < x.len() implies !is_delim(#[trigger] x[j]) && x[j] != 0x22 by {
                if i < 0 && j > 0 {
                    assert(x[j] == crate::text::string_writer::nat_text(n)[j - 1]);
                }
            }
            lemma_unquoted_token(t, p, x);
            lemma_int_text_parses(i);
            lemma_int_text_checked(i);
        },
        TextValue::Float(f) => {
            assert(finite_float(x));
            lemma_numbers_are_number_bytes(x);
            assert(x.len() > 0) by {
                let u = crate::text::parse::unsigned_part(x);
                assert(exists|k: int| 0 <= k < u.len() && crate::text::parse::is_digit(#[trigger] u[k]));
            }
            assert forall|j: int| 0 <= j < x.len() implies valid_byte(#[trigger] x[j]) by {
                assert(crate::text::ascii::is_number_byte(x[j]));
            }
            assert(all_valid(x));
            lemma_unquoted_token(t, p, x);
        },
        TextValue::String(st) => {
            let y = st@;
            if y.len() > 0 {
                assert(all_valid(y));
            }
            lemma_written_string_reads_back(y, Seq::empty());
            if needs_quoting(y) {
                assert forall|j: int| 0 <= j < y.len() implies #[trigger] y[j] != 0x22 by {
                    assert(valid_byte(y[j]));
                }
                lemma_quoted_token(t, p, y);
            } else {
                assert forall|j: int| 0 <= j < y.len() implies !is_delim(#[trigger] y[j]) && y[j] != 0x22 by {
                    assert(valid_byte(y[j]));
                }
                lemma_unquoted_token(t, p, y);
            }
        },
        TextValue::List(_) => {},
    }
}

/// A value's pretty text, found at `p` in `t` and followed by a delimiter
/// or the end, decodes to the value.
pub proof fn lemma_pretty_decodes(v: TextValue, t: Seq<u8>, p: int, level: int, w: Ws)
    requires
        pretty_ws(w),
        text_error(v) is None,
        floats_read_back(v),
        0 <= p,
        0 <= level,
        p + pretty_text(v, level, w).len() <= t.len(),
        t.subrange(p, p + pretty_text(v, level, w).len()) == pretty_text(v, level, w),
        p + pretty_text(v, level, w).len() == t.len() || is_delim(t[p + pretty_text(v, level, w).len()]),
    ensures
        decoded(t, p) == Some((v@, p + pretty_text(v, level, w).len())),
        readable(t, p),
    decreases v, 1int,
{
    if v is List {
        lemma_pretty_list_decodes(v, t, p, level, w);
    } else {
        lemma_pretty_scalar_decodes(v, t, p, level, w);
    }
}

#[verifier::rlimit(100)]
proof fn lemma_pretty_list_decodes(v: TextValue, t: Seq<u8>, p: int, level: int, w: Ws)
    requires
        v is List,
        pretty_ws(w),
        text_error(v) is None,
        floats_read_back(v),
        0 <= p,
        0 <= level,
        p + pretty_text(v, level, w).len() <= t.len(),
        t.subrange(p, p + pretty_text(v, level, w).len()) == pretty_text(v, level, w),
        p + pretty_text(v, level, w).len() == t.len() || is_delim(t[p + pretty_text(v, level, w).len()]),
    ensures
        decoded(t, p) == Some((v@, p + pretty_text(v, level, w).len())),
        readable(t, p),
    decreases v, 0int,
{
    let x = pretty_text(v, level, w);
    let items = v->List_0;
    let n = items@.len() as int;
    let acc = Seq::new(n as nat, |j: int| items@[j]@);
    assert(v@ == TextValueView::List(acc)) by {
        assert(v@->List_0 =~= acc);
    }
    assert(Seq::<TextValueView>::empty() + acc =~= acc);
    lemma_window(t, p, x, 0, 1);
    assert(x[0] == 0x28);
    assert(t[p + 0] == x[0]);
    assert(skip_ws(t, p) == p);
    assert(decoded(t, p) == decoded_items(t, p + 1, Seq::empty()));
    assert(decreases_to!(v => v->List_0));
    let r = repeat(w.ind, level as nat);
    lemma_repeat_ws(w.ind, level as nat);
    if value_compact(v) {
        let j = pretty_join(items@, n, level, w);
        assert(x =~= seq![0x28u8] + j + seq![0x29u8]);
        lemma_window(t, p, x, 1, 1 + j.len() as int);
        assert(x.subrange(1, 1 + j.len() as int) =~= j);
        lemma_window(t, p, x, 1 + j.len() as int, 2 + j.len() as int);
        assert(x[1 + j.len() as int] == 0x29);
        assert(t[p + 1 + j.len()] == 0x29);
        lemma_pretty_join_decodes(items@, n, t, p + 1, level, w, Seq::empty());
        assert(skip_ws(t, p + 1 + j.len()) == p + 1 + j.len());
        assert(readable_items(t, p + 1 + j.len(), n));
    } else {
        let l = pretty_lines(items@, n, level, w);
        let nl = w.nl;
        assert(x =~= seq![0x28u8] + nl + l + r + seq![0x29u8]);
        assert forall|k: int| 1 <= k < 1 + nl.len() implies is_ws(#[trigger] x[k]) by {
            assert(x[k] == nl[k - 1]);
        }
        lemma_ws_window(t, p, x, 1, 1 + nl.len() as int);
        let q = p + 1 + nl.len();
        lemma_window(t, p, x, 1 + nl.len() as int, 1 + nl.len() + l.len() as int);
        assert(x.subrange(1 + nl.len() as int, 1 + nl.len() + l.len() as int) =~= l);
        lemma_pretty_lines_decodes(items@, n, t, p + 1, q, level, w, Seq::empty());
        let m = q + l.len();
        let b = 1 + nl.len() + l.len() as int;
        assert forall|k: int| b <= k < b + r.len() implies is_ws(#[trigger] x[k]) by {
            assert(x[k] == r[k - b]);
        }
        lemma_ws_window(t, p, x, b, b + r.len() as int);
        lemma_items_after_ws(t, m, m + r.len(), acc);
        lemma_window(t, p, x, b + r.len() as int, b + r.len() + 1);
        assert(x[b + r.len()] == 0x29);
        assert(t[m + r.len()] == 0x29);
        assert(skip_ws(t, m + r.len()) == m + r.len());
        lemma_readable_after_ws(t, m, m + r.len(), n);
        assert(readable_items(t, m + r.len(), n));
    }
    assert(readable_items(t, p + 1, 0));
}

/// Items on one line, separated by the delimiter, decode to those items.
#[verifier::rlimit(100)]
pub proof fn lemma_pretty_join_decodes(
    items: Seq<TextValue>,
    k: int,
    t: Seq<u8>,
    p: int,
    level: int,
    w: Ws,
    acc: Seq<TextValueView>,
)
    requires
        pretty_ws(w),
        0 <= level,
        0 <= k <= items.len(),
        text_items_error(items, items.len() as int) is None,
        items_read_back(items, items.len() as int),
        0 <= p,
        p + pretty_join(items, k, level, w).len() <= t.len(),
        t.subrange(p, p + pretty_join(items, k, level, w).len()) == pretty_join(items, k, level, w),
        p + pretty_join(items, k, level, w).len() == t.len() || is_delim(t[p + pretty_join(items, k, level, w).len()]),
    ensures
        decoded_items(t, p, acc) == decoded_items(
            t,
            p + pretty_join(items, k, level, w).len(),
            acc + Seq::new(k as nat, |j: int| items[j]@),
        ),
        acc.len() + k <= MAX_LIST_LEN && readable_items(t, p + pretty_join(items, k, level, w).len(), acc.len() + k)
            ==> readable_items(t, p, acc.len() as int),
    decreases items, k,
{
    if k == 0 {
        assert(acc + Seq::new(0nat, |j: int| items[j]@) =~= acc);
        assert(p + pretty_join(items, k, level, w).len() == p);
    } else {
        let whole = pretty_join(items, k, level, w);
        let last = pretty_text(items[k - 1], level + 1, w);
        lemma_items_error_prefix(items, k - 1, items.len() as int);
        lemma_items_read_back_prefix(items, k - 1, items.len() as int);
        assert(decreases_to!(items => items[k - 1]));
        let acc1 = acc + Seq::new((k - 1) as nat, |j: int| items[j]@);
        let m: int;
        if k == 1 {
            m = p;
            assert(acc1 =~= acc);
            assert(whole == last);
        } else {
            let prev = pretty_join(items, k - 1, level, w);
            let dl = w.dl;
            assert(whole == prev + dl + last);
            lemma_window(t, p, whole, 0, prev.len() as int);
            assert(whole.subrange(0, prev.len() as int) =~= prev);
            lemma_window(t, p, whole, prev.len() as int, prev.len() as int + 1);
            assert(whole[prev.len() as int] == dl[0]);
            assert(is_ws(dl[0]));
            assert(t[p + prev.len()] == dl[0]);
            lemma_pretty_join_decodes(items, k - 1, t, p, level, w, acc);
            assert forall|j: int| prev.len() <= j < prev.len() + dl.len() implies is_ws(#[trigger] whole[j]) by {
                assert(whole[j] == dl[j - prev.len()]);
            }
            lemma_ws_window(t, p, whole, prev.len() as int, prev.len() + dl.len() as int);
            lemma_items_after_ws(t, p + prev.len(), p + prev.len() + dl.len(), acc1);
            m = p + prev.len() + dl.len();
        }
        lemma_window(t, p, whole, m - p, whole.len() as int);
        assert(whole.subrange(m - p, whole.len() as int) =~= last);
        lemma_pretty_decodes(items[k - 1], t, m, level + 1, w);
        lemma_decoded_progress(t, m);
        assert(token_any(token_kind(t, m)) is Some);
        assert(acc1.push(items[k - 1]@) =~= acc + Seq::new(k as nat, |j: int| items[j]@));
        let c = acc.len() + k;
        if c <= MAX_LIST_LEN && readable_items(t, p + whole.len(), c) {
            assert(readable_items(t, m, c - 1));
            if k > 1 {
                let prev = pretty_join(items, k - 1, level, w);
                lemma_readable_after_ws(t, p + prev.len(), m, c - 1);
            }
        }
    }
}

/// Items each on its own indented line, found at `p` after whitespace from
/// `start`, decode to those items.
#[verifier::rlimit(100)]
pub proof fn lemma_pretty_lines_decodes(
    items: Seq<TextValue>,
    k: int,
    t: Seq<u8>,
    start: int,
    p: int,
    level: int,
    w: Ws,
    acc: Seq<TextValueView>,
)
    requires
        pretty_ws(w),
        0 <= level,
        0 <= k <= items.len(),
        text_items_error(items, items.len() as int) is None,
        items_read_back(items, items.len() as int),
        0 <= start <= p,
        forall|j: int| start <= j < p ==> is_ws(#[trigger] t[j]),
        p + pretty_lines(items, k, level, w).len() <= t.len(),
        t.subrange(p, p + pretty_lines(items, k, level, w).len()) == pretty_lines(items, k, level, w),
    ensures
        decoded_items(t, start, acc) == decoded_items(
            t,
            p + pretty_lines(items, k, level, w).len(),
            acc + Seq::new(k as nat, |j: int| items[j]@),
        ),
        acc.len() + k <= MAX_LIST_LEN && readable_items(t, p + pretty_lines(items, k, level, w).len(), acc.len() + k)
            ==> readable_items(t, start, acc.len() as int),
    decreases items, k,
{
    if k == 0 {
        lemma_items_after_ws(t, start, p, acc);
        lemma_readable_after_ws(t, start, p, acc.len() as int);
        assert(acc + Seq::new(0nat, |j: int| items[j]@) =~= acc);
    } else {
        let prev = pretty_lines(items, k - 1, level, w);
        let r1 = repeat(w.ind, (level + 1) as nat);
        let last = pretty_text(items[k - 1], level + 1, w);
        let nl = w.nl;
        let whole = pretty_lines(items, k, level, w);
        assert(whole == prev + r1 + last + nl);
        lemma_window(t, p, whole, 0, prev.len() as int);
        assert(whole.subrange(0, prev.len() as int) =~= prev);
        lemma_pretty_lines_decodes(items, k - 1, t, start, p, level, w, acc);
        let acc1 = acc + Seq::new((k - 1) as nat, |j: int| items[j]@);
        let m = p + prev.len();
        lemma_repeat_ws(w.ind, (level + 1) as nat);
        assert forall|j: int| prev.len() <= j < prev.len() + r1.len() implies is_ws(#[trigger] whole[j]) by {
            assert(whole[j] == r1[j - prev.len()]);
        }
        lemma_ws_window(t, p, whole, prev.len() as int, prev.len() + r1.len() as int);
        lemma_items_after_ws(t, m, m + r1.len(), acc1);
        let a = prev.len() as int + r1.len() as int;
        lemma_window(t, p, whole, a as int, a + last.len() as int);
        assert(whole.subrange(a as int, a + last.len() as int) =~= last);
        lemma_window(t, p, whole, a + last.len() as int, a + last.len() + 1);
        assert(whole[a + last.len()] == nl[0]);
        assert(t[p + a + last.len()] == nl[0]);
        lemma_items_error_prefix(items, k - 1, items.len() as int);
        lemma_items_read_back_prefix(items, k - 1, items.len() as int);
        assert(decreases_to!(items => items[k - 1]));
        lemma_pretty_decodes(items[k - 1], t, p + a, level + 1, w);
        lemma_decoded_progress(t, p + a);
        assert(token_any(token_kind(t, p + a)) is Some);
        let e = p + a + last.len();
        assert forall|j: int| a + last.len() <= j < whole.len() implies is_ws(#[trigger] whole[j]) by {
            assert(whole[j] == nl[j - a - last.len()]);
        }
        lemma_ws_window(t, p, whole, a + last.len() as int, whole.len() as int);
        lemma_items_after_ws(t, e, p + whole.len(), acc1.push(items[k - 1]@));
        assert(acc1.push(items[k - 1]@) =~= acc + Seq::new(k as nat, |j: int| items[j]@));
        let c = acc.len() + k;
        lemma_readable_after_ws(t, e, p + whole.len(), c);
        lemma_readable_after_ws(t, m, m + r1.len(), c - 1);
        if c <= MAX_LIST_LEN && readable_items(t, p + whole.len(), c) {
            assert(readable_items(t, e, c));
            assert(readable_items(t, p + a, c - 1));
        }
    }
}

/// Text round trip through the pretty writer (`to_pretty`): its text for a
/// value decodes to that same value with only whitespace after it, when
/// indent, newline and delimiter are whitespace and the delimiter is not
/// empty, the value can be written, and each float holds text that reads as
/// a float.
pub proof fn lemma_pretty_round_trip(v: TextValue, w: Ws)
    requires
        pretty_ws(w),
        text_error(v) is None,
        floats_read_back(v),
    ensures
        ({
            let s = pretty_text(v, 0, w) + w.nl;
            decoded(s, 0) matches Some((x, e)) && x == v@ && token_kind(s, e) == TokenView::Eof
                && skip_ws(s, e) >= s.len() && readable(s, 0)
        }),
{
    let x = pretty_text(v, 0, w);
    let s = x + w.nl;
    assert(s.subrange(0, x.len() as int) =~= x);
    assert(s[x.len() as int] == w.nl[0]);
    lemma_pretty_decodes(v, s, 0, 0, w);
    assert forall|j: int| x.len() <= j < s.len() implies is_ws(#[trigger] s[j]) by {
        assert(s[j] == w.nl[j - x.len()]);
    }
    lemma_skip_ws_same(s, x.len() as int, s.len() as int);
}

/// Text round trip at the level of strings: the string that `to_string`
/// returns for a value (its characters decode the writer's bytes, which are
/// valid UTF-8) is, as `from_str` sees it, text that reads and decodes to
/// that value with only whitespace after it; so `from_str` returns that
/// value.
pub proof fn lemma_to_string_reads_back(v: TextValue, ind: Seq<u8>, nl: Seq<u8>, dl: Seq<u8>, text: &str)
    requires
        ws_config(ind, nl, dl),
        text_error(v) is None,
        floats_read_back(v),
        vstd::utf8::valid_utf8(streamed(v, 0, false, ind, nl, dl)),
        text@ == vstd::utf8::decode_utf8(streamed(v, 0, false, ind, nl, dl)),
    ensures
        readable(text.spec_bytes(), 0),
        decoded(text.spec_bytes(), 0) matches Some((w, e)) && w == v@ && skip_ws(text.spec_bytes(), e) >= text.spec_bytes().len(),
{
    vstd::utf8::decode_utf8_encode_utf8(streamed(v, 0, false, ind, nl, dl));
    assert(text.spec_bytes() == streamed(v, 0, false, ind, nl, dl));
    lemma_text_round_trip(v, ind, nl, dl);
}

/// Text round trip through the pretty writer, at the level of the text
/// read: text whose bytes are what `to_pretty` returns reads and decodes to
/// the value with only whitespace after it; so `from_str` returns that
/// value.
pub proof fn lemma_to_pretty_reads_back(v: TextValue, w: Ws, text: &str)
    requires
        pretty_ws(w),
        text_error(v) is None,
        floats_read_back(v),
        text.spec_bytes() == pretty_text(v, 0, w) + w.nl,
    ensures
        readable(text.spec_bytes(), 0),
        decoded(text.spec_bytes(), 0) matches Some((x, e)) && x == v@ && skip_ws(text.spec_bytes(), e) >= text.spec_bytes().len(),
{
    lemma_pretty_round_trip(v, w);
}

} // verus!
