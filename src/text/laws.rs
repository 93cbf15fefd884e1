//! Laws of the text codec.
use vstd::prelude::*;
use crate::text::ascii::{all_valid, checked, is_delim, is_number_byte, needs_quoting, valid_byte};
use crate::text::parse::{any_of, float_grammar, is_digit, parsed_i32, scan_digits, unsigned_part, AnyView};
use crate::text::string_writer::{int_text, nat_text, written_str};
use crate::text::tokenizer::{has_quote, qscan, run_end, skip_ws, token_end, token_kind, TokenView};
use crate::text::codec::{decoded, TextValueView};
use crate::text::reader::token_any;

verus! {

proof fn lemma_scan_ok_digits(d: Seq<u8>, i: int, acc: int, limit: int)
    requires
        0 <= i,
        scan_digits(d, i, acc, limit) is Ok,
    ensures
        forall|j: int| i <= j < d.len() ==> is_digit(#[trigger] d[j]),
    decreases d.len() - i,
{
    if i < d.len() {
        lemma_scan_ok_digits(d, i + 1, acc * 10 + (d[i] - 0x30), limit);
    }
}

/// Text that reads as an integer or a float holds only signs, points and
/// digits.
pub proof fn lemma_numbers_are_number_bytes(s: Seq<u8>)
    ensures
        parsed_i32(s) is Ok ==> forall|j: int| 0 <= j < s.len() ==> is_number_byte(#[trigger] s[j]),
        float_grammar(s) ==> forall|j: int| 0 <= j < s.len() ==> is_number_byte(#[trigger] s[j]),
{
    if parsed_i32(s) is Ok {
        if s[0] == 0x2d || s[0] == 0x2b {
            lemma_scan_ok_digits(s, 1, 0, if s[0] == 0x2d { 0x8000_0000 } else { 0x7fff_ffff });
        } else {
            lemma_scan_ok_digits(s, 0, 0, 0x7fff_ffff);
        }
    }
    if float_grammar(s) {
        let u = unsigned_part(s);
        assert forall|j: int| 0 <= j < s.len() implies is_number_byte(#[trigger] s[j]) by {
            if s.len() > 0 && (s[0] == 0x2b || s[0] == 0x2d) {
                if j > 0 {
                    assert(s[j] == u[j - 1]);
                }
            } else {
                assert(s[j] == u[j]);
            }
        }
    }
}

proof fn lemma_run_end_of(t: Seq<u8>, p: int, n: int)
    requires
        0 <= p <= n <= t.len(),
        forall|j: int| p <= j < n ==> !is_delim(#[trigger] t[j]),
        n == t.len() || is_delim(t[n]),
    ensures
        run_end(t, p) == n,
    decreases n - p,
{
    if p < n {
        lemma_run_end_of(t, p + 1, n);
    }
}

proof fn lemma_qscan_inside(t: Seq<u8>, p: int, n: int, v: Seq<u8>)
    requires
        1 <= p <= n < t.len(),
        t[n] == 0x22,
        forall|j: int| p <= j < n ==> #[trigger] t[j] != 0x22,
        v == t.subrange(p, n),
        qscan(t, n + 1, false) == Some((n + 1, Seq::<u8>::empty())),
    ensures
        qscan(t, p, true) == Some((n + 1, v)),
    decreases n - p,
{
    if p < n {
        lemma_qscan_inside(t, p + 1, n, t.subrange(p + 1, n));
        assert(seq![t[p]] + t.subrange(p + 1, n) =~= v);
    } else {
        assert(v =~= Seq::<u8>::empty());
    }
}

/// Quoting round trip: a string that the writers accept, written as they
/// write it (quoted exactly when the quoting policy says) and followed by a
/// delimiter or the end, is read back as one text token holding exactly
/// that string; unquoted, it reads as a string and not as a number.
pub proof fn lemma_written_string_reads_back(s: Seq<u8>, rest: Seq<u8>)
    requires
        s.len() == 0 || checked(s, None) is Ok,
        rest.len() == 0 || is_delim(rest[0]),
    ensures
        ({
            let t = written_str(s, needs_quoting(s)) + rest;
            &&& skip_ws(t, 0) == 0
            &&& !needs_quoting(s) ==> !has_quote(t, 0, run_end(t, 0)) && run_end(t, 0) == s.len()
                && t.subrange(0, s.len() as int) == s && any_of(s) == AnyView::String(s)
            &&& needs_quoting(s) ==> has_quote(t, 0, run_end(t, 0)) && qscan(t, 0, false) == Some(
                (s.len() as int + 2, s),
            )
        }),
{
    let q = needs_quoting(s);
    let t = written_str(s, q) + rest;
    if s.len() > 0 {
        assert(all_valid(s));
    }
    if !q {
        assert(t =~= s + rest);
        assert(forall|j: int| 0 <= j < s.len() ==> t[j] == s[j]);
        assert(forall|j: int| 0 <= j < s.len() ==> !is_delim(#[trigger] s[j]));
        assert(forall|j: int| 0 <= j < s.len() ==> valid_byte(#[trigger] s[j]));
        lemma_run_end_of(t, 0, s.len() as int);
        assert(t.subrange(0, s.len() as int) =~= s);
        assert(!is_delim(t[0]));
        lemma_numbers_are_number_bytes(s);
        let k = choose|k: int| 0 <= k < s.len() && !is_number_byte(#[trigger] s[k]);
        assert(!(forall|j: int| 0 <= j < s.len() ==> is_number_byte(#[trigger] s[j])));
    } else {
        let n = s.len() as int + 1;
        assert(t[0] == 0x22);
        assert(t[n] == 0x22);
        assert(forall|j: int| 1 <= j < n ==> t[j] == s[j - 1]);
        assert(forall|j: int| 1 <= j < n ==> #[trigger] t[j] != 0x22) by {
            assert forall|j: int| 1 <= j < n implies #[trigger] t[j] != 0x22 by {
                assert(valid_byte(s[j - 1]));
            }
        }
        if rest.len() == 0 {
            assert(qscan(t, n + 1, false) == Some((n + 1, Seq::<u8>::empty())));
        } else {
            assert(t[n + 1] == rest[0]);
            assert(rest[0] != 0x22);
            assert(qscan(t, n + 1, false) == Some((n + 1, Seq::<u8>::empty())));
        }
        lemma_qscan_inside(t, 1, n, t.subrange(1, n));
        assert(t.subrange(1, n) =~= s);
        assert(!is_delim(t[0]));
        assert(run_end(t, 0) == run_end(t, 1));
        if t.len() > 1 && !is_delim(t[1]) {
            crate::text::tokenizer::lemma_run_end_after(t, 1);
        }
        assert(has_quote(t, 0, run_end(t, 0)));
    }
}

/// Text round trip of a string: the text that the streaming writer gives
/// for a string value at the top level (the string, quoted where the policy
/// says, then a newline that starts with a delimiter) decodes to that same
/// string.
pub proof fn lemma_string_text_round_trip(s: Seq<u8>, nl: Seq<u8>)
    requires
        s.len() == 0 || checked(s, None) is Ok,
        nl.len() == 0 || is_delim(nl[0]),
    ensures
        decoded(written_str(s, needs_quoting(s)) + nl, 0) == Some(
            (TextValueView::String(s), written_str(s, needs_quoting(s)).len() as int),
        ),
{
    lemma_written_string_reads_back(s, nl);
    let t = written_str(s, needs_quoting(s)) + nl;
    let w = written_str(s, needs_quoting(s));
    if needs_quoting(s) {
        assert(w.len() == s.len() + 2);
        assert(t[0] == 0x22);
        assert(token_kind(t, 0) == TokenView::Quoted(s));
        assert(token_end(t, 0) == w.len());
    } else {
        assert(s.len() > 0);
        assert(t[0] == s[0]);
        assert(!is_delim(s[0])) by {
            assert(!(exists|i: int| 0 <= i < s.len() && is_delim(#[trigger] s[i])));
        }
        assert(token_kind(t, 0) == TokenView::Unquoted(s));
        assert(token_any(token_kind(t, 0)) == Some(AnyView::String(s)));
    }
}

proof fn lemma_scan_push(d: Seq<u8>, c: u8, i: int, acc: int, limit: int)
    requires
        0 <= i <= d.len(),
        is_digit(c),
    ensures
        scan_digits(d.push(c), i, acc, limit) == match scan_digits(d, i, acc, limit) {
            Ok(m) => if m * 10 + (c - 0x30) > limit {
                Err(if limit == 0x7fff_ffff { crate::text::error::IntErrorKind::PosOverflow } else { crate::text::error::IntErrorKind::NegOverflow })
            } else {
                Ok(m * 10 + (c - 0x30))
            },
            Err(k) => Err(k),
        },
    decreases d.len() - i,
{
    let e = d.push(c);
    assert(e[i] == (if i < d.len() { d[i] } else { c }));
    if i < d.len() {
        if is_digit(d[i]) && acc * 10 + (d[i] - 0x30) <= limit {
            lemma_scan_push(d, c, i + 1, acc * 10 + (d[i] - 0x30), limit);
        }
    } else {
        assert(scan_digits(e, i + 1, acc * 10 + (c - 0x30), limit) == Ok::<int, crate::text::error::IntErrorKind>(acc * 10 + (c - 0x30)));
    }
}

pub proof fn lemma_nat_text_digits(n: nat)
    ensures
        nat_text(n).len() >= 1,
        forall|j: int| 0 <= j < nat_text(n).len() ==> is_digit(#[trigger] nat_text(n)[j]),
    decreases n,
{
    if n >= 10 {
        lemma_nat_text_digits(n / 10);
    }
}

proof fn lemma_scan_nat(pre: Seq<u8>, n: nat, limit: int)
    requires
        n <= limit,
    ensures
        scan_digits(pre + nat_text(n), pre.len() as int, 0, limit) == Ok::<int, crate::text::error::IntErrorKind>(n as int),
    decreases n,
{
    if n < 10 {
        let x = pre + nat_text(n);
        assert(x[pre.len() as int] == (0x30 + n) as u8);
        assert(scan_digits(x, pre.len() as int + 1, n as int, limit) == Ok::<int, crate::text::error::IntErrorKind>(n as int));
    } else {
        lemma_scan_nat(pre, n / 10, limit);
        let d = pre + nat_text(n / 10);
        let c = (0x30 + n % 10) as u8;
        assert(pre + nat_text(n) =~= d.push(c));
        lemma_scan_push(d, c, pre.len() as int, 0, limit);
    }
}

/// Integer text round trip: the decimal text of an integer reads back as
/// that integer.
pub proof fn lemma_int_text_parses(v: i32)
    ensures
        parsed_i32(int_text(v as int)) == Ok::<int, crate::text::error::IntErrorKind>(v as int),
{
    if v < 0 {
        let n = (-(v as int)) as nat;
        lemma_nat_text_digits(n);
        lemma_scan_nat(seq![0x2du8], n, 0x8000_0000);
        assert(int_text(v as int) == seq![0x2du8] + nat_text(n));
    } else {
        lemma_nat_text_digits(v as nat);
        lemma_scan_nat(Seq::empty(), v as nat, 0x7fff_ffff);
        assert(Seq::<u8>::empty() + nat_text(v as nat) =~= nat_text(v as nat));
        assert(is_digit(int_text(v as int)[0]));
    }
}

/// Text round trip of an integer: the text that the writers give for an
/// integer value at the top level, then a newline that starts with a
/// delimiter, decodes to that same integer.
pub proof fn lemma_int_text_round_trip(v: i32, nl: Seq<u8>)
    requires
        nl.len() == 0 || is_delim(nl[0]),
    ensures
        decoded(int_text(v as int) + nl, 0) == Some((TextValueView::Int(v), int_text(v as int).len() as int)),
{
    lemma_int_text_parses(v);
    let x = int_text(v as int);
    let t = x + nl;
    let n: nat = if v < 0 { (-(v as int)) as nat } else { v as nat };
    lemma_nat_text_digits(n);
    assert forall|j: int| 0 <= j < x.len() implies !is_delim(#[trigger] t[j]) && t[j] != 0x22 by {
        if v < 0 {
            if j > 0 {
                assert(x[j] == nat_text(n)[j - 1]);
            }
        }
    }
    assert(!crate::text::tokenizer::is_ws(t[0]));
    lemma_run_end_of(t, 0, x.len() as int);
    assert(t.subrange(0, x.len() as int) =~= x);
    assert(!has_quote(t, 0, x.len() as int));
    assert(token_kind(t, 0) == TokenView::Unquoted(x));
    assert(any_of(x) == AnyView::Int(v));
}

} // verus!
