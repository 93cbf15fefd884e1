//! The streaming text writer: each scalar or list on its own indented line.
use vstd::prelude::*;
use vstd::string::StringSliceAdditionalSpecFns;
use vstd::utf8::{valid_utf8, decode_utf8, encode_utf8_valid_utf8, valid_utf8_concat};
use crate::text::ascii::{all_valid, checked, needs_quoting, to_raw};
use crate::text::config::WhitespaceConfig;
use crate::text::error::Error;

verus! {

broadcast use {encode_utf8_valid_utf8, valid_utf8_concat};

/// The decimal digits of a natural number.
pub open spec fn nat_text(n: nat) -> Seq<u8>
    decreases n,
{
    if n < 10 {
        seq![(0x30 + n) as u8]
    } else {
        nat_text(n / 10) + seq![(0x30 + n % 10) as u8]
    }
}

/// The decimal text of an integer: a minus sign where it is negative.
pub open spec fn int_text(v: int) -> Seq<u8> {
    if v < 0 {
        seq![0x2du8] + nat_text((-v) as nat)
    } else {
        nat_text(v as nat)
    }
}

/// All bytes are ASCII.
pub open spec fn is_ascii_bytes(s: Seq<u8>) -> bool {
    forall|i: int| 0 <= i < s.len() ==> #[trigger] s[i] < 0x80
}

/// ASCII bytes are valid UTF-8.
pub proof fn lemma_ascii_valid(s: Seq<u8>)
    requires
        is_ascii_bytes(s),
    ensures
        valid_utf8(s),
    decreases s.len(),
{
    if s.len() > 0 {
        let rest = s.subrange(1, s.len() as int);
        lemma_ascii_valid(rest);
        assert(s =~= seq![s[0]] + rest);
        let one = seq![s[0]];
        assert(vstd::utf8::pop_first_scalar(one) =~= Seq::<u8>::empty());
        assert(valid_utf8(Seq::<u8>::empty()));
        assert(valid_utf8(one));
        valid_utf8_concat(one, rest);
    }
}

proof fn lemma_nat_text_ascii(n: nat)
    ensures
        is_ascii_bytes(nat_text(n)),
        nat_text(n).len() >= 1,
    decreases n,
{
    if n >= 10 {
        lemma_nat_text_ascii(n / 10);
    }
}

fn push_nat(out: &mut Vec<u8>, n: u32)
    ensures
        final(out)@ == old(out)@ + nat_text(n as nat),
    decreases n,
{
    if n >= 10 {
        push_nat(out, n / 10);
    }
    out.push((0x30 + n % 10) as u8);
    assert(final(out)@ =~= old(out)@ + nat_text(n as nat));
}

/// Append the decimal text of `v`.
pub fn push_decimal(out: &mut Vec<u8>, v: i32)
    ensures
        final(out)@ == old(out)@ + int_text(v as int),
{
    if v < 0 {
        out.push(0x2d);
        let n = (0 - (v as i64)) as u32;
        push_nat(out, n);
        assert(final(out)@ =~= old(out)@ + int_text(v as int));
    } else {
        push_nat(out, v as u32);
    }
}

/// `s`, `n` times over.
pub open spec fn repeat(s: Seq<u8>, n: nat) -> Seq<u8>
    decreases n,
{
    if n == 0 {
        Seq::empty()
    } else {
        repeat(s, (n - 1) as nat) + s
    }
}

proof fn lemma_repeat_valid(s: Seq<u8>, n: nat)
    requires
        valid_utf8(s),
    ensures
        valid_utf8(repeat(s, n)),
    decreases n,
{
    if n > 0 {
        lemma_repeat_valid(s, (n - 1) as nat);
    }
}

/// Append the bytes of `s`.
pub fn append(out: &mut Vec<u8>, s: &[u8])
    ensures
        final(out)@ == old(out)@ + s@,
{
    let mut i: usize = 0;
    while i < s.len()
        invariant
            i <= s@.len(),
            out@ == old(out)@ + s@.subrange(0, i as int),
        decreases s@.len() - i,
    {
        out.push(s[i]);
        i = i + 1;
        assert(out@ =~= old(out)@ + s@.subrange(0, i as int));
    }
    assert(s@.subrange(0, i as int) =~= s@);
}

/// Append `s` `n` times.
pub fn append_repeat(out: &mut Vec<u8>, s: &[u8], n: usize)
    ensures
        final(out)@ == old(out)@ + repeat(s@, n as nat),
{
    let mut i: usize = 0;
    while i < n
        invariant
            i <= n,
            out@ == old(out)@ + repeat(s@, i as nat),
        decreases n - i,
    {
        append(out, s);
        i = i + 1;
        assert(out@ =~= old(out)@ + repeat(s@, i as nat));
    }
}

/// The text of a string as written: quoted where it must be.
pub open spec fn written_str(v: Seq<u8>, quoted: bool) -> Seq<u8> {
    if quoted {
        seq![0x22u8] + v + seq![0x22u8]
    } else {
        v
    }
}

/// Writes text as values arrive: each scalar or list on its own indented line.
#[derive(Debug, Clone)]
pub struct StringWriter<'a> {
    config: WhitespaceConfig<'a>,
    inner: Vec<u8>,
    level: usize,
    last_write_was_string: bool,
}

impl<'a> StringWriter<'a> {
    /// The text written so far.
    pub closed spec fn out(&self) -> Seq<u8> {
        self.inner@
    }

    /// The depth of list nesting.
    pub closed spec fn level(&self) -> nat {
        self.level as nat
    }

    /// The last thing written was a string.
    pub closed spec fn after_string(&self) -> bool {
        self.last_write_was_string
    }

    /// The configuration.
    pub closed spec fn cfg(&self) -> WhitespaceConfig<'a> {
        self.config
    }

    /// The bytes of the indent.
    pub open spec fn indent(&self) -> Seq<u8> {
        self.cfg().indent.spec_bytes()
    }

    /// The bytes of the newline.
    pub open spec fn newline(&self) -> Seq<u8> {
        self.cfg().newline.spec_bytes()
    }

    /// The bytes of the delimiter.
    pub open spec fn delimiter(&self) -> Seq<u8> {
        self.cfg().delimiter.spec_bytes()
    }

    /// The text written is valid UTF-8.
    pub closed spec fn wf(&self) -> bool {
        valid_utf8(self.inner@)
    }

    /// A writer with nothing written, at depth 0.
    pub fn new(config: WhitespaceConfig<'a>) -> (r: Self)
        ensures
            r.wf(),
            r.out() == Seq::<u8>::empty(),
            r.level() == 0,
            !r.after_string(),
            r.indent() == config.indent.spec_bytes(),
            r.newline() == config.newline.spec_bytes(),
            r.delimiter() == config.delimiter.spec_bytes(),
    {
        let r = StringWriter { config, inner: Vec::new(), level: 0, last_write_was_string: false };
        assert(valid_utf8(r.inner@));
        r
    }

    fn push_indent(&mut self)
        requires
            old(self).wf(),
        ensures
            final(self).wf(),
            final(self).out() == old(self).out() + repeat(old(self).indent(), old(self).level()),
            final(self).cfg() == old(self).cfg(),
            final(self).level == old(self).level,
            final(self).last_write_was_string == old(self).last_write_was_string,
    {
        proof {
            lemma_repeat_valid(self.indent(), self.level());
        }
        append_repeat(&mut self.inner, self.config.indent.as_bytes(), self.level);
    }

    fn push_newline(&mut self)
        requires
            old(self).wf(),
        ensures
            final(self).wf(),
            final(self).out() == old(self).out() + old(self).newline(),
            final(self).cfg() == old(self).cfg(),
            final(self).level == old(self).level,
            final(self).last_write_was_string == old(self).last_write_was_string,
    {
        append(&mut self.inner, self.config.newline.as_bytes());
    }

    fn push_delim(&mut self)
        requires
            old(self).wf(),
        ensures
            final(self).wf(),
            final(self).out() == old(self).out() + old(self).delimiter(),
            final(self).cfg() == old(self).cfg(),
            final(self).level == old(self).level,
            final(self).last_write_was_string == old(self).last_write_was_string,
    {
        append(&mut self.inner, self.config.delimiter.as_bytes());
    }

    fn push_ascii(&mut self, b: u8)
        requires
            old(self).wf(),
            b < 0x80,
        ensures
            final(self).wf(),
            final(self).out() == old(self).out().push(b),
            final(self).cfg() == old(self).cfg(),
            final(self).level == old(self).level,
            final(self).last_write_was_string == old(self).last_write_was_string,
    {
        proof {
            lemma_ascii_valid(seq![b]);
            assert(self.inner@.push(b) =~= self.inner@ + seq![b]);
        }
        self.inner.push(b);
    }

    /// Write an integer on its own line.
    pub fn write_i32(&mut self, v: i32)
        requires
            old(self).wf(),
        ensures
            final(self).wf(),
            final(self).out() == old(self).out() + repeat(old(self).indent(), old(self).level()) + int_text(v as int) + old(self).newline(),
            final(self).level() == old(self).level(),
            !final(self).after_string(),
            final(self).cfg() == old(self).cfg(),
    {
        self.last_write_was_string = false;
        self.push_indent();
        push_decimal(&mut self.inner, v);
        proof {
            if v < 0 {
                lemma_nat_text_ascii((-(v as int)) as nat);
                assert(is_ascii_bytes(int_text(v as int)));
            } else {
                lemma_nat_text_ascii(v as nat);
            }
            lemma_ascii_valid(int_text(v as int));
        }
        self.push_newline();
    }

    /// Write a float, given as its decimal text, on its own line.
    pub fn write_f32(&mut self, text: &[u8])
        requires
            old(self).wf(),
            is_ascii_bytes(text@),
        ensures
            final(self).wf(),
            final(self).out() == old(self).out() + repeat(old(self).indent(), old(self).level()) + text@ + old(self).newline(),
            final(self).level() == old(self).level(),
            !final(self).after_string(),
            final(self).cfg() == old(self).cfg(),
    {
        self.last_write_was_string = false;
        self.push_indent();
        proof {
            lemma_ascii_valid(text@);
        }
        append(&mut self.inner, text);
        self.push_newline();
    }
    /// Write a string on its own line, quoted where it must be; the string is
    /// checked first, and nothing is written if it fails.
    pub fn write_str(&mut self, v: &[u8]) -> (r: Result<(), Error>)
        requires
            old(self).wf(),
        ensures
            final(self).wf(),
            final(self).cfg() == old(self).cfg(),
            final(self).level() == old(self).level(),
            v@.len() > 0 ==> (checked(v@, None) matches Err(e) ==> r == Err::<(), Error>(e) && final(self).out() == old(self).out()),
            (v@.len() == 0 || checked(v@, None) is Ok) ==> r is Ok && final(self).after_string()
                && final(self).out() == old(self).out() + repeat(old(self).indent(), old(self).level())
                + written_str(v@, needs_quoting(v@)) + old(self).newline(),
    {
        let quote = to_raw(v)?;
        self.last_write_was_string = true;
        self.push_indent();
        proof {
            if v@.len() > 0 {
                assert(all_valid(v@));
                assert(is_ascii_bytes(v@));
            }
            lemma_ascii_valid(v@);
        }
        if quote {
            self.push_ascii(0x22);
            append(&mut self.inner, v);
            self.push_ascii(0x22);
        } else {
            append(&mut self.inner, v);
        }
        self.push_newline();
        assert(self.out() =~= old(self).out() + repeat(old(self).indent(), old(self).level())
            + written_str(v@, needs_quoting(v@)) + old(self).newline());
        Ok(())
    }

    /// Write the start of a list: after a string, on the same line after a
    /// delimiter; else on its own indented line.
    pub fn write_list_start_unchecked(&mut self)
        requires
            old(self).wf(),
            old(self).level() < usize::MAX,
        ensures
            final(self).wf(),
            final(self).cfg() == old(self).cfg(),
            final(self).level() == old(self).level() + 1,
            !final(self).after_string(),
            final(self).out() == old(self).out() + (if old(self).after_string() {
                old(self).delimiter()
            } else {
                repeat(old(self).indent(), old(self).level())
            }) + seq![0x28u8] + old(self).newline(),
    {
        if self.last_write_was_string {
            self.push_delim();
        } else {
            self.push_indent();
        }
        self.push_ascii(0x28);
        self.push_newline();
        self.level = self.level + 1;
        self.last_write_was_string = false;
        assert(self.out() =~= old(self).out() + (if old(self).after_string() {
            old(self).delimiter()
        } else {
            repeat(old(self).indent(), old(self).level())
        }) + seq![0x28u8] + old(self).newline());
    }

    /// Write the start of a list of `count` items (the count is checked by
    /// the caller).
    pub fn write_list_start(&mut self, count: i32) -> (r: Result<(), Error>)
        requires
            old(self).wf(),
            old(self).level() < usize::MAX,
        ensures
            r is Ok,
            final(self).wf(),
            final(self).cfg() == old(self).cfg(),
            final(self).level() == old(self).level() + 1,
            !final(self).after_string(),
            final(self).out() == old(self).out() + (if old(self).after_string() {
                old(self).delimiter()
            } else {
                repeat(old(self).indent(), old(self).level())
            }) + seq![0x28u8] + old(self).newline(),
    {
        self.write_list_start_unchecked();
        Ok(())
    }

    /// Write the end of a list, on its own line at the list's indent.
    pub fn write_list_end(&mut self)
        requires
            old(self).wf(),
            old(self).level() > 0,
        ensures
            final(self).wf(),
            final(self).cfg() == old(self).cfg(),
            final(self).level() == old(self).level() - 1,
            !final(self).after_string(),
            final(self).out() == old(self).out() + repeat(old(self).indent(), (old(self).level() - 1) as nat)
                + seq![0x29u8] + old(self).newline(),
    {
        self.last_write_was_string = false;
        self.level = self.level - 1;
        self.push_indent();
        self.push_ascii(0x29);
        self.push_newline();
        assert(self.out() =~= old(self).out() + repeat(old(self).indent(), (old(self).level() - 1) as nat)
            + seq![0x29u8] + old(self).newline());
    }

    /// Write the unit value `()`: after a string, on the same line after a
    /// delimiter; else on its own indented line.
    pub fn write_unit(&mut self)
        requires
            old(self).wf(),
        ensures
            final(self).wf(),
            final(self).cfg() == old(self).cfg(),
            final(self).level() == old(self).level(),
            !final(self).after_string(),
            final(self).out() == old(self).out() + (if old(self).after_string() {
                old(self).delimiter()
            } else {
                repeat(old(self).indent(), old(self).level())
            }) + seq![0x28u8, 0x29u8] + old(self).newline(),
    {
        if self.last_write_was_string {
            self.push_delim();
        } else {
            self.push_indent();
        }
        self.push_ascii(0x28);
        self.push_ascii(0x29);
        self.push_newline();
        self.last_write_was_string = false;
        assert(self.out() =~= old(self).out() + (if old(self).after_string() {
            old(self).delimiter()
        } else {
            repeat(old(self).indent(), old(self).level())
        }) + seq![0x28u8, 0x29u8] + old(self).newline());
    }

    /// The error for a data type that the format does not hold; a writer
    /// reports it without a location.
    pub fn unsupported(&self) -> (r: Error)
        ensures
            r == (Error { code: crate::text::error::ErrorCode::UnsupportedType, location: None }),
    {
        Error::new(crate::text::error::ErrorCode::UnsupportedType, None)
    }

    /// The text written.
    pub fn finish(self) -> (r: String)
        requires
            self.wf(),
        ensures
            r@ == decode_utf8(self.out()),
            valid_utf8(self.out()),
    {
        utf8_string(self.inner)
    }
}

/// Relies on `String::from_utf8`: bytes that are valid UTF-8 are taken as
/// they are, and the string holds the characters they encode.
#[verifier::external_body]
pub(crate) fn utf8_string(v: Vec<u8>) -> (r: String)
    requires
        valid_utf8(v@),
    ensures
        r@ == decode_utf8(v@),
{
    String::from_utf8(v).unwrap()
}

} // verus!
