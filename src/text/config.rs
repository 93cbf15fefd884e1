//! Whitespace configuration of the text writers.
use vstd::prelude::*;
use vstd::string::StringSliceAdditionalSpecFns;

verus! {

/// A builder of whitespace configuration; start one with
/// [`WhitespaceConfig::builder`].
#[derive(Debug, Clone, Copy)]
pub struct WhitespaceConfigBuilder<'a> {
    pub indent: &'a str,
    pub newline: &'a str,
    pub delimiter: &'a str,
}

impl<'a> WhitespaceConfigBuilder<'a> {
    /// The indent to output when writing text; the default is a tab.
    pub fn indent(self, indent: &'a str) -> (r: Self)
        ensures
            r == (WhitespaceConfigBuilder { indent, ..self }),
    {
        WhitespaceConfigBuilder { indent, ..self }
    }

    /// The newline to output when writing text; the default is CR LF.
    pub fn newline(self, newline: &'a str) -> (r: Self)
        ensures
            r == (WhitespaceConfigBuilder { newline, ..self }),
    {
        WhitespaceConfigBuilder { newline, ..self }
    }

    /// The delimiter to output when writing text; the default is a tab.
    pub fn delimiter(self, delimiter: &'a str) -> (r: Self)
        ensures
            r == (WhitespaceConfigBuilder { delimiter, ..self }),
    {
        WhitespaceConfigBuilder { delimiter, ..self }
    }

    /// The configuration built.
    pub fn build(self) -> (r: WhitespaceConfig<'a>)
        ensures
            r.indent == self.indent,
            r.newline == self.newline,
            r.delimiter == self.delimiter,
    {
        WhitespaceConfig { indent: self.indent, newline: self.newline, delimiter: self.delimiter }
    }
}

/// Whitespace configuration for text writers: canonically a tab for indent
/// and delimiter, and CR LF for newlines.
#[derive(Debug, Clone, Copy)]
pub struct WhitespaceConfig<'a> {
    pub indent: &'a str,
    pub newline: &'a str,
    pub delimiter: &'a str,
}

/// A tab.
pub open spec fn tab() -> Seq<u8> {
    seq![0x09u8]
}

/// CR LF.
pub open spec fn crlf() -> Seq<u8> {
    seq![0x0du8, 0x0au8]
}

impl<'a> WhitespaceConfig<'a> {
    /// The default, canonical configuration: tabs, and CR LF newlines.
    pub fn default() -> (r: WhitespaceConfig<'static>)
        ensures
            r.indent.spec_bytes() == tab(),
            r.newline.spec_bytes() == crlf(),
            r.delimiter.spec_bytes() == tab(),
    {
        let r = WhitespaceConfig { indent: "\t", newline: "\r\n", delimiter: "\t" };
        proof {
            reveal_strlit("\t");
            reveal_strlit("\r\n");
            vstd::string::is_ascii_spec_bytes(r.indent);
            vstd::string::is_ascii_spec_bytes(r.newline);
            assert(r.indent.spec_bytes() =~= tab());
            assert(r.newline.spec_bytes() =~= crlf());
        }
        r
    }

    /// A builder that starts from the default configuration.
    pub fn builder() -> (r: WhitespaceConfigBuilder<'static>)
        ensures
            r.indent.spec_bytes() == tab(),
            r.newline.spec_bytes() == crlf(),
            r.delimiter.spec_bytes() == tab(),
    {
        let d = WhitespaceConfig::default();
        WhitespaceConfigBuilder { indent: d.indent, newline: d.newline, delimiter: d.delimiter }
    }

    /// The indent to output when writing text.
    pub fn indent(&self) -> (r: &'a str)
        ensures
            r == self.indent,
    {
        self.indent
    }

    /// The newline to output when writing text.
    pub fn newline(&self) -> (r: &'a str)
        ensures
            r == self.newline,
    {
        self.newline
    }

    /// The delimiter to output when writing text.
    pub fn delimiter(&self) -> (r: &'a str)
        ensures
            r == self.delimiter,
    {
        self.delimiter
    }
}

} // verus!
