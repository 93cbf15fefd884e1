//! Encoders and decoders for zlisp, a small lisp-like data model, in a
//! length-prefixed binary format and a parenthesized text format.
//!
//! - [`binary`]: the tagged, length-prefixed byte format.
//! - [`text`]: the parenthesized text format, with a streaming and a pretty
//!   writer.
//! - [`value`]: the generic value carrier.
//! - [`cross`]: how data written in one format relates to the other.
//! - [`message`]: building messages as bytes.
pub mod binary;
pub mod cross;
pub mod message;
pub mod text;
pub mod value;
