//! The parenthesized text format.
pub mod ascii;
pub mod codec;
pub mod config;
pub mod display;
pub mod error;
pub mod laws;
pub mod parse;
pub mod pretty;
pub mod reader;
pub mod round_trip;
pub mod ser_common;
pub mod string_writer;
pub mod tokenizer;
