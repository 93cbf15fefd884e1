//! The tagged, length-prefixed binary format.
pub mod ascii;
pub mod codec;
pub mod error;
pub mod laws;
pub mod reader;
pub mod wire;
pub mod writer;
