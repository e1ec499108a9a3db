//! A string held either as 8-bit or as 16-bit code units, and its lossy
//! conversion to text.
//!
//! The conversion never fails: what cannot be decoded is replaced by U+FFFD.
//! What each decoder returns is defined as a function of the sequence of code
//! units, and the decoders are proved to compute it.
pub mod text;
pub mod types;
pub mod utf16;
pub mod utf8;

pub use types::BytesOrWideString;
