//! A single-pass, zero-copy scanner for inline markdown-style formatting.
//!
//! [`parse`] turns a text buffer into an ordered sequence of [`Markdown`]
//! spans (plain text, bold, italic, underline), each borrowing a contiguous
//! piece of the input.  Paired `*`, `**`, `_` and `__` markers delimit
//! styled spans; a backslash escapes the marker that follows it.  The
//! behaviour of the scan is stated against the model in [`model`], and the
//! laws in [`laws`] record its general properties.

pub mod laws;
pub mod model;
pub mod scanner;

pub use scanner::parse;
pub use scanner::Markdown;
