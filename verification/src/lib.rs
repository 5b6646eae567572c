//! A Wadler-style pretty-printer.
//!
//! A `FormatElement` tree describes layout intent: literal text, sequential
//! composition, indentation, soft break points, and grouped "one line or
//! broken" choice points.  The layout engine resolves every choice against a
//! column budget, and the renderer turns the resolved form into text.

pub mod doc;
pub mod fitted;
pub mod layout;
pub mod laws;
