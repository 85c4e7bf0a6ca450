//! Turns timezone records into C++ struct-literal source text.
//!
//! The library parses UTC offsets written `H:MM:SS` into signed seconds,
//! builds zone records from CSV rows, and renders records as a brace-wrapped
//! array literal.

pub mod error;
pub mod offset;
pub mod zone;
pub mod records;
pub mod source;
