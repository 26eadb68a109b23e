//! Compiles per-code-point Unicode property values (Bidi_Class,
//! General_Category) into compact range tables, and composes and decomposes
//! precomposed Hangul syllables.

pub mod error;
pub mod hangul;
pub mod scalar;
pub mod table;
pub mod compress;
pub mod emit;
pub mod bidi;
pub mod category;
pub mod parse;
