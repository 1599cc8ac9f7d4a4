//! Whitespace normalisation of decoded string fields: trimming single
//! strings, optional strings and collections of strings, with or without
//! dropping the values that end up empty.

pub mod collection;
pub mod trim;
