//! Shared helpers: byte codecs, key order, fractions and coin flips.

pub mod frames;
pub mod key;
pub mod le;
pub mod lex;
pub mod rand;
pub mod ratio;
pub mod reusables;
pub mod serdes;
pub mod time;
pub mod vecs;
