//! Decoder for the SCEL binary dictionary container.
//!
//! A SCEL buffer is one whole dictionary file: four fixed-offset header
//! strings, a length-prefixed pinyin syllable table, and a run of
//! variable-length word records.  The decoder turns such a buffer into a
//! flat, ordered list of (frequency, pinyin, word) entries.

pub mod entries;
pub mod parser;
pub mod pytable;
pub mod utf16;
