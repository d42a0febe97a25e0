//! Extraction of phonological data (readings, pitch accents, per-character
//! furigana decompositions) for Japanese dictionary entries from wiki markup.
//!
//! The crate is organised in these layers:
//! - [`wikitext`]: a template scanner and a parameter splitter for wiki markup;
//! - [`ja`]: a pure kana normalization engine (classification, katakana
//!   normalization, iteration-mark expansion, mora counting);
//! - [`parse`]: per-template field extractors producing typed records;
//! - [`framing`]: the length-prefixed binary container of article records;
//! - [`infer`]: reading decomposition against a kanji table and pitch-accent
//!   inference from pronunciation records.

pub mod framing;
pub mod infer;
pub mod ja;
pub mod parse;
pub mod wikitext;
