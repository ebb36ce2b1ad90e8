//! Resolves a Latin-letter path pattern against directories whose names,
//! transliterated from Chinese characters to pinyin, match the pattern
//! segment by segment.

pub mod chars;
pub mod parse;
pub mod path;
pub mod search;
pub mod translit;
