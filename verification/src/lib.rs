//! A spellchecking engine: it finds, for each word of a text, the nearest
//! word of a fixed dictionary by edit distance, and puts the corrected text
//! back together with its punctuation and capitalization kept.

pub mod dictionary;
pub mod edit_distance;
pub mod edit_path;
pub mod spellcheck_parser;
pub mod spellchecked;
pub mod spellchecker;
pub mod text;
pub mod tokenizer;
pub mod unicode;
