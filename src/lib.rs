//! Recognition of closed list entities (a canonical value with known synonyms)
//! in a tokenized utterance, with exact, fuzzy and structural scoring.
pub mod collections;
pub mod strings;
pub mod tokens;
pub mod parser;
pub mod extract;
