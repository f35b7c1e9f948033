//! Extraction of the thread name (the "base subject") of an e-mail subject
//! line: reply and forward markers such as `Re:`, `Fwd[2]:`, `[fwd: ...]`
//! and trailing `(fwd)` are removed, in many languages.

pub mod parsers;
pub mod text;
