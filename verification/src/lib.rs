//! Fine-grained staging of changes: the structured diff of a file, the
//! unified-diff patches that select hunks or lines of it, the labelled view
//! of it, and the parsing of a user's selection.

pub mod diff;
pub mod display;
pub mod filter;
pub mod laws;
pub mod selection;
pub mod stage;
pub mod text;
