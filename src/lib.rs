//! Reformats the pipe tables of a Markdown document into an aligned, canonical form,
//! leaving every other line and every fenced code block as it was.
//!
//! `text` holds the character-level helpers, `row` classifies lines, `table` models and
//! renders a table, `format` runs the line-by-line state machine over a document, and
//! `laws` and `canonical` prove properties of the whole.
pub mod text;
pub mod table;
pub mod row;
pub mod format;
pub mod laws;
pub mod canonical;
