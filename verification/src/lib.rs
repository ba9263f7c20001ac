//! Keyword aliasing for neit source text.
//!
//! A grammar table maps alias words to canonical keywords. The table is read
//! from line-oriented grammar texts and ends with a fixed list of identity
//! entries for the language's own keywords. Rewriting a source text replaces
//! every word outside a quoted literal by what the table gives for it.

pub mod args;
pub mod chars;
pub mod grammar;
pub mod process;
pub mod rewrite;
pub mod table;
pub mod text;

pub use grammar::MalformedGrammarLine;
pub use process::{process_files, Error, FileKind, Loaded, Source};
pub use table::Grammar;
