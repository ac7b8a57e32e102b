//! Turns a line-oriented plain-text markup into LaTeX source.
//!
//! Each input line is classified by its leading marker (`#` for a heading, `>` for
//! an alignment line, none for prose), runs of lines of one kind are grouped into
//! blocks, and each block is rendered by the rules of its kind between a fixed
//! document opening and closing.
use vstd::prelude::*;

pub mod block;
pub mod document;
pub mod line;
pub mod text;

pub use block::{fold_strings, Block, FatalError, MAX_HEADER_LEVEL};
pub use document::{PreFile, DEFAULT_FOOTER, DEFAULT_HEADER};
pub use line::{Line, LineType};

verus! {

} // verus!
