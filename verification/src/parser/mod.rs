//! The character stream, the tokenizer, and the text model both are stated over.

use vstd::prelude::*;

pub mod layout;
pub mod scanner;
pub mod stream;

verus! {

/// Where a character or token starts: its byte offset, and its 1-based line and
/// column. Before anything has been read the position is `(0, 1, 0)`.
#[derive(Clone, Copy, Debug, PartialEq, Eq, Structural)]
pub struct Position {
    pub offset: usize,
    pub line: usize,
    pub col: usize,
}

} // verus!
