//! Errors that stop the lexer.
use vstd::prelude::*;

verus! {

/// A fatal condition met while scanning.
#[derive(Clone, Copy, PartialEq, Eq, Debug, Structural)]
pub enum LexError {
    /// A block comment was opened and the input ended before `*/`.
    UnterminatedComment,
    /// An integer literal whose value does not fit in an `i64`.
    NumberOverflow,
}

} // verus!
