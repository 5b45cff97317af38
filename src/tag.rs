//! Tags that tell the kinds of tokens, and the keywords, apart.
use vstd::prelude::*;

verus! {

/// Tag of an integer literal.
pub const NUM: i64 = 256;

/// Tag of the keyword `true`.
pub const TRUE: i64 = 257;

/// Tag of the keyword `false`.
pub const FALSE: i64 = 258;

/// Tag of an identifier that is not a keyword.
pub const ID: i64 = 259;

/// Tag of an operator.
pub const OP: i64 = 260;

} // verus!
