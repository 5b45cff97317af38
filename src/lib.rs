//! A streaming lexical analyzer that turns source text into tokens.
//!
//! `grammar` states the token rules as spec functions over the input that is
//! still to be read; `lexer` scans characters and is proved to follow them;
//! `laws` proves properties of the rules that hold for every input.
use vstd::prelude::*;

pub mod error;
pub mod grammar;
pub mod laws;
pub mod lexer;
pub mod tag;
pub mod token;

pub use error::LexError;
pub use lexer::Lexer;
pub use token::{Token, TokenDesc};

verus! {

} // verus!
