//! Tokens handed out by the lexer, and their mathematical view.
use vstd::prelude::*;

use crate::error::LexError;
use crate::tag;

verus! {

/// What a token carries beside its value: the tag of its kind or keyword.
#[derive(Clone, Copy, PartialEq, Eq, Debug)]
pub struct TokenDesc {
    pub tag: i64,
}

/// A token.
#[derive(Clone, PartialEq, Debug)]
pub enum Token {
    /// Integer literal.
    Num(TokenDesc, i64),
    /// Keyword or identifier.
    Word(TokenDesc, String),
    /// Operator of one or two characters.
    Op(TokenDesc, String),
    /// End of the input.
    End,
}

/// The view of a token: its tag and its value, with text as a sequence of characters.
pub enum TokenView {
    Num(i64, i64),
    Word(i64, Seq<char>),
    Op(i64, Seq<char>),
    End,
}

impl View for Token {
    type V = TokenView;

    open spec fn view(&self) -> TokenView {
        match self {
            Token::Num(d, v) => TokenView::Num(d.tag, *v),
            Token::Word(d, s) => TokenView::Word(d.tag, s@),
            Token::Op(d, s) => TokenView::Op(d.tag, s@),
            Token::End => TokenView::End,
        }
    }
}

/// The view of what a read returns.
pub open spec fn result_view(r: Result<Token, LexError>) -> Result<TokenView, LexError> {
    match r {
        Ok(t) => Ok(t@),
        Err(e) => Err(e),
    }
}

impl Token {
    /// An integer literal of value `val`.
    pub fn num(val: i64) -> (r: Token)
        ensures
            r@ == TokenView::Num(tag::NUM, val),
    {
        Token::Num(TokenDesc { tag: tag::NUM }, val)
    }

    /// A word with the given tag and text.
    pub fn word(tag: i64, val: String) -> (r: Token)
        ensures
            r@ == TokenView::Word(tag, val@),
    {
        Token::Word(TokenDesc { tag }, val)
    }

    /// An identifier with the given text.
    pub fn id(val: String) -> (r: Token)
        ensures
            r@ == TokenView::Word(tag::ID, val@),
    {
        Token::Word(TokenDesc { tag: tag::ID }, val)
    }

    /// An operator with the given text.
    pub fn op(op: String) -> (r: Token)
        ensures
            r@ == TokenView::Op(tag::OP, op@),
    {
        Token::Op(TokenDesc { tag: tag::OP }, op)
    }
}

} // verus!
