//! The token grammar, stated over the input that is still to be read.
//!
//! Each function here takes the remaining input `r` and says how much of it a
//! rule consumes. The character `'\0'`, like the end of `r`, ends the input.
use vstd::prelude::*;

use crate::error::LexError;
use crate::tag;
use crate::token::TokenView;

verus! {

pub open spec fn is_blank(c: char) -> bool {
    c == ' ' || c == '\t' || c == '\n'
}

pub open spec fn is_digit(c: char) -> bool {
    '0' <= c && c <= '9'
}

pub open spec fn is_ascii(c: char) -> bool {
    (c as u32) < 128
}

pub open spec fn is_ascii_letter(c: char) -> bool {
    ('a' <= c && c <= 'z') || ('A' <= c && c <= 'Z')
}

/// What `char::is_alphabetic` returns: whether `c` has the Unicode
/// Alphabetic property.
pub uninterp spec fn alphabetic(c: char) -> bool;

/// What `char::is_alphanumeric` returns: whether `c` is alphabetic or
/// numeric in Unicode's sense.
pub uninterp spec fn alphanumeric(c: char) -> bool;

/// A character that may start a word: a letter in Unicode's sense, which
/// within ASCII is just `a`-`z` and `A`-`Z`.
pub open spec fn is_alpha(c: char) -> bool {
    if is_ascii(c) {
        is_ascii_letter(c)
    } else {
        alphabetic(c)
    }
}

/// A character that may go on a word: a letter or a digit in Unicode's
/// sense, which within ASCII is just the letters and `0`-`9`.
pub open spec fn is_alnum(c: char) -> bool {
    if is_ascii(c) {
        is_ascii_letter(c) || is_digit(c)
    } else {
        alphanumeric(c)
    }
}

/// The characters that may pair up into a two-character operator.
pub open spec fn is_cmp(c: char) -> bool {
    c == '=' || c == '!' || c == '<' || c == '>'
}

pub open spec fn digit_value(c: char) -> int {
    c as int - '0' as int
}

/// The input is exhausted: nothing is left, or the next character is `'\0'`.
pub open spec fn at_end(r: Seq<char>) -> bool {
    r.len() == 0 || r[0] == '\0'
}

/// Number of characters before the end of the input.
pub open spec fn input_len(r: Seq<char>) -> nat
    decreases r.len(),
{
    if at_end(r) {
        0
    } else {
        1 + input_len(r.drop_first())
    }
}

/// Length of the run of blanks (space, tab, newline) at the start of `r`.
pub open spec fn blank_len(r: Seq<char>) -> nat
    decreases r.len(),
{
    if r.len() > 0 && is_blank(r[0]) {
        1 + blank_len(r.drop_first())
    } else {
        0
    }
}

/// Length of the run of decimal digits at the start of `r`.
pub open spec fn digit_len(r: Seq<char>) -> nat
    decreases r.len(),
{
    if r.len() > 0 && is_digit(r[0]) {
        1 + digit_len(r.drop_first())
    } else {
        0
    }
}

/// Length of the run of letters and digits at the start of `r`.
pub open spec fn alnum_len(r: Seq<char>) -> nat
    decreases r.len(),
{
    if r.len() > 0 && is_alnum(r[0]) {
        1 + alnum_len(r.drop_first())
    } else {
        0
    }
}

/// Length of the body of a line comment: all before the next newline or the end.
pub open spec fn line_len(r: Seq<char>) -> nat
    decreases r.len(),
{
    if !at_end(r) && r[0] != '\n' {
        1 + line_len(r.drop_first())
    } else {
        0
    }
}

/// Length of the body of a block comment, up to and including the first `*/`;
/// none where the input ends first.
pub open spec fn block_len(r: Seq<char>) -> Option<nat>
    decreases r.len(),
{
    if at_end(r) {
        None
    } else if r.len() >= 2 && r[0] == '*' && r[1] == '/' {
        Some(2)
    } else {
        match block_len(r.drop_first()) {
            Some(k) => Some(k + 1),
            None => None,
        }
    }
}

pub open spec fn starts_line_comment(r: Seq<char>) -> bool {
    r.len() >= 2 && r[0] == '/' && r[1] == '/'
}

pub open spec fn starts_block_comment(r: Seq<char>) -> bool {
    r.len() >= 2 && r[0] == '/' && r[1] == '*'
}

/// Length of the blanks and comments at the start of `r`; none where a block
/// comment is left open.
pub open spec fn trivia_len(r: Seq<char>) -> Option<nat>
    decreases r.len(),
{
    let b = blank_len(r);
    proof {
        lemma_blank_len_bound(r);
    }
    let t = r.skip(b as int);
    if starts_line_comment(t) {
        let k = b + 2 + line_len(t.skip(2));
        proof {
            lemma_line_len_bound(t.skip(2));
        }
        match trivia_len(r.skip(k as int)) {
            Some(m) => Some(k + m),
            None => None,
        }
    } else if starts_block_comment(t) {
        match block_len(t.skip(2)) {
            Some(c) => {
                let k = b + 2 + c;
                proof {
                    lemma_block_len_bound(t.skip(2));
                }
                match trivia_len(r.skip(k as int)) {
                    Some(m) => Some(k + m),
                    None => None,
                }
            },
            None => None,
        }
    } else {
        Some(b)
    }
}

/// Numeric value of a string of decimal digits.
pub open spec fn digits_value(d: Seq<char>) -> nat
    decreases d.len(),
{
    if d.len() == 0 {
        0
    } else {
        (digits_value(d.drop_last()) * 10 + digit_value(d.last())) as nat
    }
}

/// The tag of a word: that of its keyword, or that of an identifier.
pub open spec fn word_tag(w: Seq<char>) -> i64 {
    if w == seq!['t', 'r', 'u', 'e'] {
        tag::TRUE
    } else if w == seq!['f', 'a', 'l', 's', 'e'] {
        tag::FALSE
    } else {
        tag::ID
    }
}

/// The token that starts `t`, with no blank or comment before it, and how
/// many characters it takes.
pub open spec fn token_at(t: Seq<char>) -> (Result<TokenView, LexError>, nat) {
    if at_end(t) {
        (Ok(TokenView::End), 0)
    } else if is_digit(t[0]) {
        let n = digit_len(t);
        let v = digits_value(t.take(n as int));
        if v <= i64::MAX {
            (Ok(TokenView::Num(tag::NUM, v as i64)), n)
        } else {
            (Err(LexError::NumberOverflow), n)
        }
    } else if is_alpha(t[0]) {
        let n = alnum_len(t);
        let w = t.take(n as int);
        (Ok(TokenView::Word(word_tag(w), w)), n)
    } else if t.len() >= 2 && is_cmp(t[0]) && is_cmp(t[1]) {
        (Ok(TokenView::Op(tag::OP, t.take(2))), 2)
    } else {
        (Ok(TokenView::Op(tag::OP, t.take(1))), 1)
    }
}

/// What one read of the lexer gives on the remaining input `r`, and how many
/// characters it consumes. An open block comment consumes all that is left.
pub open spec fn lex(r: Seq<char>) -> (Result<TokenView, LexError>, nat) {
    match trivia_len(r) {
        Some(k) => {
            let (res, n) = token_at(r.skip(k as int));
            (res, k + n)
        },
        None => (Err(LexError::UnterminatedComment), input_len(r)),
    }
}

/// Number of newlines in `s`.
pub open spec fn newlines(s: Seq<char>) -> nat
    decreases s.len(),
{
    if s.len() == 0 {
        0
    } else {
        newlines(s.drop_last()) + if s.last() == '\n' {
            1nat
        } else {
            0nat
        }
    }
}

pub fn is_blank_char(c: char) -> (r: bool)
    ensures
        r == is_blank(c),
{
    c == ' ' || c == '\t' || c == '\n'
}

pub fn is_digit_char(c: char) -> (r: bool)
    ensures
        r == is_digit(c),
{
    '0' <= c && c <= '9'
}

/// Relies on `char::is_alphabetic`: the Unicode Alphabetic property, which
/// among ASCII characters holds of the letters alone.
#[verifier::external_body]
fn char_is_alphabetic(c: char) -> (r: bool)
    ensures
        r == alphabetic(c),
        is_ascii(c) ==> (r <==> is_ascii_letter(c)),
{
    c.is_alphabetic()
}

/// Relies on `char::is_alphanumeric`: alphabetic or numeric in Unicode's
/// sense, which among ASCII characters holds of the letters and digits alone.
#[verifier::external_body]
fn char_is_alphanumeric(c: char) -> (r: bool)
    ensures
        r == alphanumeric(c),
        is_ascii(c) ==> (r <==> (is_ascii_letter(c) || is_digit(c))),
{
    c.is_alphanumeric()
}

pub fn is_alpha_char(c: char) -> (r: bool)
    ensures
        r == is_alpha(c),
{
    char_is_alphabetic(c)
}

pub fn is_alnum_char(c: char) -> (r: bool)
    ensures
        r == is_alnum(c),
{
    char_is_alphanumeric(c)
}

pub fn is_cmp_char(c: char) -> (r: bool)
    ensures
        r == is_cmp(c),
{
    c == '=' || c == '!' || c == '<' || c == '>'
}

pub proof fn lemma_blank_len_bound(r: Seq<char>)
    ensures
        blank_len(r) <= r.len(),
    decreases r.len(),
{
    if r.len() > 0 && is_blank(r[0]) {
        lemma_blank_len_bound(r.drop_first());
    }
}

pub proof fn lemma_digit_len_bound(r: Seq<char>)
    ensures
        digit_len(r) <= r.len(),
    decreases r.len(),
{
    if r.len() > 0 && is_digit(r[0]) {
        lemma_digit_len_bound(r.drop_first());
    }
}

pub proof fn lemma_alnum_len_bound(r: Seq<char>)
    ensures
        alnum_len(r) <= r.len(),
    decreases r.len(),
{
    if r.len() > 0 && is_alnum(r[0]) {
        lemma_alnum_len_bound(r.drop_first());
    }
}

pub proof fn lemma_line_len_bound(r: Seq<char>)
    ensures
        line_len(r) <= r.len(),
    decreases r.len(),
{
    if !at_end(r) && r[0] != '\n' {
        lemma_line_len_bound(r.drop_first());
    }
}

pub proof fn lemma_block_len_bound(r: Seq<char>)
    ensures
        block_len(r) matches Some(k) ==> 2 <= k <= r.len(),
    decreases r.len(),
{
    if !at_end(r) && !(r.len() >= 2 && r[0] == '*' && r[1] == '/') {
        lemma_block_len_bound(r.drop_first());
    }
}

/// One round of blanks and then a comment, as `trivia_len` takes it.
pub proof fn lemma_trivia_step(h: Seq<char>)
    ensures
        blank_len(h) <= h.len(),
        ({
            let b = blank_len(h);
            let t = h.skip(b as int);
            if starts_line_comment(t) {
                let k = b + 2 + line_len(t.skip(2));
                &&& k <= h.len()
                &&& t.skip(2) =~= h.skip(b + 2int)
                &&& trivia_len(h) == match trivia_len(h.skip(k as int)) {
                    Some(m) => Some(k + m),
                    None => None,
                }
            } else if starts_block_comment(t) {
                &&& t.skip(2) =~= h.skip(b + 2int)
                &&& match block_len(t.skip(2)) {
                    Some(c) => {
                        let k = b + 2 + c;
                        &&& k <= h.len()
                        &&& trivia_len(h) == match trivia_len(h.skip(k as int)) {
                            Some(m) => Some(k + m),
                            None => None,
                        }
                    },
                    None => trivia_len(h) is None,
                }
            } else {
                trivia_len(h) == Some(b)
            }
        }),
{
    lemma_blank_len_bound(h);
    let b = blank_len(h);
    let t = h.skip(b as int);
    if t.len() >= 2 {
        assert(t.skip(2) =~= h.skip(b + 2int));
        lemma_line_len_bound(t.skip(2));
        lemma_block_len_bound(t.skip(2));
    }
}

/// Newlines of two texts put together add up.
pub proof fn lemma_newlines_concat(a: Seq<char>, b: Seq<char>)
    ensures
        newlines(a + b) == newlines(a) + newlines(b),
    decreases b.len(),
{
    if b.len() == 0 {
        assert(a + b =~= a);
    } else {
        assert((a + b).drop_last() =~= a + b.drop_last());
        lemma_newlines_concat(a, b.drop_last());
    }
}

/// Blanks and comments never reach past the end of the input.
pub proof fn lemma_trivia_len_bound(r: Seq<char>)
    ensures
        trivia_len(r) matches Some(m) ==> m <= r.len(),
    decreases r.len(),
{
    lemma_trivia_step(r);
    let b = blank_len(r);
    let t = r.skip(b as int);
    if starts_line_comment(t) {
        let k = b + 2 + line_len(t.skip(2));
        lemma_trivia_len_bound(r.skip(k as int));
    } else if starts_block_comment(t) {
        if let Some(c) = block_len(t.skip(2)) {
            let k = b + 2 + c;
            lemma_trivia_len_bound(r.skip(k as int));
        }
    }
}

} // verus!
