//! Properties of the token grammar that hold for every input.
use vstd::prelude::*;

use crate::error::LexError;
use crate::grammar::{
    alnum_len, at_end, block_len, digit_len, digits_value, input_len, is_alnum, is_alpha, is_cmp,
    is_digit, lemma_newlines_concat, lemma_trivia_len_bound, lex, line_len, newlines, trivia_len,
    word_tag,
};
use crate::tag;
use crate::token::TokenView;

verus! {

/// A sequence that starts with none of the characters that open a blank or
/// a comment has no blanks or comments before its first token.
proof fn lemma_no_trivia(s: Seq<char>)
    requires
        s.len() > 0,
        s[0] != ' ' && s[0] != '\t' && s[0] != '\n' && s[0] != '/',
    ensures
        trivia_len(s) == Some(0nat),
{
    assert(s.skip(0) =~= s);
}

proof fn lemma_all_digits(s: Seq<char>)
    requires
        forall|i: int| 0 <= i < s.len() ==> is_digit(#[trigger] s[i]),
    ensures
        digit_len(s) == s.len(),
    decreases s.len(),
{
    if s.len() > 0 {
        lemma_all_digits(s.drop_first());
    }
}

proof fn lemma_all_alnum(s: Seq<char>)
    requires
        forall|i: int| 0 <= i < s.len() ==> is_alnum(#[trigger] s[i]),
    ensures
        alnum_len(s) == s.len(),
    decreases s.len(),
{
    if s.len() > 0 {
        lemma_all_alnum(s.drop_first());
    }
}

/// A string of decimal digits whose value fits in an `i64` reads as one
/// integer token of that value, and nothing of it is left.
pub proof fn lemma_digits_read_as_number(s: Seq<char>)
    requires
        s.len() > 0,
        forall|i: int| 0 <= i < s.len() ==> is_digit(#[trigger] s[i]),
        digits_value(s) <= i64::MAX,
    ensures
        lex(s) == (Ok::<TokenView, LexError>(TokenView::Num(tag::NUM, digits_value(s) as i64)), s.len()),
{
    assert(is_digit(s[0]));
    lemma_no_trivia(s);
    assert(s.skip(0) =~= s);
    lemma_all_digits(s);
    assert(s.take(s.len() as int) =~= s);
}

/// A word reads as one token that carries the word itself. `true` and `false`
/// carry their own tags, both unlike the tag of an identifier; every other
/// word is an identifier.
pub proof fn lemma_word_read(s: Seq<char>)
    requires
        s.len() > 0,
        is_alpha(s[0]),
        forall|i: int| 0 <= i < s.len() ==> is_alnum(#[trigger] s[i]),
    ensures
        lex(s) == (Ok::<TokenView, LexError>(TokenView::Word(word_tag(s), s)), s.len()),
        s == seq!['t', 'r', 'u', 'e'] ==> word_tag(s) == tag::TRUE,
        s == seq!['f', 'a', 'l', 's', 'e'] ==> word_tag(s) == tag::FALSE,
        s != seq!['t', 'r', 'u', 'e'] && s != seq!['f', 'a', 'l', 's', 'e'] ==> word_tag(s)
            == tag::ID,
        tag::TRUE != tag::ID && tag::FALSE != tag::ID,
{
    lemma_no_trivia(s);
    assert(s.skip(0) =~= s);
    lemma_all_alnum(s);
    assert(s.take(s.len() as int) =~= s);
    assert(seq!['f', 'a', 'l', 's', 'e'] != seq!['t', 'r', 'u', 'e']) by {
        assert(seq!['f', 'a', 'l', 's', 'e'].len() != seq!['t', 'r', 'u', 'e'].len());
    }
}

/// Two characters of `= ! < >` in a row read as one operator of both; one of
/// them followed by anything else reads as an operator of itself alone.
pub proof fn lemma_operator_read(s: Seq<char>)
    requires
        s.len() > 0,
        is_cmp(s[0]),
    ensures
        s.len() >= 2 && is_cmp(s[1]) ==> lex(s) == (
            Ok::<TokenView, LexError>(TokenView::Op(tag::OP, s.take(2))),
            2nat,
        ),
        !(s.len() >= 2 && is_cmp(s[1])) ==> lex(s) == (
            Ok::<TokenView, LexError>(TokenView::Op(tag::OP, s.take(1))),
            1nat,
        ),
{
    lemma_no_trivia(s);
    assert(s.skip(0) =~= s);
}

proof fn lemma_input_len_prefix(c: Seq<char>, t: Seq<char>)
    requires
        forall|i: int| 0 <= i < c.len() ==> #[trigger] c[i] != '\0',
    ensures
        input_len(c + t) == c.len() + input_len(t),
    decreases c.len(),
{
    if c.len() > 0 {
        assert((c + t).drop_first() =~= c.drop_first() + t);
        lemma_input_len_prefix(c.drop_first(), t);
    } else {
        assert(c + t =~= t);
    }
}

proof fn lemma_line_len_prefix(body: Seq<char>, t: Seq<char>)
    requires
        forall|i: int| 0 <= i < body.len() ==> #[trigger] body[i] != '\0' && body[i] != '\n',
        at_end(t) || t[0] == '\n',
    ensures
        line_len(body + t) == body.len(),
    decreases body.len(),
{
    if body.len() > 0 {
        assert((body + t).drop_first() =~= body.drop_first() + t);
        lemma_line_len_prefix(body.drop_first(), t);
    } else {
        assert(body + t =~= t);
    }
}

proof fn lemma_block_len_prefix(body: Seq<char>, t: Seq<char>)
    requires
        forall|i: int| 0 <= i < body.len() ==> #[trigger] body[i] != '\0',
        forall|i: int| 0 <= i < body.len() - 1 ==> !(#[trigger] body[i] == '*' && body[i + 1] == '/'),
    ensures
        block_len(body + seq!['*', '/'] + t) == Some(body.len() + 2),
    decreases body.len(),
{
    let x = body + seq!['*', '/'] + t;
    if body.len() > 0 {
        assert(x.drop_first() =~= body.drop_first() + seq!['*', '/'] + t);
        lemma_block_len_prefix(body.drop_first(), t);
        if body.len() == 1 {
            assert(!(x[0] == '*' && x[1] == '/'));
        } else {
            assert(!(body[0] == '*' && body[1] == '/'));
        }
    } else {
        assert(x =~= seq!['*', '/'] + t);
    }
}

/// Reading past a comment `c` that ends where `t` begins gives what reading
/// `t` gives, `c` being consumed too.
proof fn lemma_comment_elided(c: Seq<char>, t: Seq<char>)
    requires
        c.len() >= 2,
        c[0] == '/',
        forall|i: int| 0 <= i < c.len() ==> #[trigger] c[i] != '\0',
        trivia_len(c + t) == match trivia_len(t) {
            Some(m) => Some(c.len() + m),
            None => None,
        },
    ensures
        lex(c + t).0 == lex(t).0,
        lex(c + t).1 == c.len() + lex(t).1,
{
    lemma_input_len_prefix(c, t);
    lemma_trivia_len_bound(t);
    match trivia_len(t) {
        Some(m) => {
            assert((c + t).skip((c.len() + m) as int) =~= t.skip(m as int));
        },
        None => {},
    }
}

proof fn lemma_no_newlines(s: Seq<char>)
    requires
        forall|i: int| 0 <= i < s.len() ==> #[trigger] s[i] != '\n',
    ensures
        newlines(s) == 0,
    decreases s.len(),
{
    if s.len() > 0 {
        lemma_no_newlines(s.drop_last());
    }
}

/// A line comment never becomes a token: reading `//`, a text without
/// newline, and then `t`, which starts with a newline or is at its end, gives
/// what reading `t` gives. The comment holds no newline, so the line count
/// moves only by the newlines of what `t` consumes.
pub proof fn lemma_line_comment_elided(body: Seq<char>, t: Seq<char>)
    requires
        forall|i: int| 0 <= i < body.len() ==> #[trigger] body[i] != '\0' && body[i] != '\n',
        at_end(t) || t[0] == '\n',
    ensures
        ({
            let c = seq!['/', '/'] + body;
            &&& lex(c + t).0 == lex(t).0
            &&& lex(c + t).1 == c.len() + lex(t).1
            &&& newlines(c) == 0
        }),
{
    lemma_no_newlines(seq!['/', '/']);
    lemma_no_newlines(body);
    lemma_newlines_concat(seq!['/', '/'], body);
    let c = seq!['/', '/'] + body;
    let x = c + t;
    assert(forall|i: int| 0 <= i < c.len() ==> #[trigger] c[i] != '\0') by {
        assert forall|i: int| 0 <= i < c.len() implies #[trigger] c[i] != '\0' by {
            if i >= 2 {
                assert(c[i] == body[i - 2]);
            }
        }
    }
    assert(x.skip(0) =~= x);
    assert(x.skip(2) =~= body + t);
    lemma_line_len_prefix(body, t);
    assert(x.skip(c.len() as int) =~= t);
    lemma_comment_elided(c, t);
}

/// A block comment never becomes a token: reading `/*`, a text that holds no
/// `*/`, then `*/` and `t`, gives what reading `t` gives.
pub proof fn lemma_block_comment_elided(body: Seq<char>, t: Seq<char>)
    requires
        forall|i: int| 0 <= i < body.len() ==> #[trigger] body[i] != '\0',
        forall|i: int| 0 <= i < body.len() - 1 ==> !(#[trigger] body[i] == '*' && body[i + 1] == '/'),
    ensures
        ({
            let c = seq!['/', '*'] + body + seq!['*', '/'];
            &&& lex(c + t).0 == lex(t).0
            &&& lex(c + t).1 == c.len() + lex(t).1
            &&& newlines(c) == newlines(body)
        }),
{
    lemma_no_newlines(seq!['/', '*']);
    lemma_no_newlines(seq!['*', '/']);
    lemma_newlines_concat(seq!['/', '*'], body);
    lemma_newlines_concat(seq!['/', '*'] + body, seq!['*', '/']);
    let c = seq!['/', '*'] + body + seq!['*', '/'];
    let x = c + t;
    assert(forall|i: int| 0 <= i < c.len() ==> #[trigger] c[i] != '\0') by {
        assert forall|i: int| 0 <= i < c.len() implies #[trigger] c[i] != '\0' by {
            if 2 <= i < c.len() - 2 {
                assert(c[i] == body[i - 2]);
            }
        }
    }
    assert(x.skip(0) =~= x);
    assert(x.skip(2) =~= body + seq!['*', '/'] + t);
    lemma_block_len_prefix(body, t);
    assert(x.skip(c.len() as int) =~= t);
    lemma_comment_elided(c, t);
}

proof fn lemma_input_len_reaches_end(r: Seq<char>)
    ensures
        input_len(r) <= r.len(),
        at_end(r.skip(input_len(r) as int)),
    decreases r.len(),
{
    if !at_end(r) {
        lemma_input_len_reaches_end(r.drop_first());
        assert(r.drop_first().skip(input_len(r.drop_first()) as int) =~= r.skip(
            input_len(r) as int,
        ));
    } else {
        assert(r.skip(0) =~= r);
    }
}

proof fn lemma_at_end_reads_end(r: Seq<char>)
    requires
        at_end(r),
    ensures
        lex(r) == (Ok::<TokenView, LexError>(TokenView::End), 0nat),
{
    assert(r.skip(0) =~= r);
}

/// Once the input is exhausted, the next read gives the end marker again and
/// consumes nothing; so does a read after a block comment left open.
pub proof fn lemma_end_is_stable(r: Seq<char>)
    requires
        lex(r).0 == Ok::<TokenView, LexError>(TokenView::End) || lex(r).0 == Err::<
            TokenView,
            LexError,
        >(LexError::UnterminatedComment),
    ensures
        lex(r.skip(lex(r).1 as int)) == (Ok::<TokenView, LexError>(TokenView::End), 0nat),
{
    match trivia_len(r) {
        Some(k) => {
            let t = r.skip(k as int);
            assert(at_end(t)) by {
                if !at_end(t) {
                    if is_digit(t[0]) {
                        if digits_value(t.take(digit_len(t) as int)) <= i64::MAX {
                        }
                    }
                }
            }
            assert(r.skip(k as int) =~= r.skip(lex(r).1 as int));
            lemma_at_end_reads_end(t);
        },
        None => {
            lemma_input_len_reaches_end(r);
            lemma_at_end_reads_end(r.skip(input_len(r) as int));
        },
    }
}

} // verus!
