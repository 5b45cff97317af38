//! The scanner: a cursor over the input characters and the token rules.
use vstd::prelude::*;

use crate::error::LexError;
use crate::grammar::{
    alnum_len, at_end, blank_len, block_len, digit_len, digit_value, digits_value, input_len,
    is_alnum_char, is_alpha, is_alpha_char, is_blank_char, is_cmp_char, is_digit, is_digit_char,
    lemma_alnum_len_bound, lemma_blank_len_bound, lemma_digit_len_bound, lemma_line_len_bound,
    lemma_newlines_concat, lemma_trivia_step, lex, line_len, newlines, starts_block_comment,
    starts_line_comment, token_at, trivia_len, word_tag,
};
use crate::tag;
use crate::token::{result_view, Token, TokenView};

verus! {

/// Relies on `String::push`: the character is appended at the end.
#[verifier::external_body]
fn push_char(s: &mut String, c: char)
    ensures
        final(s)@ == old(s)@.push(c),
{
    s.push(c)
}

/// The characters of `source`, in order.
fn chars_of(source: &str) -> (r: Vec<char>)
    ensures
        r@ == source@,
{
    broadcast use vstd::string::group_string_axioms;

    let mut v: Vec<char> = Vec::new();
    for c in it: source.chars()
        invariant
            v@ == it.seq().take(it.index() as int),
    {
        v.push(c);
    }
    v
}

/// A lexer over one input. Each call of `read` hands out the next token.
///
/// A character that starts no number, word or comment is an operator of its
/// own. An integer literal too large for an `i64` is an error, and so is a
/// block comment that the input ends in. A `'\0'` ends the input.
pub struct Lexer {
    buf_index: usize,
    content: Vec<char>,
    /// The keyword table: the pre-built token of each reserved word. With
    /// two entries a `Vec` looked up in order does what a map would, and its
    /// contents are stated exactly in `wf`; a map keyed by `String` would
    /// leave lookups unproved.
    words: Vec<Token>,
    line: u64,
}

impl Lexer {
    /// The whole input.
    pub closed spec fn input(&self) -> Seq<char> {
        self.content@
    }

    /// How many characters have been consumed.
    pub closed spec fn pos(&self) -> nat {
        self.buf_index as nat
    }

    /// The input that is still to be read.
    pub open spec fn remaining(&self) -> Seq<char> {
        self.input().skip(self.pos() as int)
    }

    /// Line number of the cursor: the newlines consumed so far.
    pub open spec fn line_spec(&self) -> nat {
        newlines(self.input().take(self.pos() as int))
    }

    /// The cursor lies within the input, the line counter agrees with it, and
    /// the keyword table holds `true` and `false` with their tags.
    pub closed spec fn wf(&self) -> bool {
        &&& self.buf_index <= self.content.len()
        &&& self.line as nat == newlines(self.content@.take(self.buf_index as int))
        &&& self.words.len() == 2
        &&& self.words[0]@ == TokenView::Word(tag::TRUE, seq!['t', 'r', 'u', 'e'])
        &&& self.words[1]@ == TokenView::Word(tag::FALSE, seq!['f', 'a', 'l', 's', 'e'])
    }

    /// A lexer at the start of `source`.
    pub fn new(source: &str) -> (r: Lexer)
        ensures
            r.wf(),
            r.input() == source@,
            r.pos() == 0,
    {
        broadcast use vstd::string::group_string_axioms;

        let mut words: Vec<Token> = Vec::new();
        let t = String::from_str("true");
        let f = String::from_str("false");
        proof {
            reveal_strlit("true");
            reveal_strlit("false");
            assert(t@ =~= seq!['t', 'r', 'u', 'e']);
            assert(f@ =~= seq!['f', 'a', 'l', 's', 'e']);
        }
        words.push(Token::word(tag::TRUE, t));
        words.push(Token::word(tag::FALSE, f));
        let content = chars_of(source);
        let r = Lexer { buf_index: 0, content, words, line: 0 };
        assert(r.content@.take(0) =~= Seq::<char>::empty());
        r
    }

    /// The line number of the cursor, counted from zero: how many newlines
    /// have been consumed.
    pub fn line(&self) -> (r: u64)
        requires
            self.wf(),
        ensures
            r == self.line_spec(),
    {
        self.line
    }

    /// The character at index `i`, or `'\0'` past the end.
    pub fn char_at(&self, i: usize) -> (c: char)
        ensures
            c == (if i < self.input().len() { self.input()[i as int] } else { '\0' }),
    {
        if i < self.content.len() {
            self.content[i]
        } else {
            '\0'
        }
    }

    /// The next character, not consumed; `'\0'` at the end of the input.
    fn see_next(&self) -> (c: char)
        requires
            self.wf(),
        ensures
            c == (if at_end(self.remaining()) { '\0' } else { self.remaining()[0] }),
    {
        self.char_at(self.buf_index)
    }

    /// Consumes and returns the next character; at the end of the input it
    /// returns `'\0'` and stays where it is.
    fn next(&mut self) -> (c: char)
        requires
            old(self).wf(),
        ensures
            final(self).wf(),
            final(self).input() == old(self).input(),
            at_end(old(self).remaining()) ==> c == '\0' && final(self).pos() == old(self).pos(),
            !at_end(old(self).remaining()) ==> c == old(self).remaining()[0] && final(self).pos()
                == old(self).pos() + 1 && final(self).remaining() == old(self).remaining().drop_first(),
            final(self).pos() + input_len(final(self).remaining()) == old(self).pos() + input_len(
                old(self).remaining(),
            ),
    {
        let c = self.char_at(self.buf_index);
        if c != '\0' {
            proof {
                let s = self.content@;
                let p = self.buf_index as int;
                assert(s.take(p + 1).drop_last() =~= s.take(p));
                lemma_newlines_bound(s.take(p));
                assert(s.skip(p).drop_first() =~= s.skip(p + 1));
            }
            if c == '\n' {
                self.line = self.line + 1;
            }
            self.buf_index = self.buf_index + 1;
        }
        c
    }

    /// Consumes the blanks at the cursor.
    fn skip_blanks(&mut self)
        requires
            old(self).wf(),
        ensures
            final(self).wf(),
            final(self).input() == old(self).input(),
            final(self).pos() == old(self).pos() + blank_len(old(self).remaining()),
            blank_len(final(self).remaining()) == 0,
            final(self).remaining() == old(self).remaining().skip(
                blank_len(old(self).remaining()) as int,
            ),
            final(self).pos() + input_len(final(self).remaining()) == old(self).pos() + input_len(
                old(self).remaining(),
            ),
    {
        let ghost r0 = self.remaining();
        let ghost p0 = self.pos();
        proof {
            lemma_blank_len_bound(r0);
            assert(r0.skip(0) =~= r0);
        }
        loop
            invariant
                self.wf(),
                self.input() == old(self).input(),
                p0 <= self.pos() <= p0 + blank_len(r0),
                blank_len(r0) <= r0.len(),
                self.remaining() == r0.skip(self.pos() - p0),
                blank_len(r0) == self.pos() - p0 + blank_len(self.remaining()),
                self.pos() + input_len(self.remaining()) == p0 + input_len(r0),
            ensures
                blank_len(self.remaining()) == 0,
            decreases self.input().len() - self.pos(),
        {
            let c = self.see_next();
            if is_blank_char(c) {
                let ghost k = self.pos() - p0;
                self.next();
                assert(r0.skip(k).drop_first() =~= r0.skip(k + 1));
            } else {
                break;
            }
        }
    }

    /// At a comment, consumes it and answers `true`; elsewhere consumes nothing
    /// and answers `false`. A line comment stops before its newline. A block
    /// comment that the input ends in consumes all that is left and fails.
    fn skip_comments(&mut self) -> (r: Result<bool, LexError>)
        requires
            old(self).wf(),
        ensures
            final(self).wf(),
            final(self).input() == old(self).input(),
            final(self).pos() + input_len(final(self).remaining()) == old(self).pos() + input_len(
                old(self).remaining(),
            ),
            ({
                let t = old(self).remaining();
                if starts_line_comment(t) {
                    &&& r == Ok::<bool, LexError>(true)
                    &&& final(self).pos() == old(self).pos() + 2 + line_len(t.skip(2))
                } else if starts_block_comment(t) {
                    match block_len(t.skip(2)) {
                        Some(c) => {
                            &&& r == Ok::<bool, LexError>(true)
                            &&& final(self).pos() == old(self).pos() + 2 + c
                        },
                        None => {
                            &&& r == Err::<bool, LexError>(LexError::UnterminatedComment)
                            &&& input_len(final(self).remaining()) == 0
                        },
                    }
                } else {
                    &&& r == Ok::<bool, LexError>(false)
                    &&& final(self).pos() == old(self).pos()
                }
            }),
    {
        let ghost t = self.remaining();
        let ghost p0 = self.pos();
        if self.see_next() != '/' {
            return Ok(false);
        }
        let second = self.char_at(self.buf_index + 1);
        if second == '/' {
            self.next();
            self.next();
            assert(t.drop_first().drop_first() =~= t.skip(2));
            proof {
                lemma_line_len_bound(t.skip(2));
            }
            loop
                invariant
                    self.wf(),
                    self.input() == old(self).input(),
                    p0 == old(self).pos(),
                    t == old(self).remaining(),
                    p0 + 2 <= self.pos() <= p0 + t.len(),
                    self.remaining() == t.skip(self.pos() - p0),
                    line_len(t.skip(2)) == self.pos() - p0 - 2 + line_len(self.remaining()),
                    self.pos() + input_len(self.remaining()) == p0 + input_len(t),
                ensures
                    line_len(self.remaining()) == 0,
                decreases self.input().len() - self.pos(),
            {
                let c = self.see_next();
                if c == '\n' || c == '\0' {
                    break;
                }
                let ghost k = self.pos() - p0;
                self.next();
                assert(t.skip(k).drop_first() =~= t.skip(k + 1));
            }
            Ok(true)
        } else if second == '*' {
            self.next();
            self.next();
            assert(t.drop_first().drop_first() =~= t.skip(2));
            loop
                invariant
                    self.wf(),
                    self.input() == old(self).input(),
                    p0 == old(self).pos(),
                    t == old(self).remaining(),
                    starts_block_comment(t),
                    p0 + 2 <= self.pos() <= p0 + t.len(),
                    self.remaining() == t.skip(self.pos() - p0),
                    block_len(self.remaining()) matches Some(c) ==> block_len(t.skip(2)) == Some(
                        (self.pos() - p0 - 2 + c) as nat,
                    ),
                    block_len(self.remaining()) is None ==> block_len(t.skip(2)) is None,
                    self.pos() + input_len(self.remaining()) == p0 + input_len(t),
                decreases self.input().len() - self.pos(),
            {
                let ghost k = self.pos() - p0;
                let c = self.next();
                if c == '\0' {
                    return Err(LexError::UnterminatedComment);
                }
                assert(t.skip(k).drop_first() =~= t.skip(k + 1));
                if c == '*' && self.see_next() == '/' {
                    self.next();
                    assert(t.skip(k + 1).drop_first() =~= t.skip(k + 2));
                    return Ok(true);
                }
            }
        } else {
            Ok(false)
        }
    }
    /// At a digit, consumes the run of digits and returns its value, or
    /// `NumberOverflow` where it does not fit in an `i64`. Elsewhere consumes
    /// nothing and returns nothing.
    fn parse_num(&mut self) -> (r: Option<Result<Token, LexError>>)
        requires
            old(self).wf(),
        ensures
            final(self).wf(),
            final(self).input() == old(self).input(),
            ({
                let t = old(self).remaining();
                if !at_end(t) && is_digit(t[0]) {
                    &&& r matches Some(res) && result_view(res) == token_at(t).0
                    &&& final(self).pos() == old(self).pos() + token_at(t).1
                } else {
                    &&& r is None
                    &&& final(self).pos() == old(self).pos()
                }
            }),
    {
        let ghost t = self.remaining();
        let ghost p0 = self.pos();
        if !is_digit_char(self.see_next()) {
            return None;
        }
        let mut val: i64 = 0;
        let mut overflow = false;
        proof {
            lemma_digit_len_bound(t);
            assert(t.skip(0) =~= t);
            assert(t.take(0) =~= Seq::<char>::empty());
        }
        loop
            invariant
                self.wf(),
                self.input() == old(self).input(),
                p0 == old(self).pos(),
                t == old(self).remaining(),
                digit_len(t) <= t.len(),
                p0 <= self.pos() <= p0 + digit_len(t),
                self.remaining() == t.skip(self.pos() - p0),
                digit_len(t) == self.pos() - p0 + digit_len(self.remaining()),
                !overflow ==> val as int == digits_value(t.take(self.pos() - p0)),
                overflow ==> digits_value(t.take(self.pos() - p0)) > i64::MAX,
                0 <= val,
            ensures
                digit_len(self.remaining()) == 0,
            decreases self.input().len() - self.pos(),
        {
            let c = self.see_next();
            if !is_digit_char(c) {
                break;
            }
            let ghost k = self.pos() - p0;
            let ghost before = digits_value(t.take(k));
            let d = (c as u32 - '0' as u32) as i64;
            assert(t.take(k + 1).drop_last() =~= t.take(k));
            assert(digits_value(t.take(k + 1)) == before * 10 + digit_value(c));
            if !overflow {
                if val > (i64::MAX - d) / 10 {
                    overflow = true;
                    assert(before * 10 + d > i64::MAX) by (nonlinear_arith)
                        requires
                            val > (i64::MAX - d) / 10,
                            before == val,
                            0 <= d <= 9,
                    ;
                } else {
                    assert(val * 10 + d <= i64::MAX) by (nonlinear_arith)
                        requires
                            val <= (i64::MAX - d) / 10,
                            0 <= val,
                            0 <= d <= 9,
                    ;
                    val = val * 10 + d;
                }
            } else {
                assert(before * 10 + d > i64::MAX) by (nonlinear_arith)
                    requires
                        before > i64::MAX,
                        0 <= d <= 9,
                ;
            }
            self.next();
            assert(t.skip(k).drop_first() =~= t.skip(k + 1));
        }
        if overflow {
            Some(Err(LexError::NumberOverflow))
        } else {
            Some(Ok(Token::num(val)))
        }
    }

    /// At a letter, consumes the run of letters and digits and returns the
    /// keyword it spells, or an identifier. Elsewhere consumes nothing and
    /// returns nothing.
    fn parse_word(&mut self) -> (r: Option<Token>)
        requires
            old(self).wf(),
        ensures
            final(self).wf(),
            final(self).input() == old(self).input(),
            ({
                let t = old(self).remaining();
                if !at_end(t) && is_alpha(t[0]) {
                    &&& r matches Some(w) && token_at(t).0 == Ok::<TokenView, LexError>(w@)
                    &&& final(self).pos() == old(self).pos() + token_at(t).1
                } else {
                    &&& r is None
                    &&& final(self).pos() == old(self).pos()
                }
            }),
    {
        let ghost t = self.remaining();
        let ghost p0 = self.pos();
        if !is_alpha_char(self.see_next()) {
            return None;
        }
        let mut s = String::new();
        proof {
            lemma_alnum_len_bound(t);
            assert(t.skip(0) =~= t);
            assert(t.take(0) =~= s@);
        }
        loop
            invariant
                self.wf(),
                self.input() == old(self).input(),
                p0 == old(self).pos(),
                t == old(self).remaining(),
                alnum_len(t) <= t.len(),
                p0 <= self.pos() <= p0 + alnum_len(t),
                self.remaining() == t.skip(self.pos() - p0),
                alnum_len(t) == self.pos() - p0 + alnum_len(self.remaining()),
                s@ == t.take(self.pos() - p0),
            ensures
                alnum_len(self.remaining()) == 0,
            decreases self.input().len() - self.pos(),
        {
            let c = self.see_next();
            if !is_alnum_char(c) {
                break;
            }
            let ghost k = self.pos() - p0;
            push_char(&mut s, c);
            self.next();
            assert(t.take(k + 1) =~= t.take(k).push(c));
            assert(t.skip(k).drop_first() =~= t.skip(k + 1));
        }
        let mut i: usize = 0;
        while i < self.words.len()
            invariant
                self.wf(),
                self.input() == old(self).input(),
                p0 == old(self).pos(),
                t == old(self).remaining(),
                !at_end(t) && is_alpha(t[0]),
                self.pos() == p0 + alnum_len(t),
                s@ == t.take(alnum_len(t) as int),
                i <= self.words.len(),
                forall|j: int| 0 <= j < i ==> !(#[trigger] self.words@[j]@ matches TokenView::Word(_, w) && w == s@),
            decreases self.words.len() - i,
        {
            match &self.words[i] {
                Token::Word(d, w) => {
                    if *w == s {
                        proof {
                            assert(self.words@[i as int]@ == TokenView::Word(d.tag, w@));
                            assert(d.tag == word_tag(s@)) by {
                                if i == 0 {
                                    assert(w@ == seq!['t', 'r', 'u', 'e']);
                                } else {
                                    assert(w@ == seq!['f', 'a', 'l', 's', 'e']);
                                    assert(w@ != seq!['t', 'r', 'u', 'e']) by {
                                        assert(w@.len() != 4);
                                    }
                                }
                            }
                        }
                        return Some(Token::word(d.tag, s));
                    }
                },
                _ => {},
            }
            i = i + 1;
        }
        proof {
            assert(self.words@[0]@ == TokenView::Word(tag::TRUE, seq!['t', 'r', 'u', 'e']));
            assert(self.words@[1]@ == TokenView::Word(tag::FALSE, seq!['f', 'a', 'l', 's', 'e']));
        }
        Some(Token::id(s))
    }

    /// Consumes an operator: a pair of the characters `= ! < >`, or any one
    /// character.
    fn parse_op(&mut self) -> (r: Token)
        requires
            old(self).wf(),
            !at_end(old(self).remaining()),
            !is_digit(old(self).remaining()[0]),
            !is_alpha(old(self).remaining()[0]),
        ensures
            final(self).wf(),
            final(self).input() == old(self).input(),
            token_at(old(self).remaining()).0 == Ok::<TokenView, LexError>(r@),
            final(self).pos() == old(self).pos() + token_at(old(self).remaining()).1,
    {
        let ghost t = self.remaining();
        let c = self.next();
        let mut s = String::new();
        push_char(&mut s, c);
        if is_cmp_char(c) {
            let n = self.see_next();
            if is_cmp_char(n) {
                self.next();
                push_char(&mut s, n);
                assert(s@ =~= t.take(2));
                return Token::op(s);
            }
        }
        assert(s@ =~= t.take(1));
        Token::op(s)
    }

    /// Consumes the blanks and comments at the cursor, or fails on a block
    /// comment that is left open, having consumed all the input.
    fn skip_trivia(&mut self) -> (r: Result<(), LexError>)
        requires
            old(self).wf(),
        ensures
            final(self).wf(),
            final(self).input() == old(self).input(),
            match trivia_len(old(self).remaining()) {
                Some(k) => r is Ok && final(self).pos() == old(self).pos() + k,
                None => r == Err::<(), LexError>(LexError::UnterminatedComment) && final(self).pos()
                    == old(self).pos() + input_len(old(self).remaining()),
            },
    {
        let ghost r0 = self.remaining();
        let ghost p0 = self.pos();
        proof {
            assert(r0.skip(0) =~= r0);
        }
        loop
            invariant
                self.wf(),
                self.input() == old(self).input(),
                p0 == old(self).pos(),
                r0 == old(self).remaining(),
                p0 <= self.pos() <= p0 + r0.len(),
                self.remaining() == r0.skip(self.pos() - p0),
                trivia_len(self.remaining()) matches Some(m) ==> trivia_len(r0) == Some(
                    (self.pos() - p0 + m) as nat,
                ),
                trivia_len(self.remaining()) is None ==> trivia_len(r0) is None,
                self.pos() + input_len(self.remaining()) == p0 + input_len(r0),
            ensures
                trivia_len(self.remaining()) == Some(0nat),
            decreases self.input().len() - self.pos(),
        {
            let ghost h = self.remaining();
            let ghost ph = self.pos();
            proof {
                lemma_trivia_step(h);
            }
            self.skip_blanks();
            match self.skip_comments() {
                Ok(true) => {
                    proof {
                        let k = self.pos() - ph;
                        assert(h.skip(k) =~= self.remaining());
                        assert(r0.skip(self.pos() - p0) =~= self.remaining());
                    }
                },
                Ok(false) => {
                    proof {
                        let t = self.remaining();
                        assert(t.skip(0) =~= t);
                        lemma_trivia_step(t);
                        assert(trivia_len(t) == Some(0nat));
                        assert(trivia_len(h) == Some(blank_len(h)));
                    }
                    break;
                },
                Err(e) => {
                    return Err(e);
                },
            }
        }
        Ok(())
    }

    /// Reads the next token. Blanks and comments before it are skipped and
    /// newlines counted; at the end of the input the token is `End`, again and
    /// again. A block comment left open, or an integer too large for an `i64`,
    /// is an error.
    pub fn read(&mut self) -> (r: Result<Token, LexError>)
        requires
            old(self).wf(),
        ensures
            final(self).wf(),
            final(self).input() == old(self).input(),
            result_view(r) == lex(old(self).remaining()).0,
            final(self).pos() == old(self).pos() + lex(old(self).remaining()).1,
            final(self).line_spec() == old(self).line_spec() + newlines(
                old(self).remaining().take(lex(old(self).remaining()).1 as int),
            ),
    {
        let ghost r0 = self.remaining();
        let ghost s0 = self.input();
        let ghost p0 = self.pos();
        let r = self.read_token();
        proof {
            let n = lex(r0).1 as int;
            assert(s0.take(p0 + n) =~= s0.take(p0 as int) + r0.take(n));
            lemma_newlines_concat(s0.take(p0 as int), r0.take(n));
        }
        r
    }

    /// Skips the blanks and comments, then scans one token.
    fn read_token(&mut self) -> (r: Result<Token, LexError>)
        requires
            old(self).wf(),
        ensures
            final(self).wf(),
            final(self).input() == old(self).input(),
            result_view(r) == lex(old(self).remaining()).0,
            final(self).pos() == old(self).pos() + lex(old(self).remaining()).1,
    {
        let ghost r0 = self.remaining();
        match self.skip_trivia() {
            Ok(()) => {},
            Err(e) => {
                return Err(e);
            },
        }
        assert(self.remaining() =~= r0.skip(trivia_len(r0).unwrap() as int));
        if self.see_next() == '\0' {
            return Ok(Token::End);
        }
        match self.parse_num() {
            Some(res) => {
                return res;
            },
            None => {},
        }
        match self.parse_word() {
            Some(t) => {
                return Ok(t);
            },
            None => {},
        }
        Ok(self.parse_op())
    }
}

/// There are no more newlines than characters.
proof fn lemma_newlines_bound(s: Seq<char>)
    ensures
        newlines(s) <= s.len(),
    decreases s.len(),
{
    if s.len() > 0 {
        lemma_newlines_bound(s.drop_last());
    }
}

} // verus!
