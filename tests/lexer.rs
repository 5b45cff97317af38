use lexer::{tag, LexError, Lexer, Token};

fn first_token(source: &str) -> Result<Token, LexError> {
    let l = &mut Lexer::new(source);
    l.read()
}

fn all_tokens(source: &str) -> Vec<Result<Token, LexError>> {
    let l = &mut Lexer::new(source);
    let mut out = Vec::new();
    loop {
        let t = l.read();
        let done = t == Ok(Token::End) || t.is_err();
        out.push(t);
        if done {
            return out;
        }
    }
}

fn assert_num(num: &str) {
    match first_token(num) {
        Ok(Token::Num(_desc, val)) => assert_eq!(num.parse::<i64>().unwrap(), val),
        _ => panic!("wrong token"),
    }
}

#[test]
fn test_num() {
    assert_num("123");
    assert_num("1234");
    assert_num("12345");
    assert_num("123456");
    assert_num("12345678912");
    assert_num("56789032312");
}

#[test]
fn test_true() {
    assert_eq!(Ok(Token::word(tag::TRUE, "true".to_string())), first_token("true"));
}

#[test]
fn test_false() {
    assert_eq!(Ok(Token::word(tag::FALSE, "false".to_string())), first_token("false"));
}

#[test]
fn test_word() {
    assert_eq!(Ok(Token::word(tag::ID, "example".to_string())), first_token("example"));
}

#[test]
fn test_singleline_comment() {
    let source = r#"// comment
            token"#;
    assert_eq!(Ok(Token::word(tag::ID, "token".to_string())), first_token(source));
}

#[test]
fn test_multilined_comment() {
    let s = r#"/* comment
                    * here
                    * and here
                    */
                    token"#;
    assert_eq!(Ok(Token::word(tag::ID, "token".to_string())), first_token(s));
}

fn assert_op(op: &str) {
    assert_eq!(Ok(Token::op(op.chars().next().unwrap().to_string())), first_token(op));
}

#[test]
fn test_op() {
    assert_op("+");
    assert_op("-");
    assert_op("/");
    assert_op("/ some other stuff");
}

#[test]
fn test_char_at() {
    let source = r#"// comment
            token"#;
    let l = &mut Lexer::new(source);
    assert_eq!('\n', l.char_at(10));
}

fn assert_compare_op(op: &str) {
    assert_eq!(Ok(Token::op(op.to_string())), first_token(op));
}

#[test]
fn test_compare_operators() {
    assert_compare_op("==");
    assert_compare_op("!=");
    assert_compare_op(">=");
    assert_compare_op("=>");
    assert_compare_op("<=");
    assert_compare_op("=<");
    assert_compare_op("<");
    assert_compare_op(">");
}

#[test]
fn largest_number_reads() {
    assert_eq!(Ok(Token::num(i64::MAX)), first_token("9223372036854775807"));
    assert_eq!(Ok(Token::num(7)), first_token("007"));
}

#[test]
fn number_past_i64_fails() {
    assert_eq!(Err(LexError::NumberOverflow), first_token("9223372036854775808"));
    let l = &mut Lexer::new("99999999999999999999 x");
    assert_eq!(Err(LexError::NumberOverflow), l.read());
    assert_eq!(Ok(Token::word(tag::ID, "x".to_string())), l.read());
}

#[test]
fn number_stops_at_first_non_digit() {
    assert_eq!(
        all_tokens("12+3"),
        vec![
            Ok(Token::num(12)),
            Ok(Token::op("+".to_string())),
            Ok(Token::num(3)),
            Ok(Token::End)
        ]
    );
    assert_eq!(
        all_tokens("12abc"),
        vec![
            Ok(Token::num(12)),
            Ok(Token::id("abc".to_string())),
            Ok(Token::End)
        ]
    );
}

#[test]
fn keyword_inside_longer_word_is_identifier() {
    assert_eq!(Ok(Token::id("trueish".to_string())), first_token("trueish"));
    assert_eq!(Ok(Token::id("False".to_string())), first_token("False"));
    assert_eq!(Ok(Token::id("x1y2".to_string())), first_token("x1y2"));
}

#[test]
fn keyword_tags_differ_from_identifier_tag() {
    assert_ne!(tag::TRUE, tag::ID);
    assert_ne!(tag::FALSE, tag::ID);
    match first_token("true") {
        Ok(Token::Word(desc, text)) => {
            assert_eq!(desc.tag, tag::TRUE);
            assert_eq!(text, "true");
        }
        _ => panic!("wrong token"),
    }
}

#[test]
fn two_character_operators_are_not_split() {
    assert_eq!(
        all_tokens("a<=b"),
        vec![
            Ok(Token::id("a".to_string())),
            Ok(Token::op("<=".to_string())),
            Ok(Token::id("b".to_string())),
            Ok(Token::End)
        ]
    );
    assert_eq!(
        all_tokens("! ="),
        vec![
            Ok(Token::op("!".to_string())),
            Ok(Token::op("=".to_string())),
            Ok(Token::End)
        ]
    );
    assert_eq!(
        all_tokens("<<="),
        vec![
            Ok(Token::op("<<".to_string())),
            Ok(Token::op("=".to_string())),
            Ok(Token::End)
        ]
    );
    assert_eq!(
        all_tokens("=+"),
        vec![
            Ok(Token::op("=".to_string())),
            Ok(Token::op("+".to_string())),
            Ok(Token::End)
        ]
    );
}

#[test]
fn end_marker_repeats() {
    let l = &mut Lexer::new("x  \n ");
    assert_eq!(Ok(Token::id("x".to_string())), l.read());
    assert_eq!(Ok(Token::End), l.read());
    let line = l.line();
    assert_eq!(line, 1);
    for _ in 0..5 {
        assert_eq!(Ok(Token::End), l.read());
        assert_eq!(l.line(), line);
    }
    let empty = &mut Lexer::new("");
    assert_eq!(Ok(Token::End), empty.read());
    assert_eq!(Ok(Token::End), empty.read());
}

#[test]
fn comments_produce_no_tokens() {
    assert_eq!(Ok(Token::id("x".to_string())), first_token("/* a * b */x"));
    assert_eq!(Ok(Token::id("x".to_string())), first_token("/**/x"));
    assert_eq!(Ok(Token::id("x".to_string())), first_token("/* a **/x"));
    assert_eq!(Ok(Token::End), first_token("// only a comment"));
    assert_eq!(
        all_tokens("a // one\n/* two */ b /* three */"),
        vec![
            Ok(Token::id("a".to_string())),
            Ok(Token::id("b".to_string())),
            Ok(Token::End)
        ]
    );
}

#[test]
fn lines_are_counted_through_comments() {
    let l = &mut Lexer::new("a\n// c\n/* d\ne */ b\n\nc");
    assert_eq!(l.line(), 0);
    assert_eq!(Ok(Token::id("a".to_string())), l.read());
    assert_eq!(l.line(), 0);
    assert_eq!(Ok(Token::id("b".to_string())), l.read());
    assert_eq!(l.line(), 3);
    assert_eq!(Ok(Token::id("c".to_string())), l.read());
    assert_eq!(l.line(), 5);
}

#[test]
fn unterminated_comment_fails_then_ends() {
    let l = &mut Lexer::new("a /* never closed");
    assert_eq!(Ok(Token::id("a".to_string())), l.read());
    assert_eq!(Err(LexError::UnterminatedComment), l.read());
    assert_eq!(Ok(Token::End), l.read());
    assert_eq!(Err(LexError::UnterminatedComment), first_token("/*/"));
    assert_eq!(Err(LexError::UnterminatedComment), first_token("/* *"));
}

#[test]
fn nul_character_ends_the_input() {
    assert_eq!(
        all_tokens("a\0b"),
        vec![Ok(Token::id("a".to_string())), Ok(Token::End)]
    );
}

#[test]
fn other_characters_are_single_operators() {
    assert_eq!(
        all_tokens("(x);"),
        vec![
            Ok(Token::op("(".to_string())),
            Ok(Token::id("x".to_string())),
            Ok(Token::op(")".to_string())),
            Ok(Token::op(";".to_string())),
            Ok(Token::End)
        ]
    );
}

#[test]
fn letters_outside_ascii_make_words() {
    assert_eq!(Ok(Token::id("é".to_string())), first_token("é"));
    assert_eq!(Ok(Token::id("école".to_string())), first_token("école"));
    assert_eq!(
        all_tokens("café1+京"),
        vec![
            Ok(Token::id("café1".to_string())),
            Ok(Token::op("+".to_string())),
            Ok(Token::id("京".to_string())),
            Ok(Token::End)
        ]
    );
    assert_eq!(Ok(Token::op("💝".to_string())), first_token("💝"));
}

#[test]
fn end_to_end_examples() {
    assert_eq!(
        all_tokens("12345678912"),
        vec![Ok(Token::num(12345678912)), Ok(Token::End)]
    );
    assert_eq!(
        Ok(Token::id("token".to_string())),
        first_token("// comment\n    token")
    );
    assert_eq!(
        all_tokens("<="),
        vec![Ok(Token::op("<=".to_string())), Ok(Token::End)]
    );
    assert_eq!(
        all_tokens("/* a * b */x"),
        vec![Ok(Token::id("x".to_string())), Ok(Token::End)]
    );
    assert_eq!(
        all_tokens("true"),
        vec![Ok(Token::word(tag::TRUE, "true".to_string())), Ok(Token::End)]
    );
}
