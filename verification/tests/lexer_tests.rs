use mydsl::lexer::{Lexer, Token};

fn lex(source: &str) -> Vec<Token> {
    Lexer::new(source).tokenize()
}

fn text(s: &str) -> String {
    s.to_string()
}

#[test]
fn keywords_are_recognised() {
    assert_eq!(
        lex("input output transform print"),
        vec![Token::Input, Token::Output, Token::Transform, Token::Print]
    );
}

#[test]
fn keywords_are_case_sensitive() {
    assert_eq!(lex("Input"), vec![Token::Identifier(text("Input"))]);
}

#[test]
fn punctuation_is_recognised() {
    assert_eq!(
        lex("+=;{}.()"),
        vec![
            Token::Plus,
            Token::Equal,
            Token::Semicolon,
            Token::LBrace,
            Token::RBrace,
            Token::Dot,
            Token::LParen,
            Token::RParen,
        ]
    );
}

#[test]
fn whitespace_is_skipped() {
    assert_eq!(lex("  \t\n print \r\n ; "), vec![Token::Print, Token::Semicolon]);
}

#[test]
fn empty_source_has_no_tokens() {
    assert_eq!(lex(""), Vec::<Token>::new());
    assert_eq!(lex("   \n\t"), Vec::<Token>::new());
}

#[test]
fn next_token_gives_eof_at_the_end_again_and_again() {
    let mut lexer = Lexer::new(" ; ");
    assert_eq!(lexer.next_token(), Token::Semicolon);
    assert_eq!(lexer.next_token(), Token::EOF);
    assert_eq!(lexer.next_token(), Token::EOF);
}

#[test]
fn tokenize_after_next_token_gives_the_rest() {
    let mut lexer = Lexer::new("print line 3;");
    assert_eq!(lexer.next_token(), Token::Print);
    assert_eq!(
        lexer.tokenize(),
        vec![Token::Identifier(text("line")), Token::Number(3), Token::Semicolon]
    );
    assert_eq!(lexer.tokenize(), Vec::<Token>::new());
}

#[test]
fn string_literal_keeps_its_text_verbatim() {
    assert_eq!(lex("\"data.jsonl\""), vec![Token::StringLiteral(text("data.jsonl"))]);
    assert_eq!(lex("\"a b\tc\""), vec![Token::StringLiteral(text("a b\tc"))]);
    assert_eq!(lex("\"\""), vec![Token::StringLiteral(text(""))]);
}

#[test]
fn string_literal_does_not_decode_escapes() {
    // backslash and n stay two characters
    assert_eq!(lex("\"a\\nb\""), vec![Token::StringLiteral(text("a\\nb"))]);
}

#[test]
fn string_literal_ends_at_the_first_quote() {
    // the quote behind the backslash closes the literal
    assert_eq!(
        lex("\"a\\\"b"),
        vec![Token::StringLiteral(text("a\\")), Token::Identifier(text("b"))]
    );
}

#[test]
fn unterminated_string_runs_to_the_end() {
    assert_eq!(lex("\"abc ; print"), vec![Token::StringLiteral(text("abc ; print"))]);
    assert_eq!(lex("\""), vec![Token::StringLiteral(text(""))]);
}

#[test]
fn field_reference_takes_the_name_behind_the_at_sign() {
    assert_eq!(lex("@name"), vec![Token::Field(text("name"))]);
    assert_eq!(lex("@a_b1"), vec![Token::Field(text("a_b1"))]);
    assert_eq!(lex("@_x"), vec![Token::Field(text("_x"))]);
}

#[test]
fn field_reference_stops_at_the_dot() {
    assert_eq!(
        lex("@a.b"),
        vec![Token::Field(text("a")), Token::Dot, Token::Identifier(text("b"))]
    );
}

#[test]
fn field_reference_may_be_empty() {
    assert_eq!(lex("@"), vec![Token::Field(text(""))]);
    assert_eq!(lex("@ x"), vec![Token::Field(text("")), Token::Identifier(text("x"))]);
}

#[test]
fn field_reference_takes_unicode_letters() {
    assert_eq!(lex("@문제"), vec![Token::Field(text("문제"))]);
}

#[test]
fn numbers_are_unsigned_decimals() {
    assert_eq!(lex("0"), vec![Token::Number(0)]);
    assert_eq!(lex("42"), vec![Token::Number(42)]);
    assert_eq!(lex("007"), vec![Token::Number(7)]);
    assert_eq!(lex("18446744073709551615"), vec![Token::Number(usize::MAX)]);
}

#[test]
fn number_too_large_is_an_identifier() {
    assert_eq!(
        lex("18446744073709551616"),
        vec![Token::Identifier(text("18446744073709551616"))]
    );
    assert_eq!(
        lex("99999999999999999999999999"),
        vec![Token::Identifier(text("99999999999999999999999999"))]
    );
}

#[test]
fn digits_followed_by_letters_are_an_identifier() {
    assert_eq!(lex("12ab"), vec![Token::Identifier(text("12ab"))]);
    assert_eq!(lex("1_000"), vec![Token::Identifier(text("1_000"))]);
}

#[test]
fn digits_of_other_scripts_are_no_number() {
    assert_eq!(lex("٣"), vec![Token::Identifier(text("٣"))]);
}

#[test]
fn identifiers_take_letters_digits_and_underscores() {
    assert_eq!(lex("suffix"), vec![Token::Identifier(text("suffix"))]);
    assert_eq!(lex("new_field2"), vec![Token::Identifier(text("new_field2"))]);
    assert_eq!(lex("inputs"), vec![Token::Identifier(text("inputs"))]);
}

#[test]
fn word_may_start_with_an_underscore() {
    assert_eq!(lex("_foo"), vec![Token::Identifier(text("_foo"))]);
    assert_eq!(lex("_"), vec![Token::Identifier(text("_"))]);
    assert_eq!(lex("__a1__"), vec![Token::Identifier(text("__a1__"))]);
    assert_eq!(lex("_1"), vec![Token::Identifier(text("_1"))]);
    assert_eq!(lex("_print"), vec![Token::Identifier(text("_print"))]);
    assert_eq!(
        lex("_x = @a_b;"),
        vec![
            Token::Identifier(text("_x")),
            Token::Equal,
            Token::Field(text("a_b")),
            Token::Semicolon,
        ]
    );
}

#[test]
fn line_comment_runs_to_the_end_of_the_line() {
    assert_eq!(
        lex("// hello world  \nprint;"),
        vec![Token::Comment(text("hello world")), Token::Print, Token::Semicolon]
    );
    assert_eq!(lex("//x"), vec![Token::Comment(text("x"))]);
    assert_eq!(lex("//"), vec![Token::Comment(text(""))]);
}

#[test]
fn block_comment_runs_to_the_closing_mark() {
    assert_eq!(
        lex("/* a\n b */ print"),
        vec![Token::Comment(text("a\n b")), Token::Print]
    );
    assert_eq!(lex("/**/"), vec![Token::Comment(text(""))]);
}

#[test]
fn block_comment_keeps_stars_inside() {
    assert_eq!(lex("/* a **/;"), vec![Token::Comment(text("a *")), Token::Semicolon]);
    assert_eq!(lex("/*/ x */"), vec![Token::Comment(text("/ x"))]);
}

#[test]
fn unterminated_block_comment_runs_to_the_end() {
    assert_eq!(lex("/* never closed ; print"), vec![Token::Comment(text("never closed ; print"))]);
    assert_eq!(lex("/* star *"), vec![Token::Comment(text("star *"))]);
}

#[test]
fn single_slash_is_unknown() {
    assert_eq!(lex("/"), vec![Token::Unknown('/')]);
    assert_eq!(
        lex("a/b"),
        vec![Token::Identifier(text("a")), Token::Unknown('/'), Token::Identifier(text("b"))]
    );
}

#[test]
fn other_characters_are_unknown_and_not_dropped() {
    assert_eq!(
        lex("#$,"),
        vec![Token::Unknown('#'), Token::Unknown('$'), Token::Unknown(',')]
    );
    assert_eq!(lex("-1"), vec![Token::Unknown('-'), Token::Number(1)]);
}

#[test]
fn whole_script_is_tokenized() {
    let tokens = lex(
        "input \"in.jsonl\";\ntransform {\n  out = @a.b.suffix(\"_x\") + serial(); // note\n};",
    );
    assert_eq!(
        tokens,
        vec![
            Token::Input,
            Token::StringLiteral(text("in.jsonl")),
            Token::Semicolon,
            Token::Transform,
            Token::LBrace,
            Token::Identifier(text("out")),
            Token::Equal,
            Token::Field(text("a")),
            Token::Dot,
            Token::Identifier(text("b")),
            Token::Dot,
            Token::Identifier(text("suffix")),
            Token::LParen,
            Token::StringLiteral(text("_x")),
            Token::RParen,
            Token::Plus,
            Token::Identifier(text("serial")),
            Token::LParen,
            Token::RParen,
            Token::Semicolon,
            Token::Comment(text("note")),
            Token::RBrace,
            Token::Semicolon,
        ]
    );
}

#[test]
fn token_clone_and_equality() {
    let token = Token::StringLiteral(text("x"));
    assert_eq!(token.clone(), token);
    assert_ne!(token, Token::Identifier(text("x")));
    assert_ne!(Token::Number(1), Token::Number(2));
    assert_eq!(Token::Unknown('?'), Token::Unknown('?'));
}
