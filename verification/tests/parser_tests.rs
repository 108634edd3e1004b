use mydsl::lexer::{Lexer, Token};
use mydsl::parser::{
    Command, Expression, FieldModifier, FieldWithModifiers, ParseError, Parser,
};

fn parse_source(source: &str) -> Result<Vec<Command>, ParseError> {
    let tokens = Lexer::new(source).tokenize();
    Parser::new(tokens).parse()
}

fn parse_assignment(expression: &str) -> Result<Expression, ParseError> {
    let source = format!("transform {{ x = {}; }}", expression);
    match parse_source(&source) {
        Ok(mut commands) => {
            assert_eq!(commands.len(), 1);
            match commands.remove(0) {
                Command::Transform(mut assignments) => {
                    assert_eq!(assignments.len(), 1);
                    let (name, value) = assignments.remove(0);
                    assert_eq!(name, "x");
                    Ok(value)
                }
                other => panic!("no transform: {:?}", other),
            }
        }
        Err(e) => Err(e),
    }
}

fn s(text: &str) -> String {
    text.to_string()
}

fn path(segments: &[&str]) -> Vec<String> {
    segments.iter().map(|segment| segment.to_string()).collect()
}

#[test]
fn empty_script_has_no_commands() {
    assert_eq!(parse_source(""), Ok(vec![]));
    assert_eq!(Parser::new(vec![]).parse(), Ok(vec![]));
}

#[test]
fn input_and_output_carry_their_paths() {
    assert_eq!(
        parse_source("input \"a.jsonl\"; output \"b.jsonl\";"),
        Ok(vec![Command::Input(s("a.jsonl")), Command::Output(s("b.jsonl"))])
    );
}

#[test]
fn paths_are_not_unescaped() {
    assert_eq!(
        parse_source("input \"dir\\\\n.jsonl\";"),
        Ok(vec![Command::Input(s("dir\\\\n.jsonl"))])
    );
}

#[test]
fn print_without_argument() {
    assert_eq!(parse_source("print;"), Ok(vec![Command::Print]));
}

#[test]
fn print_line_takes_a_number() {
    assert_eq!(parse_source("print line 3;"), Ok(vec![Command::PrintLine(3)]));
    assert_eq!(parse_source("print line 0;"), Ok(vec![Command::PrintLine(0)]));
}

#[test]
fn commands_keep_their_order() {
    assert_eq!(
        parse_source("print; input \"x\"; print line 1; print;"),
        Ok(vec![
            Command::Print,
            Command::Input(s("x")),
            Command::PrintLine(1),
            Command::Print,
        ])
    );
}

#[test]
fn comments_between_commands_are_skipped() {
    assert_eq!(
        parse_source("// first\nprint; /* second */ print; // last"),
        Ok(vec![Command::Print, Command::Print])
    );
}

#[test]
fn empty_transform_block() {
    assert_eq!(parse_source("transform { }"), Ok(vec![Command::Transform(vec![])]));
}

#[test]
fn transform_may_end_with_a_semicolon() {
    assert_eq!(parse_source("transform { };"), Ok(vec![Command::Transform(vec![])]));
    assert_eq!(
        parse_source("transform { a = \"x\"; }; print;"),
        Ok(vec![
            Command::Transform(vec![(s("a"), Expression::Literal(s("x")))]),
            Command::Print,
        ])
    );
}

#[test]
fn only_one_semicolon_belongs_to_a_transform() {
    assert_eq!(
        parse_source("transform { };;"),
        Err(ParseError::UnexpectedInCommandPosition(Token::Semicolon))
    );
}

#[test]
fn transform_keeps_the_order_of_its_assignments() {
    assert_eq!(
        parse_source("transform { b = \"1\"; a = \"2\"; b = \"3\"; }"),
        Ok(vec![Command::Transform(vec![
            (s("b"), Expression::Literal(s("1"))),
            (s("a"), Expression::Literal(s("2"))),
            (s("b"), Expression::Literal(s("3"))),
        ])])
    );
}

#[test]
fn comments_inside_a_transform_are_skipped() {
    assert_eq!(
        parse_source("transform { // one\n a = \"x\"; /* two */ b = \"y\"; // three\n }"),
        Ok(vec![Command::Transform(vec![
            (s("a"), Expression::Literal(s("x"))),
            (s("b"), Expression::Literal(s("y"))),
        ])])
    );
}

#[test]
fn transform_cut_short_by_the_end_of_input_is_an_error() {
    let missing_brace = Err(ParseError::ExpectedToken { expected: Token::RBrace, found: None });
    assert_eq!(parse_source("transform { a = \"x\";"), missing_brace);
    assert_eq!(parse_source("transform {"), missing_brace);
    assert_eq!(parse_source("print; transform { a = \"x\"; // end\n"), missing_brace);
    assert_eq!(
        Parser::new(vec![
            Token::Transform,
            Token::LBrace,
            Token::Identifier(s("a")),
            Token::Equal,
            Token::StringLiteral(s("x")),
            Token::Semicolon,
        ])
        .parse(),
        missing_brace
    );
}

#[test]
fn single_term_is_not_wrapped() {
    assert_eq!(parse_assignment("\"lit\""), Ok(Expression::Literal(s("lit"))));
    assert_eq!(parse_assignment("@f"), Ok(Expression::FieldPath(path(&["f"]))));
    assert_eq!(parse_assignment("raw()"), Ok(Expression::RawRecord));
    assert_eq!(parse_assignment("serial()"), Ok(Expression::Serial));
}

#[test]
fn literal_keeps_its_escapes() {
    assert_eq!(parse_assignment("\"a\\nb\""), Ok(Expression::Literal(s("a\\nb"))));
}

#[test]
fn terms_joined_by_plus_make_a_concat() {
    assert_eq!(
        parse_assignment("@q + \"_\" + serial() + raw()"),
        Ok(Expression::Concat(vec![
            Expression::FieldPath(path(&["q"])),
            Expression::Literal(s("_")),
            Expression::Serial,
            Expression::RawRecord,
        ]))
    );
}

#[test]
fn dotted_names_extend_the_path() {
    assert_eq!(parse_assignment("@a.b.c"), Ok(Expression::FieldPath(path(&["a", "b", "c"]))));
}

#[test]
fn name_before_a_parenthesis_is_a_modifier() {
    assert_eq!(
        parse_assignment("@a.suffix(\"_\")"),
        Ok(Expression::FieldWithModifiers(FieldWithModifiers {
            path: path(&["a"]),
            modifiers: vec![FieldModifier::Suffix(s("_"))],
        }))
    );
}

#[test]
fn path_segment_may_be_named_like_a_modifier() {
    assert_eq!(
        parse_assignment("@a.suffix"),
        Ok(Expression::FieldPath(path(&["a", "suffix"])))
    );
    assert_eq!(
        parse_assignment("@a.default.prefix(\"p\")"),
        Ok(Expression::FieldWithModifiers(FieldWithModifiers {
            path: path(&["a", "default"]),
            modifiers: vec![FieldModifier::Prefix(s("p"))],
        }))
    );
}

#[test]
fn path_then_several_modifiers_in_order() {
    assert_eq!(
        parse_assignment("@a.b.suffix(\"_x\").default(\"none\").prefix(\"p\")"),
        Ok(Expression::FieldWithModifiers(FieldWithModifiers {
            path: path(&["a", "b"]),
            modifiers: vec![
                FieldModifier::Suffix(s("_x")),
                FieldModifier::Default(s("none")),
                FieldModifier::Prefix(s("p")),
            ],
        }))
    );
}

#[test]
fn modifier_names_are_case_sensitive() {
    // `Prefix` is no modifier: the call is read and dropped
    assert_eq!(parse_assignment("@a.Prefix(\"p\")"), Ok(Expression::FieldPath(path(&["a"]))));
}

#[test]
fn unknown_modifier_ends_the_list_silently() {
    assert_eq!(
        parse_assignment("@a.suffix(\"s\").upper(\"x\")"),
        Ok(Expression::FieldWithModifiers(FieldWithModifiers {
            path: path(&["a"]),
            modifiers: vec![FieldModifier::Suffix(s("s"))],
        }))
    );
}

#[test]
fn modifiers_behind_an_unknown_one_are_not_read() {
    // the list ends behind `.upper("x")`; the dot that follows fits nowhere
    assert_eq!(
        parse_assignment("@a.upper(\"x\").suffix(\"s\")"),
        Err(ParseError::ExpectedToken { expected: Token::Semicolon, found: Some(Token::Dot) })
    );
}

#[test]
fn modifier_with_a_non_string_argument_ends_the_list_silently() {
    // the list ends behind the parenthesis; the number then fits nowhere
    assert_eq!(
        parse_assignment("@a.suffix(1)"),
        Err(ParseError::ExpectedToken {
            expected: Token::Semicolon,
            found: Some(Token::Number(1)),
        })
    );
    // the modifiers read before stay
    let tokens = Lexer::new("transform { x = @a.prefix(\"p\").suffix( + \"t\"; }").tokenize();
    assert_eq!(
        Parser::new(tokens).parse(),
        Ok(vec![Command::Transform(vec![(
            s("x"),
            Expression::Concat(vec![
                Expression::FieldWithModifiers(FieldWithModifiers {
                    path: path(&["a"]),
                    modifiers: vec![FieldModifier::Prefix(s("p"))],
                }),
                Expression::Literal(s("t")),
            ])
        )])])
    );
}

#[test]
fn modifier_without_closing_parenthesis_ends_the_list_silently() {
    // the call is dropped, the semicolon ends the assignment
    assert_eq!(parse_assignment("@a.suffix(\"s\""), Ok(Expression::FieldPath(path(&["a"]))));
    // the modifiers read before stay
    assert_eq!(
        parse_assignment("@a.prefix(\"p\").suffix(\"s\""),
        Ok(Expression::FieldWithModifiers(FieldWithModifiers {
            path: path(&["a"]),
            modifiers: vec![FieldModifier::Prefix(s("p"))],
        }))
    );
    // parsing goes on at the token that stands where the parenthesis is due
    assert_eq!(
        parse_assignment("@a.suffix(\"s\" + \"t\""),
        Ok(Expression::Concat(vec![
            Expression::FieldPath(path(&["a"])),
            Expression::Literal(s("t")),
        ]))
    );
    assert_eq!(
        parse_assignment("@a.suffix(\"s\" \"t\")"),
        Err(ParseError::ExpectedToken {
            expected: Token::Semicolon,
            found: Some(Token::StringLiteral(s("t"))),
        })
    );
}

#[test]
fn dot_before_a_keyword_or_number_is_no_path_segment() {
    assert_eq!(
        parse_assignment("@a.print"),
        Err(ParseError::ExpectedToken { expected: Token::Semicolon, found: Some(Token::Dot) })
    );
    assert_eq!(
        parse_assignment("@a.1"),
        Err(ParseError::ExpectedToken { expected: Token::Semicolon, found: Some(Token::Dot) })
    );
}

#[test]
fn comment_before_a_term_is_skipped() {
    assert_eq!(parse_assignment("/* c */ \"x\""), Ok(Expression::Literal(s("x"))));
}

#[test]
fn comments_around_a_plus_are_skipped() {
    let joined = Ok(Expression::Concat(vec![
        Expression::Literal(s("x")),
        Expression::Literal(s("y")),
    ]));
    assert_eq!(parse_assignment("\"x\" /* c */ + \"y\""), joined);
    assert_eq!(parse_assignment("\"x\" + /* c */ \"y\""), joined);
    assert_eq!(parse_assignment("\"x\" /* a */ /* b */ + // c\n /* d */ \"y\""), joined);
}

#[test]
fn comment_does_not_join_terms() {
    assert_eq!(
        parse_assignment("\"x\" /* c */ \"y\""),
        Err(ParseError::ExpectedToken {
            expected: Token::Semicolon,
            found: Some(Token::StringLiteral(s("y"))),
        })
    );
}

#[test]
fn comment_behind_the_last_term_is_skipped() {
    assert_eq!(parse_assignment("\"x\" /* c */"), Ok(Expression::Literal(s("x"))));
    assert_eq!(
        parse_assignment("@a.b.suffix(\"s\") // why\n"),
        Ok(Expression::FieldWithModifiers(FieldWithModifiers {
            path: path(&["a", "b"]),
            modifiers: vec![FieldModifier::Suffix(s("s"))],
        }))
    );
}

#[test]
fn plus_without_a_term_is_an_error() {
    assert_eq!(
        parse_assignment("\"x\" +"),
        Err(ParseError::UnexpectedInExpression(Some(Token::Semicolon)))
    );
    assert_eq!(
        parse_assignment("+ \"x\""),
        Err(ParseError::UnexpectedInExpression(Some(Token::Plus)))
    );
}

#[test]
fn bare_name_is_no_term() {
    assert_eq!(
        parse_assignment("foo"),
        Err(ParseError::UnexpectedInExpression(Some(Token::Identifier(s("foo")))))
    );
}

#[test]
fn built_in_needs_both_parentheses() {
    assert_eq!(
        parse_assignment("raw"),
        Err(ParseError::ExpectedToken {
            expected: Token::LParen,
            found: Some(Token::Semicolon),
        })
    );
    assert_eq!(
        parse_assignment("serial("),
        Err(ParseError::ExpectedToken {
            expected: Token::RParen,
            found: Some(Token::Semicolon),
        })
    );
}

#[test]
fn expression_at_the_end_of_input_is_an_error() {
    assert_eq!(
        parse_source("transform { x = "),
        Err(ParseError::UnexpectedInExpression(None))
    );
}

#[test]
fn missing_semicolon_is_an_error() {
    assert_eq!(
        parse_source("input \"x\""),
        Err(ParseError::ExpectedToken { expected: Token::Semicolon, found: None })
    );
    assert_eq!(
        parse_source("input \"x\" print;"),
        Err(ParseError::ExpectedToken {
            expected: Token::Semicolon,
            found: Some(Token::Print),
        })
    );
    assert_eq!(
        parse_source("print line 2"),
        Err(ParseError::ExpectedToken { expected: Token::Semicolon, found: None })
    );
}

#[test]
fn input_needs_a_string() {
    assert_eq!(
        parse_source("input file;"),
        Err(ParseError::ExpectedPathAfterInput(Some(Token::Identifier(s("file")))))
    );
    assert_eq!(parse_source("input"), Err(ParseError::ExpectedPathAfterInput(None)));
}

#[test]
fn output_needs_a_string() {
    assert_eq!(
        parse_source("output 3;"),
        Err(ParseError::ExpectedPathAfterOutput(Some(Token::Number(3))))
    );
    assert_eq!(parse_source("output"), Err(ParseError::ExpectedPathAfterOutput(None)));
}

#[test]
fn print_line_needs_a_number() {
    assert_eq!(
        parse_source("print line x;"),
        Err(ParseError::ExpectedNumberAfterPrintLine(Some(Token::Identifier(s("x")))))
    );
    assert_eq!(
        parse_source("print line"),
        Err(ParseError::ExpectedNumberAfterPrintLine(None))
    );
}

#[test]
fn print_takes_nothing_but_line() {
    assert_eq!(
        parse_source("print lines 3;"),
        Err(ParseError::UnexpectedAfterPrint(Some(Token::Identifier(s("lines")))))
    );
    assert_eq!(
        parse_source("print 3;"),
        Err(ParseError::UnexpectedAfterPrint(Some(Token::Number(3))))
    );
    assert_eq!(parse_source("print"), Err(ParseError::UnexpectedAfterPrint(None)));
}

#[test]
fn transform_needs_a_brace() {
    assert_eq!(
        parse_source("transform x = \"1\";"),
        Err(ParseError::ExpectedToken {
            expected: Token::LBrace,
            found: Some(Token::Identifier(s("x"))),
        })
    );
}

#[test]
fn assignment_needs_an_equal_sign() {
    assert_eq!(
        parse_source("transform { x \"1\"; }"),
        Err(ParseError::ExpectedToken {
            expected: Token::Equal,
            found: Some(Token::StringLiteral(s("1"))),
        })
    );
}

#[test]
fn transform_block_takes_assignments_only() {
    assert_eq!(
        parse_source("transform { print; }"),
        Err(ParseError::UnexpectedInTransform(Token::Print))
    );
    assert_eq!(
        parse_source("transform { \"x\" = y; }"),
        Err(ParseError::UnexpectedInTransform(Token::StringLiteral(s("x"))))
    );
}

#[test]
fn stray_token_in_command_position_is_an_error() {
    assert_eq!(
        parse_source("hello;"),
        Err(ParseError::UnexpectedInCommandPosition(Token::Identifier(s("hello"))))
    );
    assert_eq!(
        parse_source("print; #"),
        Err(ParseError::UnexpectedInCommandPosition(Token::Unknown('#')))
    );
    assert_eq!(
        parse_source("let x = \"1\";"),
        Err(ParseError::UnexpectedInCommandPosition(Token::Identifier(s("let"))))
    );
}

#[test]
fn first_error_ends_the_parse() {
    assert_eq!(
        parse_source("print; input 1; output 2;"),
        Err(ParseError::ExpectedPathAfterInput(Some(Token::Number(1))))
    );
}

#[test]
fn parser_at_the_end_parses_nothing_more() {
    let mut parser = Parser::new(vec![Token::Print, Token::Semicolon]);
    assert_eq!(parser.parse(), Ok(vec![Command::Print]));
    assert_eq!(parser.parse(), Ok(vec![]));
}

#[test]
fn script_of_the_manual() {
    let source = "input \"path.jsonl\";\noutput \"path.jsonl\";\nprint;\nprint line 2;            // N is 1-based\ntransform {\n  new_field = @a.b.suffix(\"_x\").default(\"none\") + \"_\" + serial();\n  copy = raw();\n};";
    assert_eq!(
        parse_source(source),
        Ok(vec![
            Command::Input(s("path.jsonl")),
            Command::Output(s("path.jsonl")),
            Command::Print,
            Command::PrintLine(2),
            Command::Transform(vec![
                (
                    s("new_field"),
                    Expression::Concat(vec![
                        Expression::FieldWithModifiers(FieldWithModifiers {
                            path: path(&["a", "b"]),
                            modifiers: vec![
                                FieldModifier::Suffix(s("_x")),
                                FieldModifier::Default(s("none")),
                            ],
                        }),
                        Expression::Literal(s("_")),
                        Expression::Serial,
                    ])
                ),
                (s("copy"), Expression::RawRecord),
            ]),
        ])
    );
}

#[test]
fn parsed_commands_are_well_formed() {
    let commands = parse_source("transform { a = @x.y + \"z\"; b = @q.default(\"d\"); }").unwrap();
    for command in &commands {
        assert!(command.is_well_formed());
    }
}

#[test]
fn empty_paths_are_ill_formed() {
    assert!(!Expression::FieldPath(vec![]).is_well_formed());
    assert!(!Expression::FieldWithModifiers(FieldWithModifiers { path: vec![], modifiers: vec![] })
        .is_well_formed());
    assert!(!Expression::Concat(vec![Expression::Serial, Expression::FieldPath(vec![])])
        .is_well_formed());
    assert!(Expression::Concat(vec![]).is_well_formed());
    assert!(!Command::Transform(vec![(s("a"), Expression::FieldPath(vec![]))]).is_well_formed());
    assert!(Command::Print.is_well_formed());
}

#[test]
fn syntax_trees_clone_to_equal_trees() {
    let expression = Expression::Concat(vec![
        Expression::FieldWithModifiers(FieldWithModifiers {
            path: path(&["a", "b"]),
            modifiers: vec![FieldModifier::Default(s("d")), FieldModifier::Prefix(s("p"))],
        }),
        Expression::FieldPath(path(&["c"])),
        Expression::Literal(s("l")),
        Expression::RawRecord,
        Expression::Serial,
    ]);
    assert_eq!(expression.clone(), expression);
    let command = Command::Transform(vec![(s("k"), expression)]);
    assert_eq!(command.clone(), command);
}
