//! The syntax tree of a script and the parser that builds it from tokens.

use crate::grammar;
use crate::grammar::{token_at, Parsed};
use crate::lexer::{Token, TokenView};
use vstd::prelude::*;

verus! {

/// A rule applied to the text of a field after it has been looked up.
#[derive(Debug, PartialEq)]
pub enum FieldModifier {
    /// Append the text.
    Suffix(String),
    /// Prepend the text.
    Prefix(String),
    /// Use the text where the field is missing or empty.
    Default(String),
}

/// A field path together with the modifiers written behind it.
#[derive(Debug, PartialEq)]
pub struct FieldWithModifiers {
    pub path: Vec<String>,
    pub modifiers: Vec<FieldModifier>,
}

/// The right-hand side of an assignment.
#[derive(Debug, PartialEq)]
pub enum Expression {
    /// The keys that lead to a (possibly nested) field; never empty.
    FieldPath(Vec<String>),
    /// A field path with at least one modifier.
    FieldWithModifiers(FieldWithModifiers),
    /// A string literal, escapes still as written.
    Literal(String),
    /// Terms joined by `+`.
    Concat(Vec<Expression>),
    /// `raw()`: the whole record.
    RawRecord,
    /// `serial()`: the next value of the run's counter.
    Serial,
}

/// One statement of a script.
#[derive(Debug, Clone, PartialEq)]
pub enum Command {
    /// `input "path";`
    Input(String),
    /// `output "path";`
    Output(String),
    /// `print;`
    Print,
    /// `print line N;`, with `N` counted from one.
    PrintLine(usize),
    /// `transform { name = expression; ... }`
    Transform(Vec<(String, Expression)>),
}

/// Why a sequence of tokens is no script.
#[derive(Debug, Clone, PartialEq)]
pub enum ParseError {
    /// A required token was not there; `found` is what stood in its place,
    /// `None` at the end of the input.
    ExpectedToken { expected: Token, found: Option<Token> },
    /// A token that starts no command stood where a command was due.
    UnexpectedInCommandPosition(Token),
    /// `input` was not followed by a string literal.
    ExpectedPathAfterInput(Option<Token>),
    /// `output` was not followed by a string literal.
    ExpectedPathAfterOutput(Option<Token>),
    /// `print line` was not followed by a number.
    ExpectedNumberAfterPrintLine(Option<Token>),
    /// `print` was followed neither by `;` nor by `line`.
    UnexpectedAfterPrint(Option<Token>),
    /// A token that starts no assignment stood inside a transform block.
    UnexpectedInTransform(Token),
    /// A token that starts no term stood where a term was due.
    UnexpectedInExpression(Option<Token>),
}

// ---------------------------------------------------------------------
// Mathematical values of the syntax tree
// ---------------------------------------------------------------------

/// The mathematical value of a [`FieldModifier`].
pub enum ModifierView {
    Suffix(Seq<char>),
    Prefix(Seq<char>),
    Default(Seq<char>),
}

/// The mathematical value of a [`FieldWithModifiers`].
pub struct FieldWithModifiersView {
    pub path: Seq<Seq<char>>,
    pub modifiers: Seq<ModifierView>,
}

/// The mathematical value of an [`Expression`].
pub enum ExpressionView {
    FieldPath(Seq<Seq<char>>),
    FieldWithModifiers(FieldWithModifiersView),
    Literal(Seq<char>),
    Concat(Seq<ExpressionView>),
    RawRecord,
    Serial,
}

/// The mathematical value of a [`Command`].
pub enum CommandView {
    Input(Seq<char>),
    Output(Seq<char>),
    Print,
    PrintLine(nat),
    Transform(Seq<(Seq<char>, ExpressionView)>),
}

/// The mathematical value of a [`ParseError`].
pub enum ParseErrorView {
    ExpectedToken { expected: TokenView, found: Option<TokenView> },
    UnexpectedInCommandPosition(TokenView),
    ExpectedPathAfterInput(Option<TokenView>),
    ExpectedPathAfterOutput(Option<TokenView>),
    ExpectedNumberAfterPrintLine(Option<TokenView>),
    UnexpectedAfterPrint(Option<TokenView>),
    UnexpectedInTransform(TokenView),
    UnexpectedInExpression(Option<TokenView>),
}

impl View for FieldModifier {
    type V = ModifierView;

    open spec fn view(&self) -> ModifierView {
        match self {
            FieldModifier::Suffix(text) => ModifierView::Suffix(text@),
            FieldModifier::Prefix(text) => ModifierView::Prefix(text@),
            FieldModifier::Default(text) => ModifierView::Default(text@),
        }
    }
}

impl DeepView for FieldModifier {
    type V = ModifierView;

    open spec fn deep_view(&self) -> ModifierView {
        self@
    }
}

impl View for FieldWithModifiers {
    type V = FieldWithModifiersView;

    open spec fn view(&self) -> FieldWithModifiersView {
        FieldWithModifiersView {
            path: self.path.deep_view(),
            modifiers: self.modifiers.deep_view(),
        }
    }
}

impl DeepView for FieldWithModifiers {
    type V = FieldWithModifiersView;

    open spec fn deep_view(&self) -> FieldWithModifiersView {
        self@
    }
}

impl View for Expression {
    type V = ExpressionView;

    open spec fn view(&self) -> ExpressionView
        decreases self,
    {
        match self {
            Expression::FieldPath(path) => ExpressionView::FieldPath(path.deep_view()),
            Expression::FieldWithModifiers(field) => ExpressionView::FieldWithModifiers(field@),
            Expression::Literal(text) => ExpressionView::Literal(text@),
            Expression::Concat(parts) => ExpressionView::Concat(
                Seq::new(
                    parts.len() as nat,
                    |i: int|
                        if 0 <= i < parts.len() {
                            parts[i]@
                        } else {
                            ExpressionView::RawRecord
                        },
                ),
            ),
            Expression::RawRecord => ExpressionView::RawRecord,
            Expression::Serial => ExpressionView::Serial,
        }
    }
}

impl DeepView for Expression {
    type V = ExpressionView;

    open spec fn deep_view(&self) -> ExpressionView {
        self@
    }
}

impl View for Command {
    type V = CommandView;

    open spec fn view(&self) -> CommandView {
        match self {
            Command::Input(path) => CommandView::Input(path@),
            Command::Output(path) => CommandView::Output(path@),
            Command::Print => CommandView::Print,
            Command::PrintLine(n) => CommandView::PrintLine(*n as nat),
            Command::Transform(assignments) => CommandView::Transform(assignments.deep_view()),
        }
    }
}

impl DeepView for Command {
    type V = CommandView;

    open spec fn deep_view(&self) -> CommandView {
        self@
    }
}

/// The value of a token that may be missing.
pub open spec fn found_view(found: Option<Token>) -> Option<TokenView> {
    match found {
        Some(token) => Some(token@),
        None => None,
    }
}

impl View for ParseError {
    type V = ParseErrorView;

    open spec fn view(&self) -> ParseErrorView {
        match self {
            ParseError::ExpectedToken { expected, found } => ParseErrorView::ExpectedToken {
                expected: expected@,
                found: found_view(*found),
            },
            ParseError::UnexpectedInCommandPosition(token) => {
                ParseErrorView::UnexpectedInCommandPosition(token@)
            },
            ParseError::ExpectedPathAfterInput(found) => ParseErrorView::ExpectedPathAfterInput(
                found_view(*found),
            ),
            ParseError::ExpectedPathAfterOutput(found) => ParseErrorView::ExpectedPathAfterOutput(
                found_view(*found),
            ),
            ParseError::ExpectedNumberAfterPrintLine(found) => {
                ParseErrorView::ExpectedNumberAfterPrintLine(found_view(*found))
            },
            ParseError::UnexpectedAfterPrint(found) => ParseErrorView::UnexpectedAfterPrint(
                found_view(*found),
            ),
            ParseError::UnexpectedInTransform(token) => ParseErrorView::UnexpectedInTransform(
                token@,
            ),
            ParseError::UnexpectedInExpression(found) => ParseErrorView::UnexpectedInExpression(
                found_view(*found),
            ),
        }
    }
}

impl Clone for FieldModifier {
    fn clone(&self) -> (copy: Self)
        ensures
            copy@ == self@,
    {
        match self {
            FieldModifier::Suffix(text) => FieldModifier::Suffix(text.clone()),
            FieldModifier::Prefix(text) => FieldModifier::Prefix(text.clone()),
            FieldModifier::Default(text) => FieldModifier::Default(text.clone()),
        }
    }
}

impl Clone for FieldWithModifiers {
    fn clone(&self) -> (copy: Self)
        ensures
            copy@ == self@,
    {
        let path = self.path.clone();
        let modifiers = self.modifiers.clone();
        assert(path.deep_view() =~= self.path.deep_view());
        assert(modifiers.deep_view() =~= self.modifiers.deep_view());
        FieldWithModifiers { path, modifiers }
    }
}

impl Clone for Expression {
    fn clone(&self) -> (copy: Self)
        ensures
            copy@ == self@,
        decreases self,
    {
        match self {
            Expression::FieldPath(path) => {
                let copy = path.clone();
                assert(copy.deep_view() =~= path.deep_view());
                Expression::FieldPath(copy)
            },
            Expression::FieldWithModifiers(field) => Expression::FieldWithModifiers(field.clone()),
            Expression::Literal(text) => Expression::Literal(text.clone()),
            Expression::Concat(parts) => {
                let mut copies: Vec<Expression> = Vec::new();
                let mut i: usize = 0;
                while i < parts.len()
                    invariant
                        i <= parts.len(),
                        copies.len() == i,
                        decreases_to!(self => *parts),
                        forall|k: int| 0 <= k < i ==> copies[k]@ == parts[k]@,
                    decreases parts.len() - i,
                {
                    let part = &parts[i];
                    copies.push(part.clone());
                    i += 1;
                }
                proof {
                    lemma_concat_view(copies);
                    lemma_concat_view(*parts);
                    assert(copies.deep_view() =~= parts.deep_view());
                }
                Expression::Concat(copies)
            },
            Expression::RawRecord => Expression::RawRecord,
            Expression::Serial => Expression::Serial,
        }
    }
}

/// The value of a `Concat` is the sequence of the values of its parts.
pub proof fn lemma_concat_view(parts: Vec<Expression>)
    ensures
        Expression::Concat(parts)@ == ExpressionView::Concat(parts.deep_view()),
{
    assert(Expression::Concat(parts)@->Concat_0 =~= parts.deep_view());
}

// ---------------------------------------------------------------------
// Well-formed syntax trees
// ---------------------------------------------------------------------

/// An expression in which every field path has at least one segment.
pub open spec fn well_formed_expression(e: ExpressionView) -> bool
    decreases e,
{
    match e {
        ExpressionView::FieldPath(path) => path.len() > 0,
        ExpressionView::FieldWithModifiers(field) => field.path.len() > 0,
        ExpressionView::Concat(parts) => forall|i: int|
            0 <= i < parts.len() ==> well_formed_expression(#[trigger] parts[i]),
        _ => true,
    }
}

/// A `Concat` is well formed where each of its parts is.
pub proof fn lemma_well_formed_parts(parts: Seq<ExpressionView>)
    ensures
        well_formed_expression(ExpressionView::Concat(parts)) <==> forall|k: int|
            0 <= k < parts.len() ==> well_formed_expression(#[trigger] parts[k]),
{
    let whole = ExpressionView::Concat(parts);
    assert(whole->Concat_0 == parts);
    if well_formed_expression(whole) {
        assert(forall|k: int| 0 <= k < parts.len() ==> well_formed_expression(#[trigger] parts[k]));
    }
}

/// Assignments whose expressions are all well formed.
pub open spec fn well_formed_assignments(assignments: Seq<(Seq<char>, ExpressionView)>) -> bool {
    forall|i: int|
        0 <= i < assignments.len() ==> well_formed_expression((#[trigger] assignments[i]).1)
}

/// A command whose expressions are all well formed.
pub open spec fn well_formed_command(c: CommandView) -> bool {
    match c {
        CommandView::Transform(assignments) => well_formed_assignments(assignments),
        _ => true,
    }
}

impl Expression {
    /// Tells whether every field path in the expression has at least one
    /// segment.
    pub fn is_well_formed(&self) -> (ok: bool)
        ensures
            ok == well_formed_expression(self@),
        decreases self,
    {
        match self {
            Expression::FieldPath(path) => path.len() > 0,
            Expression::FieldWithModifiers(field) => field.path.len() > 0,
            Expression::Concat(parts) => {
                proof {
                    lemma_concat_view(*parts);
                }
                let mut i: usize = 0;
                while i < parts.len()
                    invariant
                        i <= parts.len(),
                        decreases_to!(self => *parts),
                        self@ == ExpressionView::Concat(parts.deep_view()),
                        forall|k: int|
                            0 <= k < i ==> well_formed_expression(#[trigger] parts.deep_view()[k]),
                    decreases parts.len() - i,
                {
                    let part = &parts[i];
                    if !part.is_well_formed() {
                        proof {
                            let views = parts.deep_view();
                            assert(views[i as int] == part@);
                            assert(!well_formed_expression(views[i as int]));
                            lemma_well_formed_parts(views);
                        }
                        return false;
                    }
                    assert(parts.deep_view()[i as int] == part@);
                    i += 1;
                }
                true
            },
            _ => true,
        }
    }
}

impl Command {
    /// Tells whether every field path in the command has at least one
    /// segment.
    pub fn is_well_formed(&self) -> (ok: bool)
        ensures
            ok == well_formed_command(self@),
    {
        match self {
            Command::Transform(assignments) => {
                let mut i: usize = 0;
                while i < assignments.len()
                    invariant
                        i <= assignments.len(),
                        self@ == CommandView::Transform(assignments.deep_view()),
                        forall|k: int|
                            0 <= k < i ==> well_formed_expression(
                                (#[trigger] assignments.deep_view()[k]).1,
                            ),
                    decreases assignments.len() - i,
                {
                    assert(assignments.deep_view()[i as int].1 == assignments[i as int].1@);
                    if !assignments[i].1.is_well_formed() {
                        return false;
                    }
                    i += 1;
                }
                true
            },
            _ => true,
        }
    }
}

// ---------------------------------------------------------------------
// The parser
// ---------------------------------------------------------------------

/// An executable result says what the grammar says.
pub open spec fn agrees<T: DeepView>(r: Result<T, ParseError>, p: Parsed<T::V>) -> bool {
    match r {
        Ok(value) => p.outcome == Ok::<T::V, ParseErrorView>(value.deep_view()),
        Err(e) => p.outcome == Err::<T::V, ParseErrorView>(e@),
    }
}

/// An optional token of the parser says what the grammar finds.
pub open spec fn shows(found: Option<&Token>, expected: Option<TokenView>) -> bool {
    match found {
        Some(token) => expected == Some(token@),
        None => expected is None,
    }
}

/// A recursive-descent parser over a token sequence. It looks one token
/// ahead, and two more where a dot may start either a path segment or a
/// modifier call.
pub struct Parser {
    tokens: Vec<Token>,
    position: usize,
}

fn text_is(text: &String, name: &str) -> (same: bool)
    ensures
        same == (text@ == name@),
{
    *text == name.to_owned()
}

fn clone_found(found: Option<&Token>) -> (copy: Option<Token>)
    ensures
        shows(found, found_view(copy)),
{
    match found {
        Some(token) => Some(token.clone()),
        None => None,
    }
}

impl Parser {
    #[verifier::type_invariant]
    spec fn within_input(&self) -> bool {
        self.position <= self.tokens.len()
    }

    /// The tokens that the parser reads.
    pub closed spec fn tokens(&self) -> Seq<TokenView> {
        self.tokens.deep_view()
    }

    /// The index of the next token to read.
    pub closed spec fn position(&self) -> int {
        self.position as int
    }

    /// A parser at the start of `tokens`.
    pub fn new(tokens: Vec<Token>) -> (parser: Self)
        ensures
            parser.tokens() == tokens.deep_view(),
            parser.position() == 0,
    {
        Self { tokens, position: 0 }
    }

    fn lookahead(&self, ahead: usize) -> (found: Option<&Token>)
        ensures
            shows(found, token_at(self.tokens(), self.position() + ahead)),
            0 <= self.position() <= self.tokens().len(),
    {
        proof {
            use_type_invariant(self);
        }
        if ahead < self.tokens.len() - self.position {
            Some(&self.tokens[self.position + ahead])
        } else {
            None
        }
    }

    fn current_token(&self) -> (found: Option<&Token>)
        ensures
            shows(found, token_at(self.tokens(), self.position())),
            0 <= self.position() <= self.tokens().len(),
    {
        self.lookahead(0)
    }

    fn advance(&mut self)
        requires
            old(self).position() < old(self).tokens().len(),
        ensures
            final(self).tokens() == old(self).tokens(),
            final(self).position() == old(self).position() + 1,
    {
        assert(self.tokens.deep_view().len() == self.tokens.len());
        self.position += 1;
    }

    fn expect(&mut self, expected: &Token) -> (r: Result<(), ParseError>)
        ensures
            final(self).tokens() == old(self).tokens(),
            agrees(r, grammar::expect(old(self).tokens(), old(self).position(), expected@)),
            final(self).position() == grammar::expect(
                old(self).tokens(),
                old(self).position(),
                expected@,
            ).end,
    {
        let found = self.current_token();
        let same = match found {
            Some(token) => *token == *expected,
            None => false,
        };
        if same {
            self.advance();
            Ok(())
        } else {
            Err(ParseError::ExpectedToken { expected: expected.clone(), found: clone_found(found) })
        }
    }

    fn skip_comments(&mut self)
        ensures
            final(self).tokens() == old(self).tokens(),
            final(self).position() == grammar::skip_comments(
                old(self).tokens(),
                old(self).position(),
            ),
    {
        let ghost ts = self.tokens();
        let ghost start = self.position();
        loop
            invariant_except_break
                grammar::skip_comments(ts, start) == grammar::skip_comments(ts, self.position()),
            invariant
                self.tokens() == ts,
                ts == old(self).tokens(),
                start == old(self).position(),
            ensures
                grammar::skip_comments(ts, start) == self.position(),
            decreases ts.len() - self.position(),
        {
            match self.current_token() {
                Some(Token::Comment(_)) => {},
                _ => {
                    break ;
                },
            }
            self.advance();
        }
    }

    /// The modifier calls written behind a field path. A malformed call
    /// ends the list silently; the result is never an error.
    fn parse_modifiers(&mut self) -> (r: Result<Vec<FieldModifier>, ParseError>)
        ensures
            r is Ok,
            final(self).tokens() == old(self).tokens(),
            agrees(r, grammar::modifiers(old(self).tokens(), old(self).position())),
            final(self).position() == grammar::modifiers(
                old(self).tokens(),
                old(self).position(),
            ).end,
    {
        let ghost ts = self.tokens();
        let ghost start = self.position();
        let mut modifiers: Vec<FieldModifier> = Vec::new();
        proof {
            grammar::lemma_modifiers_never_fail(ts, start);
            grammar::lemma_after_nothing(grammar::modifiers(ts, start));
            assert(modifiers.deep_view() =~= Seq::empty());
        }
        loop
            invariant_except_break
                grammar::modifiers(ts, start) == grammar::after(
                    modifiers.deep_view(),
                    grammar::modifiers(ts, self.position()),
                ),
            invariant
                self.tokens() == ts,
                ts == old(self).tokens(),
                start == old(self).position(),
            ensures
                grammar::modifiers(ts, start) == (Parsed {
                    outcome: Ok(modifiers.deep_view()),
                    end: self.position(),
                }),
            decreases ts.len() - self.position(),
        {
            let ghost done = modifiers.deep_view();
            proof {
                assert(done + Seq::<ModifierView>::empty() =~= done);
            }
            let name = match (self.lookahead(0), self.lookahead(1), self.lookahead(2)) {
                (Some(Token::Dot), Some(Token::Identifier(name)), Some(Token::LParen)) => {
                    name.clone()
                },
                _ => {
                    break ;
                },
            };
            // the dot, the name and the opening parenthesis
            self.advance();
            self.advance();
            self.advance();
            let value = match self.current_token() {
                Some(Token::StringLiteral(text)) => text.clone(),
                _ => {
                    break ;
                },
            };
            self.advance();
            match self.current_token() {
                Some(Token::RParen) => {},
                _ => {
                    break ;
                },
            }
            self.advance();
            let modifier = if text_is(&name, "prefix") {
                FieldModifier::Prefix(value)
            } else if text_is(&name, "suffix") {
                FieldModifier::Suffix(value)
            } else if text_is(&name, "default") {
                FieldModifier::Default(value)
            } else {
                break ;
            };
            proof {
                grammar::lemma_after_one_more(
                    done,
                    modifier@,
                    grammar::modifiers(ts, self.position()),
                );
                assert(modifiers.deep_view().push(modifier@) =~= done.push(modifier@));
            }
            modifiers.push(modifier);
            proof {
                assert(modifiers.deep_view() =~= done.push(modifier@));
            }
        }
        Ok(modifiers)
    }

    /// The rest of a field reference whose first segment has been read.
    fn parse_field(&mut self, first: String) -> (r: Result<Expression, ParseError>)
        ensures
            final(self).tokens() == old(self).tokens(),
            agrees(r, grammar::field(old(self).tokens(), old(self).position(), first@)),
            final(self).position() == grammar::field(
                old(self).tokens(),
                old(self).position(),
                first@,
            ).end,
    {
        let ghost ts = self.tokens();
        let ghost start = self.position();
        let ghost first_view = first@;
        let mut path: Vec<String> = Vec::new();
        path.push(first);
        let ghost tail: Seq<Seq<char>> = Seq::empty();
        proof {
            assert(path.deep_view() =~= seq![first_view] + tail);
            assert(tail + grammar::path_tail(ts, start).0 =~= grammar::path_tail(ts, start).0);
        }
        loop
            invariant_except_break
                grammar::path_tail(ts, start) == (
                    tail + grammar::path_tail(ts, self.position()).0,
                    grammar::path_tail(ts, self.position()).1,
                ),
            invariant
                self.tokens() == ts,
                ts == old(self).tokens(),
                start == old(self).position(),
                first_view == first@,
                path.deep_view() == seq![first_view] + tail,
            ensures
                grammar::path_tail(ts, start) == (tail, self.position()),
            decreases ts.len() - self.position(),
        {
            proof {
                assert(tail + Seq::<Seq<char>>::empty() =~= tail);
            }
            let segment = match (self.lookahead(0), self.lookahead(1), self.lookahead(2)) {
                (Some(Token::Dot), Some(Token::Identifier(_)), Some(Token::LParen)) => {
                    break ;
                },
                (Some(Token::Dot), Some(Token::Identifier(name)), _) => name.clone(),
                _ => {
                    break ;
                },
            };
            proof {
                let rest = grammar::path_tail(ts, self.position() + 2);
                assert(tail + (seq![segment@] + rest.0) =~= tail.push(segment@) + rest.0);
                assert((seq![first_view] + tail).push(segment@) =~= seq![first_view] + tail.push(
                    segment@,
                ));
                assert(path.deep_view().push(segment@) =~= seq![first_view] + tail.push(segment@));
                tail = tail.push(segment@);
            }
            self.advance();
            self.advance();
            path.push(segment);
            proof {
                assert(path.deep_view() =~= seq![first_view] + tail);
            }
        }
        let modifiers = match self.parse_modifiers() {
            Ok(list) => list,
            Err(e) => {
                return Err(e);
            },
        };
        if modifiers.len() == 0 {
            Ok(Expression::FieldPath(path))
        } else {
            Ok(Expression::FieldWithModifiers(FieldWithModifiers { path, modifiers }))
        }
    }

    /// The empty argument list of a built-in.
    fn parse_call(&mut self, value: Expression) -> (r: Result<Expression, ParseError>)
        ensures
            final(self).tokens() == old(self).tokens(),
            agrees(r, grammar::call(old(self).tokens(), old(self).position(), value@)),
            final(self).position() == grammar::call(
                old(self).tokens(),
                old(self).position(),
                value@,
            ).end,
    {
        match self.expect(&Token::LParen) {
            Ok(_) => {},
            Err(e) => {
                return Err(e);
            },
        }
        match self.expect(&Token::RParen) {
            Ok(_) => {},
            Err(e) => {
                return Err(e);
            },
        }
        Ok(value)
    }

    /// One term of an expression.
    fn parse_term(&mut self) -> (r: Result<Expression, ParseError>)
        ensures
            final(self).tokens() == old(self).tokens(),
            agrees(r, grammar::term(old(self).tokens(), old(self).position())),
            final(self).position() == grammar::term(old(self).tokens(), old(self).position()).end,
    {
        let token = clone_found(self.current_token());
        match token {
            Some(Token::Field(first)) => {
                self.advance();
                self.parse_field(first)
            },
            Some(Token::StringLiteral(text)) => {
                self.advance();
                Ok(Expression::Literal(text))
            },
            Some(Token::Identifier(name)) => {
                if text_is(&name, "raw") {
                    self.advance();
                    self.parse_call(Expression::RawRecord)
                } else if text_is(&name, "serial") {
                    self.advance();
                    self.parse_call(Expression::Serial)
                } else {
                    Err(ParseError::UnexpectedInExpression(Some(Token::Identifier(name))))
                }
            },
            other => Err(ParseError::UnexpectedInExpression(other)),
        }
    }

    /// An expression: terms joined by `+`.
    fn parse_expression(&mut self) -> (r: Result<Expression, ParseError>)
        ensures
            final(self).tokens() == old(self).tokens(),
            agrees(r, grammar::expression(old(self).tokens(), old(self).position())),
            final(self).position() == grammar::expression(
                old(self).tokens(),
                old(self).position(),
            ).end,
    {
        let ghost ts = self.tokens();
        let ghost start = self.position();
        let mut parts: Vec<Expression> = Vec::new();
        proof {
            grammar::lemma_after_nothing(grammar::terms(ts, start));
            assert(parts.deep_view() =~= Seq::empty());
        }
        loop
            invariant_except_break
                grammar::terms(ts, start) == grammar::after(
                    parts.deep_view(),
                    grammar::terms(ts, self.position()),
                ),
            invariant
                self.tokens() == ts,
                ts == old(self).tokens(),
                start == old(self).position(),
            ensures
                grammar::terms(ts, start) == (Parsed {
                    outcome: Ok(parts.deep_view()),
                    end: self.position(),
                }),
            decreases ts.len() - self.position(),
        {
            let ghost here = self.position();
            let ghost done = parts.deep_view();
            proof {
                use_type_invariant(&*self);
            }
            self.skip_comments();
            proof {
                grammar::lemma_skip_comments_bounds(ts, here);
                grammar::lemma_term_end(ts, self.position());
            }
            let term = match self.parse_term() {
                Ok(term) => term,
                Err(e) => {
                    return Err(e);
                },
            };
            let ghost term_end = self.position();
            parts.push(term);
            self.skip_comments();
            proof {
                grammar::lemma_skip_comments_bounds(ts, term_end);
                assert(parts.deep_view() =~= done.push(term@));
                assert(done + seq![term@] =~= done.push(term@));
                grammar::lemma_after_one_more(
                    done,
                    term@,
                    grammar::terms(ts, self.position() + 1),
                );
            }
            match self.current_token() {
                Some(Token::Plus) => {},
                _ => {
                    break ;
                },
            }
            self.advance();
        }
        if parts.len() == 1 {
            Ok(parts.remove(0))
        } else {
            proof {
                lemma_concat_view(parts);
            }
            Ok(Expression::Concat(parts))
        }
    }

    /// `input "path";`, from the keyword on.
    fn parse_input(&mut self) -> (r: Result<Command, ParseError>)
        requires
            old(self).position() < old(self).tokens().len(),
        ensures
            final(self).tokens() == old(self).tokens(),
            agrees(r, grammar::input(old(self).tokens(), old(self).position())),
            final(self).position() == grammar::input(old(self).tokens(), old(self).position()).end,
    {
        self.advance();
        let token = clone_found(self.current_token());
        match token {
            Some(Token::StringLiteral(path)) => {
                self.advance();
                match self.expect(&Token::Semicolon) {
                    Ok(_) => Ok(Command::Input(path)),
                    Err(e) => Err(e),
                }
            },
            other => Err(ParseError::ExpectedPathAfterInput(other)),
        }
    }

    /// `output "path";`, from the keyword on.
    fn parse_output(&mut self) -> (r: Result<Command, ParseError>)
        requires
            old(self).position() < old(self).tokens().len(),
        ensures
            final(self).tokens() == old(self).tokens(),
            agrees(r, grammar::output(old(self).tokens(), old(self).position())),
            final(self).position() == grammar::output(
                old(self).tokens(),
                old(self).position(),
            ).end,
    {
        self.advance();
        let token = clone_found(self.current_token());
        match token {
            Some(Token::StringLiteral(path)) => {
                self.advance();
                match self.expect(&Token::Semicolon) {
                    Ok(_) => Ok(Command::Output(path)),
                    Err(e) => Err(e),
                }
            },
            other => Err(ParseError::ExpectedPathAfterOutput(other)),
        }
    }

    /// `print;` or `print line N;`, from the keyword on.
    fn parse_print(&mut self) -> (r: Result<Command, ParseError>)
        requires
            old(self).position() < old(self).tokens().len(),
        ensures
            final(self).tokens() == old(self).tokens(),
            agrees(r, grammar::print(old(self).tokens(), old(self).position())),
            final(self).position() == grammar::print(old(self).tokens(), old(self).position()).end,
    {
        self.advance();
        let token = clone_found(self.current_token());
        match token {
            Some(Token::Semicolon) => {
                self.advance();
                Ok(Command::Print)
            },
            Some(Token::Identifier(name)) => {
                if text_is(&name, "line") {
                    self.advance();
                    let number = clone_found(self.current_token());
                    match number {
                        Some(Token::Number(n)) => {
                            self.advance();
                            match self.expect(&Token::Semicolon) {
                                Ok(_) => Ok(Command::PrintLine(n)),
                                Err(e) => Err(e),
                            }
                        },
                        other => Err(ParseError::ExpectedNumberAfterPrintLine(other)),
                    }
                } else {
                    Err(ParseError::UnexpectedAfterPrint(Some(Token::Identifier(name))))
                }
            },
            other => Err(ParseError::UnexpectedAfterPrint(other)),
        }
    }

    /// `name = expression;`, from the name on.
    fn parse_assignment(&mut self, name: String) -> (r: Result<(String, Expression), ParseError>)
        requires
            old(self).position() < old(self).tokens().len(),
        ensures
            final(self).tokens() == old(self).tokens(),
            agrees(r, grammar::assignment(old(self).tokens(), old(self).position(), name@)),
            final(self).position() == grammar::assignment(
                old(self).tokens(),
                old(self).position(),
                name@,
            ).end,
    {
        self.advance();
        match self.expect(&Token::Equal) {
            Ok(_) => {},
            Err(e) => {
                return Err(e);
            },
        }
        let value = match self.parse_expression() {
            Ok(value) => value,
            Err(e) => {
                return Err(e);
            },
        };
        match self.expect(&Token::Semicolon) {
            Ok(_) => {},
            Err(e) => {
                return Err(e);
            },
        }
        Ok((name, value))
    }

    /// `transform { ... }`, from the keyword on.
    fn parse_transform(&mut self) -> (r: Result<Command, ParseError>)
        requires
            old(self).position() < old(self).tokens().len(),
        ensures
            final(self).tokens() == old(self).tokens(),
            agrees(r, grammar::transform(old(self).tokens(), old(self).position())),
            final(self).position() == grammar::transform(
                old(self).tokens(),
                old(self).position(),
            ).end,
    {
        let ghost ts = self.tokens();
        self.advance();
        match self.expect(&Token::LBrace) {
            Ok(_) => {},
            Err(e) => {
                return Err(e);
            },
        }
        let ghost start = self.position();
        let mut transforms: Vec<(String, Expression)> = Vec::new();
        proof {
            grammar::lemma_after_nothing(grammar::assignments(ts, start));
            assert(transforms.deep_view() =~= Seq::empty());
        }
        loop
            invariant_except_break
                grammar::assignments(ts, start) == grammar::after(
                    transforms.deep_view(),
                    grammar::assignments(ts, self.position()),
                ),
            invariant
                self.tokens() == ts,
                ts == old(self).tokens(),
                start == old(self).position() + 2,
                0 <= old(self).position() < ts.len(),
                grammar::expect(ts, old(self).position() + 1, TokenView::LBrace).outcome is Ok,
            ensures
                grammar::assignments(ts, start) == (Parsed {
                    outcome: Ok(transforms.deep_view()),
                    end: self.position(),
                }),
            decreases ts.len() - self.position(),
        {
            let ghost here = self.position();
            let ghost done = transforms.deep_view();
            proof {
                assert(done + Seq::<(Seq<char>, ExpressionView)>::empty() =~= done);
            }
            let token = clone_found(self.current_token());
            match token {
                None => {
                    return Err(ParseError::ExpectedToken { expected: Token::RBrace, found: None });
                },
                Some(Token::Comment(_)) => {
                    self.advance();
                },
                Some(Token::RBrace) => {
                    self.advance();
                    match self.current_token() {
                        Some(Token::Semicolon) => {
                            self.advance();
                        },
                        _ => {},
                    }
                    break ;
                },
                Some(Token::Identifier(name)) => {
                    proof {
                        grammar::lemma_assignment_end(ts, here, name@);
                    }
                    let pair = match self.parse_assignment(name) {
                        Ok(pair) => pair,
                        Err(e) => {
                            return Err(e);
                        },
                    };
                    proof {
                        grammar::lemma_after_one_more(
                            done,
                            pair.deep_view(),
                            grammar::assignments(ts, self.position()),
                        );
                        assert(transforms.deep_view().push(pair.deep_view()) =~= done.push(
                            pair.deep_view(),
                        ));
                    }
                    let ghost pair_view = pair.deep_view();
                    transforms.push(pair);
                    proof {
                        assert(transforms.deep_view() =~= done.push(pair_view));
                    }
                },
                Some(other) => {
                    return Err(ParseError::UnexpectedInTransform(other));
                },
            }
        }
        Ok(Command::Transform(transforms))
    }

    /// Reads the commands from the current position to the end of the
    /// input. The first error ends the parse.
    pub fn parse(&mut self) -> (r: Result<Vec<Command>, ParseError>)
        ensures
            final(self).tokens() == old(self).tokens(),
            agrees(r, grammar::commands(old(self).tokens(), old(self).position())),
            final(self).position() == grammar::commands(
                old(self).tokens(),
                old(self).position(),
            ).end,
            r is Ok ==> forall|i: int|
                0 <= i < r->Ok_0.len() ==> well_formed_command(#[trigger] r->Ok_0[i]@),
    {
        let ghost ts = self.tokens();
        let ghost start = self.position();
        let mut commands: Vec<Command> = Vec::new();
        proof {
            if grammar::commands(ts, start).outcome is Ok {
                grammar::lemma_commands_well_formed(ts, start);
            }
            grammar::lemma_after_nothing(grammar::commands(ts, start));
            assert(commands.deep_view() =~= Seq::empty());
        }
        loop
            invariant_except_break
                grammar::commands(ts, start) == grammar::after(
                    commands.deep_view(),
                    grammar::commands(ts, self.position()),
                ),
            invariant
                self.tokens() == ts,
                ts == old(self).tokens(),
                start == old(self).position(),
            ensures
                grammar::commands(ts, start) == (Parsed {
                    outcome: Ok(commands.deep_view()),
                    end: self.position(),
                }),
            decreases ts.len() - self.position(),
        {
            let ghost here = self.position();
            let ghost done = commands.deep_view();
            proof {
                assert(done + Seq::<CommandView>::empty() =~= done);
            }
            let token = clone_found(self.current_token());
            let parsed = match token {
                None => {
                    break ;
                },
                Some(Token::Comment(_)) => {
                    self.advance();
                    continue ;
                },
                Some(Token::Input) => self.parse_input(),
                Some(Token::Output) => self.parse_output(),
                Some(Token::Print) => self.parse_print(),
                Some(Token::Transform) => self.parse_transform(),
                Some(other) => {
                    return Err(ParseError::UnexpectedInCommandPosition(other));
                },
            };
            proof {
                grammar::lemma_command_end(ts, here);
            }
            let command = match parsed {
                Ok(command) => command,
                Err(e) => {
                    return Err(e);
                },
            };
            proof {
                grammar::lemma_after_one_more(
                    done,
                    command@,
                    grammar::commands(ts, self.position()),
                );
                assert(commands.deep_view().push(command@) =~= done.push(command@));
            }
            commands.push(command);
            proof {
                assert(commands.deep_view() =~= done.push(command@));
            }
        }
        proof {
            assert forall|i: int| 0 <= i < commands.len() implies well_formed_command(
                #[trigger] commands[i]@,
            ) by {
                assert(commands.deep_view()[i] == commands[i]@);
            }
        }
        Ok(commands)
    }
}

} // verus!
