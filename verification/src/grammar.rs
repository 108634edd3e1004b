//! The grammar of scripts, as functions from a token sequence and a
//! position to what stands there and where it ends.
//!
//! A script is a sequence of commands. Comments may stand wherever a
//! command, an assignment or a term is due. Each function below describes
//! one syntactic form; all of them stop at the first error.

use crate::lexer::TokenView;
use crate::parser::{
    well_formed_assignments, well_formed_command, well_formed_expression, CommandView,
    ExpressionView, FieldWithModifiersView, ModifierView, ParseErrorView,
};
use vstd::prelude::*;

verus! {

/// What was recognised from some position on, and the position behind
/// it. After an error, `end` is the position of the offending token.
pub struct Parsed<T> {
    pub outcome: Result<T, ParseErrorView>,
    pub end: int,
}

/// The token at `pos`, if there is one.
pub open spec fn token_at(ts: Seq<TokenView>, pos: int) -> Option<TokenView> {
    if 0 <= pos < ts.len() {
        Some(ts[pos])
    } else {
        None
    }
}

/// `items` behind `done`; an error stays as it is.
pub open spec fn after<T>(done: Seq<T>, rest: Parsed<Seq<T>>) -> Parsed<Seq<T>> {
    Parsed {
        outcome: match rest.outcome {
            Ok(items) => Ok(done + items),
            Err(e) => Err(e),
        },
        end: rest.end,
    }
}

/// The token `expected` at `pos`.
pub open spec fn expect(ts: Seq<TokenView>, pos: int, expected: TokenView) -> Parsed<()> {
    if token_at(ts, pos) == Some(expected) {
        Parsed { outcome: Ok(()), end: pos + 1 }
    } else {
        Parsed {
            outcome: Err(ParseErrorView::ExpectedToken { expected, found: token_at(ts, pos) }),
            end: pos,
        }
    }
}

/// The position of the first token at or after `pos` that is no comment.
pub open spec fn skip_comments(ts: Seq<TokenView>, pos: int) -> int
    decreases ts.len() - pos,
{
    if token_at(ts, pos) is Some && token_at(ts, pos)->0 is Comment {
        skip_comments(ts, pos + 1)
    } else {
        pos
    }
}

// ---------------------------------------------------------------------
// Field paths and modifiers
// ---------------------------------------------------------------------

/// A dot, a name and an opening parenthesis stand at `pos`: the start of
/// a modifier call.
pub open spec fn is_modifier_call(ts: Seq<TokenView>, pos: int) -> bool {
    &&& token_at(ts, pos) == Some(TokenView::Dot)
    &&& token_at(ts, pos + 1) is Some
    &&& token_at(ts, pos + 1)->0 is Identifier
    &&& token_at(ts, pos + 2) == Some(TokenView::LParen)
}

/// A dot and a name stand at `pos`, and no opening parenthesis behind
/// them: one more segment of a field path.
pub open spec fn is_path_step(ts: Seq<TokenView>, pos: int) -> bool {
    &&& token_at(ts, pos) == Some(TokenView::Dot)
    &&& token_at(ts, pos + 1) is Some
    &&& token_at(ts, pos + 1)->0 is Identifier
    &&& token_at(ts, pos + 2) != Some(TokenView::LParen)
}

/// The segments of a field path that follow its first one, from `pos` on.
pub open spec fn path_tail(ts: Seq<TokenView>, pos: int) -> (Seq<Seq<char>>, int)
    decreases ts.len() - pos,
{
    if is_path_step(ts, pos) {
        let rest = path_tail(ts, pos + 2);
        (seq![token_at(ts, pos + 1)->0->Identifier_0] + rest.0, rest.1)
    } else {
        (Seq::empty(), pos)
    }
}

/// The modifier that `name` selects, if it selects one.
pub open spec fn modifier_named(name: Seq<char>, text: Seq<char>) -> Option<ModifierView> {
    if name == "prefix"@ {
        Some(ModifierView::Prefix(text))
    } else if name == "suffix"@ {
        Some(ModifierView::Suffix(text))
    } else if name == "default"@ {
        Some(ModifierView::Default(text))
    } else {
        None
    }
}

/// The modifier calls from `pos` on.
///
/// The list never fails. It ends before anything that is no modifier
/// call. A call that is malformed ends it too, at the token that stands
/// where the string literal or the closing parenthesis is missing, and
/// so does a complete call of an unknown name, behind that call. The
/// modifiers read before stay in the list.
pub open spec fn modifiers(ts: Seq<TokenView>, pos: int) -> Parsed<Seq<ModifierView>>
    decreases ts.len() - pos,
{
    if is_modifier_call(ts, pos) {
        match token_at(ts, pos + 3) {
            Some(TokenView::StringLiteral(text)) => {
                if token_at(ts, pos + 4) == Some(TokenView::RParen) {
                    match modifier_named(token_at(ts, pos + 1)->0->Identifier_0, text) {
                        Some(modifier) => after(seq![modifier], modifiers(ts, pos + 5)),
                        None => Parsed { outcome: Ok(Seq::empty()), end: pos + 5 },
                    }
                } else {
                    Parsed { outcome: Ok(Seq::empty()), end: pos + 4 }
                }
            },
            _ => Parsed { outcome: Ok(Seq::empty()), end: pos + 3 },
        }
    } else {
        Parsed { outcome: Ok(Seq::empty()), end: pos }
    }
}

/// A field reference whose first segment `first` stood just before `pos`:
/// the rest of its path, then its modifiers.
pub open spec fn field(ts: Seq<TokenView>, pos: int, first: Seq<char>) -> Parsed<ExpressionView> {
    let tail = path_tail(ts, pos);
    let path = seq![first] + tail.0;
    let mods = modifiers(ts, tail.1);
    Parsed {
        outcome: match mods.outcome {
            Ok(list) => Ok(
                if list.len() == 0 {
                    ExpressionView::FieldPath(path)
                } else {
                    ExpressionView::FieldWithModifiers(
                        FieldWithModifiersView { path, modifiers: list },
                    )
                },
            ),
            Err(e) => Err(e),
        },
        end: mods.end,
    }
}

// ---------------------------------------------------------------------
// Expressions
// ---------------------------------------------------------------------

/// The empty argument list `()` at `pos`, behind the name of a built-in
/// that `value` stands for.
pub open spec fn call(ts: Seq<TokenView>, pos: int, value: ExpressionView) -> Parsed<
    ExpressionView,
> {
    let open = expect(ts, pos, TokenView::LParen);
    let close = expect(ts, pos + 1, TokenView::RParen);
    match open.outcome {
        Err(e) => Parsed { outcome: Err(e), end: open.end },
        Ok(_) => match close.outcome {
            Err(e) => Parsed { outcome: Err(e), end: close.end },
            Ok(_) => Parsed { outcome: Ok(value), end: close.end },
        },
    }
}

/// One term at `pos`: a field reference, a string literal, `raw()` or
/// `serial()`.
pub open spec fn term(ts: Seq<TokenView>, pos: int) -> Parsed<ExpressionView> {
    match token_at(ts, pos) {
        Some(TokenView::Field(first)) => field(ts, pos + 1, first),
        Some(TokenView::StringLiteral(text)) => Parsed {
            outcome: Ok(ExpressionView::Literal(text)),
            end: pos + 1,
        },
        Some(TokenView::Identifier(name)) => {
            if name == "raw"@ {
                call(ts, pos + 1, ExpressionView::RawRecord)
            } else if name == "serial"@ {
                call(ts, pos + 1, ExpressionView::Serial)
            } else {
                Parsed {
                    outcome: Err(ParseErrorView::UnexpectedInExpression(token_at(ts, pos))),
                    end: pos,
                }
            }
        },
        other => Parsed { outcome: Err(ParseErrorView::UnexpectedInExpression(other)), end: pos },
    }
}

/// The terms of an expression from `pos` on, in order. Terms are joined
/// by `+`; comments before and behind a term are passed over.
pub open spec fn terms(ts: Seq<TokenView>, pos: int) -> Parsed<Seq<ExpressionView>>
    decreases ts.len() - pos,
{
    let start = skip_comments(ts, pos);
    let first = term(ts, start);
    match first.outcome {
        Err(e) => Parsed { outcome: Err(e), end: first.end },
        Ok(value) => {
            let behind = skip_comments(ts, first.end);
            if token_at(ts, behind) == Some(TokenView::Plus) {
                proof {
                    lemma_skip_comments_bounds(ts, pos);
                    lemma_term_end(ts, start);
                    lemma_skip_comments_bounds(ts, first.end);
                }
                after(seq![value], terms(ts, behind + 1))
            } else {
                Parsed { outcome: Ok(seq![value]), end: behind }
            }
        },
    }
}

/// An expression at `pos`: a single term stands for itself, several are
/// joined in a `Concat`.
pub open spec fn expression(ts: Seq<TokenView>, pos: int) -> Parsed<ExpressionView> {
    let all = terms(ts, pos);
    Parsed {
        outcome: match all.outcome {
            Ok(parts) => Ok(
                if parts.len() == 1 {
                    parts[0]
                } else {
                    ExpressionView::Concat(parts)
                },
            ),
            Err(e) => Err(e),
        },
        end: all.end,
    }
}

// ---------------------------------------------------------------------
// Commands
// ---------------------------------------------------------------------

/// `input` at `pos`, then a string literal and a semicolon.
pub open spec fn input(ts: Seq<TokenView>, pos: int) -> Parsed<CommandView> {
    match token_at(ts, pos + 1) {
        Some(TokenView::StringLiteral(path)) => {
            let semi = expect(ts, pos + 2, TokenView::Semicolon);
            Parsed {
                outcome: match semi.outcome {
                    Ok(_) => Ok(CommandView::Input(path)),
                    Err(e) => Err(e),
                },
                end: semi.end,
            }
        },
        other => Parsed {
            outcome: Err(ParseErrorView::ExpectedPathAfterInput(other)),
            end: pos + 1,
        },
    }
}

/// `output` at `pos`, then a string literal and a semicolon.
pub open spec fn output(ts: Seq<TokenView>, pos: int) -> Parsed<CommandView> {
    match token_at(ts, pos + 1) {
        Some(TokenView::StringLiteral(path)) => {
            let semi = expect(ts, pos + 2, TokenView::Semicolon);
            Parsed {
                outcome: match semi.outcome {
                    Ok(_) => Ok(CommandView::Output(path)),
                    Err(e) => Err(e),
                },
                end: semi.end,
            }
        },
        other => Parsed {
            outcome: Err(ParseErrorView::ExpectedPathAfterOutput(other)),
            end: pos + 1,
        },
    }
}

/// `print` at `pos`, then either a semicolon, or the name `line`, a
/// number and a semicolon.
pub open spec fn print(ts: Seq<TokenView>, pos: int) -> Parsed<CommandView> {
    match token_at(ts, pos + 1) {
        Some(TokenView::Semicolon) => Parsed { outcome: Ok(CommandView::Print), end: pos + 2 },
        Some(TokenView::Identifier(name)) if name == "line"@ => {
            match token_at(ts, pos + 2) {
                Some(TokenView::Number(n)) => {
                    let semi = expect(ts, pos + 3, TokenView::Semicolon);
                    Parsed {
                        outcome: match semi.outcome {
                            Ok(_) => Ok(CommandView::PrintLine(n)),
                            Err(e) => Err(e),
                        },
                        end: semi.end,
                    }
                },
                other => Parsed {
                    outcome: Err(ParseErrorView::ExpectedNumberAfterPrintLine(other)),
                    end: pos + 2,
                },
            }
        },
        other => Parsed { outcome: Err(ParseErrorView::UnexpectedAfterPrint(other)), end: pos + 1 },
    }
}

/// One assignment whose target `name` stands at `pos`: `name = expression ;`.
pub open spec fn assignment(ts: Seq<TokenView>, pos: int, name: Seq<char>) -> Parsed<
    (Seq<char>, ExpressionView),
> {
    let equal = expect(ts, pos + 1, TokenView::Equal);
    match equal.outcome {
        Err(e) => Parsed { outcome: Err(e), end: equal.end },
        Ok(_) => {
            let value = expression(ts, pos + 2);
            match value.outcome {
                Err(e) => Parsed { outcome: Err(e), end: value.end },
                Ok(v) => {
                    let semi = expect(ts, value.end, TokenView::Semicolon);
                    Parsed {
                        outcome: match semi.outcome {
                            Ok(_) => Ok((name, v)),
                            Err(e) => Err(e),
                        },
                        end: semi.end,
                    }
                },
            }
        },
    }
}

/// The assignments of a transform block from `pos` on, up to and with
/// the closing brace and one semicolon behind it, if there is one. A
/// block that the end of the input cuts short is an error: its closing
/// brace is missing.
pub open spec fn assignments(ts: Seq<TokenView>, pos: int) -> Parsed<
    Seq<(Seq<char>, ExpressionView)>,
>
    decreases ts.len() - pos,
{
    match token_at(ts, pos) {
        None => Parsed {
            outcome: Err(
                ParseErrorView::ExpectedToken { expected: TokenView::RBrace, found: None },
            ),
            end: pos,
        },
        Some(TokenView::Comment(_)) => assignments(ts, pos + 1),
        Some(TokenView::RBrace) => Parsed {
            outcome: Ok(Seq::empty()),
            end: if token_at(ts, pos + 1) == Some(TokenView::Semicolon) {
                pos + 2
            } else {
                pos + 1
            },
        },
        Some(TokenView::Identifier(name)) => {
            let one = assignment(ts, pos, name);
            match one.outcome {
                Err(e) => Parsed { outcome: Err(e), end: one.end },
                Ok(pair) => {
                    proof {
                        lemma_assignment_end(ts, pos, name);
                    }
                    after(seq![pair], assignments(ts, one.end))
                },
            }
        },
        Some(other) => Parsed {
            outcome: Err(ParseErrorView::UnexpectedInTransform(other)),
            end: pos,
        },
    }
}

/// `transform` at `pos`, then an opening brace and the assignments.
pub open spec fn transform(ts: Seq<TokenView>, pos: int) -> Parsed<CommandView> {
    let brace = expect(ts, pos + 1, TokenView::LBrace);
    match brace.outcome {
        Err(e) => Parsed { outcome: Err(e), end: brace.end },
        Ok(_) => {
            let list = assignments(ts, pos + 2);
            Parsed {
                outcome: match list.outcome {
                    Ok(items) => Ok(CommandView::Transform(items)),
                    Err(e) => Err(e),
                },
                end: list.end,
            }
        },
    }
}

/// The command that starts with the token at `pos`; `None` where that
/// token starts no command.
pub open spec fn command(ts: Seq<TokenView>, pos: int) -> Option<Parsed<CommandView>> {
    match token_at(ts, pos) {
        Some(TokenView::Input) => Some(input(ts, pos)),
        Some(TokenView::Output) => Some(output(ts, pos)),
        Some(TokenView::Print) => Some(print(ts, pos)),
        Some(TokenView::Transform) => Some(transform(ts, pos)),
        _ => None,
    }
}

/// The commands from `pos` to the end of the input.
pub open spec fn commands(ts: Seq<TokenView>, pos: int) -> Parsed<Seq<CommandView>>
    decreases ts.len() - pos,
{
    match token_at(ts, pos) {
        None => Parsed { outcome: Ok(Seq::empty()), end: pos },
        Some(TokenView::Comment(_)) => commands(ts, pos + 1),
        Some(token) => match command(ts, pos) {
            None => Parsed {
                outcome: Err(ParseErrorView::UnexpectedInCommandPosition(token)),
                end: pos,
            },
            Some(one) => match one.outcome {
                Err(e) => Parsed { outcome: Err(e), end: one.end },
                Ok(c) => {
                    proof {
                        lemma_command_end(ts, pos);
                    }
                    after(seq![c], commands(ts, one.end))
                },
            },
        },
    }
}

/// The whole script that the tokens `ts` spell.
pub open spec fn script(ts: Seq<TokenView>) -> Result<Seq<CommandView>, ParseErrorView> {
    commands(ts, 0).outcome
}

// ---------------------------------------------------------------------
// Where things end
// ---------------------------------------------------------------------

/// Skipping comments moves forward and stays within the input.
pub proof fn lemma_skip_comments_bounds(ts: Seq<TokenView>, pos: int)
    requires
        0 <= pos <= ts.len(),
    ensures
        pos <= skip_comments(ts, pos) <= ts.len(),
    decreases ts.len() - pos,
{
    if token_at(ts, pos) is Some && token_at(ts, pos)->0 is Comment {
        lemma_skip_comments_bounds(ts, pos + 1);
    }
}

/// The rest of a field path ends at or behind where it starts, within
/// the input.
pub proof fn lemma_path_tail_end(ts: Seq<TokenView>, pos: int)
    requires
        0 <= pos <= ts.len(),
    ensures
        pos <= path_tail(ts, pos).1 <= ts.len(),
    decreases ts.len() - pos,
{
    if is_path_step(ts, pos) {
        lemma_path_tail_end(ts, pos + 2);
    }
}

/// A list of modifiers ends at or behind where it starts, within the
/// input.
pub proof fn lemma_modifiers_end(ts: Seq<TokenView>, pos: int)
    requires
        0 <= pos <= ts.len(),
    ensures
        pos <= modifiers(ts, pos).end <= ts.len(),
    decreases ts.len() - pos,
{
    if is_modifier_call(ts, pos) {
        match token_at(ts, pos + 3) {
            Some(TokenView::StringLiteral(text)) => {
                if token_at(ts, pos + 4) == Some(TokenView::RParen) {
                    lemma_modifiers_end(ts, pos + 5);
                }
            },
            _ => {},
        }
    }
}

/// A term that is recognised ends behind where it starts, within the
/// input; a failed one ends within the input too.
pub proof fn lemma_term_end(ts: Seq<TokenView>, pos: int)
    requires
        0 <= pos <= ts.len(),
    ensures
        pos <= term(ts, pos).end <= ts.len(),
        term(ts, pos).outcome is Ok ==> pos < term(ts, pos).end,
{
    match token_at(ts, pos) {
        Some(TokenView::Field(first)) => {
            lemma_path_tail_end(ts, pos + 1);
            lemma_modifiers_end(ts, path_tail(ts, pos + 1).1);
        },
        _ => {},
    }
}

/// The terms of an expression end within the input, and behind where
/// they start if they are recognised.
pub proof fn lemma_terms_end(ts: Seq<TokenView>, pos: int)
    requires
        0 <= pos <= ts.len(),
    ensures
        pos <= terms(ts, pos).end <= ts.len(),
        terms(ts, pos).outcome is Ok ==> pos < terms(ts, pos).end,
    decreases ts.len() - pos,
{
    let start = skip_comments(ts, pos);
    lemma_skip_comments_bounds(ts, pos);
    lemma_term_end(ts, start);
    let first = term(ts, start);
    if first.outcome is Ok {
        let behind = skip_comments(ts, first.end);
        lemma_skip_comments_bounds(ts, first.end);
        if token_at(ts, behind) == Some(TokenView::Plus) {
            lemma_terms_end(ts, behind + 1);
        }
    }
}

/// An assignment, recognised or not, ends behind its name, within the
/// input.
pub proof fn lemma_assignment_end(ts: Seq<TokenView>, pos: int, name: Seq<char>)
    requires
        0 <= pos < ts.len(),
    ensures
        pos < assignment(ts, pos, name).end <= ts.len(),
{
    if expect(ts, pos + 1, TokenView::Equal).outcome is Ok {
        lemma_terms_end(ts, pos + 2);
    }
}

/// The assignments of a block end at or behind where they start, within
/// the input.
pub proof fn lemma_assignments_end(ts: Seq<TokenView>, pos: int)
    requires
        0 <= pos <= ts.len(),
    ensures
        pos <= assignments(ts, pos).end <= ts.len(),
    decreases ts.len() - pos,
{
    match token_at(ts, pos) {
        Some(TokenView::Comment(_)) => {
            lemma_assignments_end(ts, pos + 1);
        },
        Some(TokenView::Identifier(name)) => {
            lemma_assignment_end(ts, pos, name);
            if assignment(ts, pos, name).outcome is Ok {
                lemma_assignments_end(ts, assignment(ts, pos, name).end);
            }
        },
        _ => {},
    }
}

/// A command ends behind its keyword, within the input.
pub proof fn lemma_command_end(ts: Seq<TokenView>, pos: int)
    requires
        0 <= pos <= ts.len(),
        command(ts, pos) is Some,
    ensures
        pos < command(ts, pos)->0.end <= ts.len(),
{
    if token_at(ts, pos) == Some(TokenView::Transform) {
        if expect(ts, pos + 1, TokenView::LBrace).outcome is Ok {
            lemma_assignments_end(ts, pos + 2);
        }
    }
}

/// A script that is recognised has been read to its end: nothing is
/// left over behind the last command.
pub proof fn lemma_commands_end(ts: Seq<TokenView>, pos: int)
    requires
        0 <= pos <= ts.len(),
    ensures
        pos <= commands(ts, pos).end <= ts.len(),
        commands(ts, pos).outcome is Ok ==> commands(ts, pos).end == ts.len(),
    decreases ts.len() - pos,
{
    match token_at(ts, pos) {
        None => {},
        Some(TokenView::Comment(_)) => {
            lemma_commands_end(ts, pos + 1);
        },
        Some(token) => {
            if command(ts, pos) is Some {
                lemma_command_end(ts, pos);
                if command(ts, pos)->0.outcome is Ok {
                    lemma_commands_end(ts, command(ts, pos)->0.end);
                }
            }
        },
    }
}

// ---------------------------------------------------------------------
// What the grammar guarantees
// ---------------------------------------------------------------------

/// A dot and a name start a modifier call if an opening parenthesis
/// follows them, and a path segment if it does not; never both.
pub proof fn lemma_dot_name(ts: Seq<TokenView>, pos: int)
    requires
        token_at(ts, pos) == Some(TokenView::Dot),
        token_at(ts, pos + 1) is Some,
        token_at(ts, pos + 1)->0 is Identifier,
    ensures
        is_modifier_call(ts, pos) <==> token_at(ts, pos + 2) == Some(TokenView::LParen),
        is_path_step(ts, pos) <==> !is_modifier_call(ts, pos),
{
}

/// A list of modifiers never fails: a malformed call ends it silently.
pub proof fn lemma_modifiers_never_fail(ts: Seq<TokenView>, pos: int)
    ensures
        modifiers(ts, pos).outcome is Ok,
    decreases ts.len() - pos,
{
    if is_modifier_call(ts, pos) {
        match token_at(ts, pos + 3) {
            Some(TokenView::StringLiteral(text)) => {
                if token_at(ts, pos + 4) == Some(TokenView::RParen) {
                    lemma_modifiers_never_fail(ts, pos + 5);
                }
            },
            _ => {},
        }
    }
}

/// A transform block that is recognised has its closing brace: it ends
/// behind a `}`, or behind the one `;` that may follow the `}`. A block
/// that the end of the input cuts short is rejected.
pub proof fn lemma_block_is_closed(ts: Seq<TokenView>, pos: int)
    requires
        0 <= pos <= ts.len(),
        assignments(ts, pos).outcome is Ok,
    ensures
        ({
            let end = assignments(ts, pos).end;
            ||| token_at(ts, end - 1) == Some(TokenView::RBrace)
            ||| (token_at(ts, end - 1) == Some(TokenView::Semicolon) && token_at(ts, end - 2)
                == Some(TokenView::RBrace))
        }),
    decreases ts.len() - pos,
{
    match token_at(ts, pos) {
        Some(TokenView::Comment(_)) => {
            lemma_block_is_closed(ts, pos + 1);
        },
        Some(TokenView::Identifier(name)) => {
            lemma_assignment_end(ts, pos, name);
            lemma_block_is_closed(ts, assignment(ts, pos, name).end);
        },
        _ => {},
    }
}

/// A term as the parser builds it: no `Concat`, a field path with at
/// least one segment, a field with modifiers with at least one of each.
pub open spec fn is_term(e: ExpressionView) -> bool {
    match e {
        ExpressionView::FieldPath(path) => path.len() > 0,
        ExpressionView::FieldWithModifiers(field) => field.path.len() > 0 && field.modifiers.len()
            > 0,
        ExpressionView::Concat(_) => false,
        _ => true,
    }
}

/// An expression as the parser builds it: a single term, or a `Concat`
/// of two or more terms.
pub open spec fn is_flat(e: ExpressionView) -> bool {
    match e {
        ExpressionView::Concat(parts) => {
            &&& parts.len() >= 2
            &&& forall|i: int| 0 <= i < parts.len() ==> is_term(#[trigger] parts[i])
        },
        _ => is_term(e),
    }
}

/// A term that is recognised is a term.
pub proof fn lemma_term_shape(ts: Seq<TokenView>, pos: int)
    ensures
        term(ts, pos).outcome is Ok ==> is_term(term(ts, pos).outcome->Ok_0),
{
}

/// The terms that are recognised are terms, and there is at least one.
pub proof fn lemma_terms_shape(ts: Seq<TokenView>, pos: int)
    requires
        terms(ts, pos).outcome is Ok,
    ensures
        terms(ts, pos).outcome->Ok_0.len() >= 1,
        forall|i: int|
            0 <= i < terms(ts, pos).outcome->Ok_0.len() ==> is_term(
                #[trigger] terms(ts, pos).outcome->Ok_0[i],
            ),
    decreases ts.len() - pos,
{
    let start = skip_comments(ts, pos);
    let first = term(ts, start);
    lemma_term_shape(ts, start);
    let behind = skip_comments(ts, first.end);
    if token_at(ts, behind) == Some(TokenView::Plus) {
        if 0 <= pos <= ts.len() {
            lemma_skip_comments_bounds(ts, pos);
            lemma_term_end(ts, start);
            lemma_skip_comments_bounds(ts, first.end);
        }
        lemma_terms_shape(ts, behind + 1);
    }
}

/// An expression that is recognised is a single term, which then stands
/// for itself, or a `Concat` of two or more terms.
pub proof fn lemma_expression_shape(ts: Seq<TokenView>, pos: int)
    requires
        expression(ts, pos).outcome is Ok,
    ensures
        is_flat(expression(ts, pos).outcome->Ok_0),
{
    lemma_terms_shape(ts, pos);
    let parts = terms(ts, pos).outcome->Ok_0;
    if parts.len() == 1 {
        assert(is_term(parts[0]));
    }
}

/// An expression as the parser builds it is well formed.
pub proof fn lemma_flat_is_well_formed(e: ExpressionView)
    requires
        is_flat(e),
    ensures
        well_formed_expression(e),
{
    match e {
        ExpressionView::Concat(parts) => {
            assert forall|i: int| 0 <= i < parts.len() implies well_formed_expression(
                #[trigger] parts[i],
            ) by {
                assert(is_term(parts[i]));
            }
        },
        _ => {},
    }
}

/// The assignments that are recognised hold well-formed expressions.
pub proof fn lemma_assignments_well_formed(ts: Seq<TokenView>, pos: int)
    requires
        assignments(ts, pos).outcome is Ok,
    ensures
        well_formed_assignments(assignments(ts, pos).outcome->Ok_0),
    decreases ts.len() - pos,
{
    match token_at(ts, pos) {
        Some(TokenView::Comment(_)) => {
            lemma_assignments_well_formed(ts, pos + 1);
        },
        Some(TokenView::Identifier(name)) => {
            let one = assignment(ts, pos, name);
            lemma_assignment_end(ts, pos, name);
            lemma_assignments_well_formed(ts, one.end);
            lemma_expression_shape(ts, pos + 2);
            lemma_flat_is_well_formed(one.outcome->Ok_0.1);
            let rest = assignments(ts, one.end).outcome->Ok_0;
            let all = seq![one.outcome->Ok_0] + rest;
            assert forall|i: int| 0 <= i < all.len() implies well_formed_expression(
                (#[trigger] all[i]).1,
            ) by {
                if i > 0 {
                    assert(all[i] == rest[i - 1]);
                }
            }
        },
        _ => {},
    }
}

/// Every command of a script that is recognised is well formed: the
/// evaluator can take each of its expressions.
pub proof fn lemma_commands_well_formed(ts: Seq<TokenView>, pos: int)
    requires
        commands(ts, pos).outcome is Ok,
    ensures
        forall|i: int|
            0 <= i < commands(ts, pos).outcome->Ok_0.len() ==> well_formed_command(
                #[trigger] commands(ts, pos).outcome->Ok_0[i],
            ),
    decreases ts.len() - pos,
{
    match token_at(ts, pos) {
        None => {},
        Some(TokenView::Comment(_)) => {
            lemma_commands_well_formed(ts, pos + 1);
        },
        Some(token) => {
            if command(ts, pos) is Some {
                let one = command(ts, pos)->0;
                lemma_command_end(ts, pos);
                lemma_commands_well_formed(ts, one.end);
                if token == TokenView::Transform {
                    lemma_assignments_well_formed(ts, pos + 2);
                }
                let rest = commands(ts, one.end).outcome->Ok_0;
                let all = seq![one.outcome->Ok_0] + rest;
                assert forall|i: int| 0 <= i < all.len() implies well_formed_command(
                    #[trigger] all[i],
                ) by {
                    if i > 0 {
                        assert(all[i] == rest[i - 1]);
                    }
                }
            }
        },
    }
}

// ---------------------------------------------------------------------
// Unknown characters
// ---------------------------------------------------------------------

/// None of the tokens from `from` up to `to` marks an unknown character.
pub open spec fn known(ts: Seq<TokenView>, from: int, to: int) -> bool {
    forall|i: int| from <= i < to && 0 <= i < ts.len() ==> !((#[trigger] ts[i]) is Unknown)
}

/// The comments that are skipped hold no unknown character.
pub proof fn lemma_skip_comments_known(ts: Seq<TokenView>, pos: int)
    requires
        0 <= pos <= ts.len(),
    ensures
        known(ts, pos, skip_comments(ts, pos)),
    decreases ts.len() - pos,
{
    if token_at(ts, pos) is Some && token_at(ts, pos)->0 is Comment {
        lemma_skip_comments_known(ts, pos + 1);
    }
}

/// The tokens of a path hold no unknown character.
pub proof fn lemma_path_tail_known(ts: Seq<TokenView>, pos: int)
    requires
        0 <= pos <= ts.len(),
    ensures
        known(ts, pos, path_tail(ts, pos).1),
    decreases ts.len() - pos,
{
    if is_path_step(ts, pos) {
        lemma_path_tail_known(ts, pos + 2);
    }
}

/// The tokens that a list of modifiers takes hold no unknown character.
pub proof fn lemma_modifiers_known(ts: Seq<TokenView>, pos: int)
    requires
        0 <= pos <= ts.len(),
    ensures
        known(ts, pos, modifiers(ts, pos).end),
    decreases ts.len() - pos,
{
    if is_modifier_call(ts, pos) {
        match token_at(ts, pos + 3) {
            Some(TokenView::StringLiteral(text)) => {
                if token_at(ts, pos + 4) == Some(TokenView::RParen) {
                    lemma_modifiers_known(ts, pos + 5);
                }
            },
            _ => {},
        }
    }
}

/// The tokens that a term takes hold no unknown character.
pub proof fn lemma_term_known(ts: Seq<TokenView>, pos: int)
    requires
        0 <= pos <= ts.len(),
    ensures
        known(ts, pos, term(ts, pos).end),
{
    match token_at(ts, pos) {
        Some(TokenView::Field(first)) => {
            lemma_path_tail_end(ts, pos + 1);
            lemma_path_tail_known(ts, pos + 1);
            lemma_modifiers_known(ts, path_tail(ts, pos + 1).1);
        },
        _ => {},
    }
}

/// The tokens that the terms of an expression take hold no unknown
/// character.
pub proof fn lemma_terms_known(ts: Seq<TokenView>, pos: int)
    requires
        0 <= pos <= ts.len(),
    ensures
        known(ts, pos, terms(ts, pos).end),
    decreases ts.len() - pos,
{
    let start = skip_comments(ts, pos);
    lemma_skip_comments_bounds(ts, pos);
    lemma_skip_comments_known(ts, pos);
    lemma_term_end(ts, start);
    lemma_term_known(ts, start);
    let first = term(ts, start);
    if first.outcome is Ok {
        let behind = skip_comments(ts, first.end);
        lemma_skip_comments_bounds(ts, first.end);
        lemma_skip_comments_known(ts, first.end);
        if token_at(ts, behind) == Some(TokenView::Plus) {
            lemma_terms_known(ts, behind + 1);
        }
    }
}

/// The tokens that the assignments of a block take hold no unknown
/// character.
pub proof fn lemma_assignments_known(ts: Seq<TokenView>, pos: int)
    requires
        0 <= pos <= ts.len(),
    ensures
        known(ts, pos, assignments(ts, pos).end),
    decreases ts.len() - pos,
{
    match token_at(ts, pos) {
        Some(TokenView::Comment(_)) => {
            lemma_assignments_known(ts, pos + 1);
        },
        Some(TokenView::Identifier(name)) => {
            lemma_assignment_end(ts, pos, name);
            if expect(ts, pos + 1, TokenView::Equal).outcome is Ok {
                lemma_terms_end(ts, pos + 2);
                lemma_terms_known(ts, pos + 2);
            }
            if assignment(ts, pos, name).outcome is Ok {
                lemma_assignments_known(ts, assignment(ts, pos, name).end);
            }
        },
        _ => {},
    }
}

/// The tokens that the commands take hold no unknown character.
pub proof fn lemma_commands_known(ts: Seq<TokenView>, pos: int)
    requires
        0 <= pos <= ts.len(),
    ensures
        known(ts, pos, commands(ts, pos).end),
    decreases ts.len() - pos,
{
    match token_at(ts, pos) {
        None => {},
        Some(TokenView::Comment(_)) => {
            lemma_commands_known(ts, pos + 1);
        },
        Some(token) => {
            if command(ts, pos) is Some {
                lemma_command_end(ts, pos);
                if token == TokenView::Transform && expect(ts, pos + 1, TokenView::LBrace).outcome
                    is Ok {
                    lemma_assignments_known(ts, pos + 2);
                }
                if command(ts, pos)->0.outcome is Ok {
                    lemma_commands_known(ts, command(ts, pos)->0.end);
                }
            }
        },
    }
}

/// A character that starts no token is never passed over: a script whose
/// tokens hold the mark of an unknown character is rejected.
pub proof fn lemma_unknown_is_rejected(ts: Seq<TokenView>, i: int)
    requires
        0 <= i < ts.len(),
        ts[i] is Unknown,
    ensures
        script(ts) is Err,
{
    lemma_commands_known(ts, 0);
    lemma_commands_end(ts, 0);
}

// ---------------------------------------------------------------------
// Joining partial results
// ---------------------------------------------------------------------

/// Nothing before a result leaves the result as it is.
pub proof fn lemma_after_nothing<T>(rest: Parsed<Seq<T>>)
    ensures
        after(Seq::empty(), rest) == rest,
{
    match rest.outcome {
        Ok(items) => {
            assert(Seq::<T>::empty() + items =~= items);
        },
        Err(_) => {},
    }
}

/// Putting `done` before `item` and the rest is putting `done` with
/// `item` before the rest.
pub proof fn lemma_after_one_more<T>(done: Seq<T>, item: T, rest: Parsed<Seq<T>>)
    ensures
        after(done, after(seq![item], rest)) == after(done.push(item), rest),
{
    match rest.outcome {
        Ok(items) => {
            assert(done + (seq![item] + items) =~= done.push(item) + items);
        },
        Err(_) => {},
    }
}

} // verus!
