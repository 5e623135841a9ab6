//! The parser: from tokens to the syntax tree of a program.
//!
//! The grammar is stated over positions in the tokens: each rule says what
//! it makes of the tokens from a position on and how many of them it takes.
//! Beyond the last token stands `Eof`, as it does at the end of the tokens.

use vstd::prelude::*;
use crate::lexer::{lexemes, Lexeme, Token};
use crate::syntax::{
    expr_views,
    lemma_expr_views_push,
    lemma_statement_views_push,
    statement_views,
    Block,
    Expr,
    ExprView,
    FnDeclaration,
    FnDeclarationView,
    Parameter,
    ParameterView,
    Program,
    ProgramView,
    Statement,
    StatementView,
    VarDeclaration,
    VarDeclarationView,
};

verus! {

/// Why a sequence of tokens is no program.
#[derive(Debug)]
pub enum ParserError {
    UnexpectedToken { found: Token, expected: Vec<Token> },
    UnexpectedEOF { expected: Vec<Token> },
    InvalidExpression,
}

/// A `ParserError` as contracts see it.
pub enum Failure {
    UnexpectedToken { found: Lexeme, expected: Seq<Lexeme> },
    UnexpectedEOF { expected: Seq<Lexeme> },
    InvalidExpression,
}

impl View for ParserError {
    type V = Failure;

    open spec fn view(&self) -> Failure {
        match self {
            ParserError::UnexpectedToken { found, expected } => Failure::UnexpectedToken {
                found: found@,
                expected: lexemes(expected@),
            },
            ParserError::UnexpectedEOF { expected } => Failure::UnexpectedEOF {
                expected: lexemes(expected@),
            },
            ParserError::InvalidExpression => Failure::InvalidExpression,
        }
    }
}

/// The token at the position `p`, or `Eof` where the tokens end before it.
pub open spec fn at(ts: Seq<Lexeme>, p: nat) -> Lexeme {
    if p < ts.len() {
        ts[p as int]
    } else {
        Lexeme::Eof
    }
}

/// The number of tokens from the position `p` on.
pub open spec fn remaining(ts: Seq<Lexeme>, p: nat) -> nat {
    if p < ts.len() {
        (ts.len() - p) as nat
    } else {
        0
    }
}

/// Whether the tokens are at their end at the position `p`.
pub open spec fn at_end(ts: Seq<Lexeme>, p: nat) -> bool {
    at(ts, p) == Lexeme::Eof
}

/// The number of tokens that are taken where `t` may stand and need not: one if it is there.
pub open spec fn skip(ts: Seq<Lexeme>, p: nat, t: Lexeme) -> nat {
    if at(ts, p) == t {
        1
    } else {
        0
    }
}

/// The number of tokens that are taken where `t` must stand, or what is wrong if it does not.
pub open spec fn expect(ts: Seq<Lexeme>, p: nat, t: Lexeme) -> Result<nat, Failure> {
    if at(ts, p) == t {
        Ok(1nat)
    } else if at_end(ts, p) {
        Err(Failure::UnexpectedEOF { expected: seq![t] })
    } else {
        Err(Failure::UnexpectedToken { found: at(ts, p), expected: seq![t] })
    }
}

/// Whether the token names a type.
pub open spec fn is_type(t: Lexeme) -> bool {
    t == Lexeme::Int || t == Lexeme::Char || t == Lexeme::Double || t == Lexeme::Void || t
        == Lexeme::Struct
}

/// What stands for "a name" in an error: what the name holds does not count.
pub open spec fn any_identifier() -> Lexeme {
    Lexeme::Identifier("placeholder"@)
}

/// What is expected where an operand must stand.
pub open spec fn operand_expected() -> Seq<Lexeme> {
    seq![
        Lexeme::Number("0"@),
        Lexeme::StringLiteral("placeholder"@),
        any_identifier(),
        Lexeme::LeftParen,
    ]
}

/// What is expected where a type must stand.
pub open spec fn type_expected() -> Seq<Lexeme> {
    seq![Lexeme::Int, Lexeme::Char, Lexeme::Double, Lexeme::Void, Lexeme::Struct]
}

/// Whether the operator joins operands at the level: `*` and `/` at level
/// 0, `+` and `-` at level 1, the comparisons at level 2, `!=` and `==` at level 3.
pub open spec fn joins(level: nat, t: Lexeme) -> bool {
    if level == 0 {
        t == Lexeme::Star || t == Lexeme::Slash
    } else if level == 1 {
        t == Lexeme::Plus || t == Lexeme::Minus
    } else if level == 2 {
        t == Lexeme::Greater || t == Lexeme::GreaterEqual || t == Lexeme::Less || t
            == Lexeme::LessEqual
    } else {
        t == Lexeme::BangEqual || t == Lexeme::EqualEqual
    }
}

/// An operand: a number, a string, a name, a call, or an expression in parentheses.
pub open spec fn primary(ts: Seq<Lexeme>, p: nat) -> Result<(ExprView, nat), Failure>
    decreases remaining(ts, p), 0nat,
{
    match at(ts, p) {
        Lexeme::Number(_) | Lexeme::StringLiteral(_) => Ok((ExprView::Literal(at(ts, p)), 1nat)),
        Lexeme::Identifier(_) => if at(ts, p + 1) == Lexeme::LeftParen {
            match arguments(ts, p + 2) {
                Ok((args, n)) => Ok(
                    (
                        ExprView::Call(Box::new(ExprView::Variable(at(ts, p))), args),
                        2 + n + skip(ts, p + 2 + n, Lexeme::RightParen),
                    ),
                ),
                Err(e) => Err(e),
            }
        } else {
            Ok((ExprView::Variable(at(ts, p)), 1nat))
        },
        Lexeme::LeftParen => match expression(ts, p + 1) {
            Ok((inner, n)) => Ok(
                (
                    ExprView::Parentheses(Box::new(inner)),
                    1 + n + skip(ts, p + 1 + n, Lexeme::RightParen),
                ),
            ),
            Err(e) => Err(e),
        },
        _ => Err(Failure::UnexpectedToken { found: at(ts, p), expected: operand_expected() }),
    }
}

/// An operand with any number of `!` and `-` before it.
pub open spec fn unary(ts: Seq<Lexeme>, p: nat) -> Result<(ExprView, nat), Failure>
    decreases remaining(ts, p), 1nat,
{
    if at(ts, p) == Lexeme::Bang || at(ts, p) == Lexeme::Minus {
        match unary(ts, p + 1) {
            Ok((operand, n)) => Ok((ExprView::Unary(at(ts, p), Box::new(operand)), 1 + n)),
            Err(e) => Err(e),
        }
    } else {
        primary(ts, p)
    }
}

/// What the operators of a level join: at level 0 operands with their
/// signs, at a higher level the expressions of the level below.
pub open spec fn operand(ts: Seq<Lexeme>, p: nat, level: nat) -> Result<(ExprView, nat), Failure>
    decreases remaining(ts, p), 3 * level + 2,
{
    if level == 0 {
        unary(ts, p)
    } else {
        binary(ts, p, (level - 1) as nat)
    }
}

/// The expressions of a level: operands of the level with the operators of
/// the level between them, joined from left to right.
pub open spec fn binary(ts: Seq<Lexeme>, p: nat, level: nat) -> Result<(ExprView, nat), Failure>
    decreases remaining(ts, p), 3 * level + 4,
{
    match operand(ts, p, level) {
        Ok((left, n)) => binary_rest(ts, p + n, level, left, n),
        Err(e) => Err(e),
    }
}

/// What follows the expression `left` at its level, `taken` tokens being taken already.
pub open spec fn binary_rest(ts: Seq<Lexeme>, p: nat, level: nat, left: ExprView, taken: nat) -> Result<
    (ExprView, nat),
    Failure,
>
    decreases remaining(ts, p), 3 * level + 3,
{
    if joins(level, at(ts, p)) {
        match operand(ts, p + 1, level) {
            Ok((right, n)) => binary_rest(
                ts, p + 1 + n,
                level,
                ExprView::Binary(Box::new(left), at(ts, p), Box::new(right)),
                taken + 1 + n,
            ),
            Err(e) => Err(e),
        }
    } else {
        Ok((left, taken))
    }
}

/// An expression of the highest level, or a name, `=` and the value it is given.
pub open spec fn assignment(ts: Seq<Lexeme>, p: nat) -> Result<(ExprView, nat), Failure>
    decreases remaining(ts, p), 20nat,
{
    match binary(ts, p, 3) {
        Ok((left, n)) => if at(ts, p + n) == Lexeme::Equal {
            match assignment(ts, p + n + 1) {
                Ok((value, m)) => if left is Variable {
                    Ok(
                        (
                            ExprView::Binary(Box::new(left), Lexeme::Equal, Box::new(value)),
                            n + 1 + m,
                        ),
                    )
                } else {
                    Err(Failure::InvalidExpression)
                },
                Err(e) => Err(e),
            }
        } else {
            Ok((left, n))
        },
        Err(e) => Err(e),
    }
}

/// An expression.
pub open spec fn expression(ts: Seq<Lexeme>, p: nat) -> Result<(ExprView, nat), Failure>
    decreases remaining(ts, p), 21nat,
{
    assignment(ts, p)
}

/// Expressions with commas between them, behind the expressions `done`.
pub open spec fn arguments_from(ts: Seq<Lexeme>, p: nat, done: Seq<ExprView>, taken: nat) -> Result<
    (Seq<ExprView>, nat),
    Failure,
>
    decreases remaining(ts, p), 22nat,
{
    match expression(ts, p) {
        Ok((e, n)) => if at(ts, p + n) == Lexeme::Comma {
            arguments_from(ts, p + n + 1, done.push(e), taken + n + 1)
        } else {
            Ok((done.push(e), taken + n))
        },
        Err(e) => Err(e),
    }
}

/// The arguments of a call: none before a closing parenthesis, else
/// expressions with commas between them.
pub open spec fn arguments(ts: Seq<Lexeme>, p: nat) -> Result<(Seq<ExprView>, nat), Failure>
    decreases remaining(ts, p), 23nat,
{
    if at(ts, p) == Lexeme::RightParen {
        Ok((Seq::empty(), 0nat))
    } else {
        arguments_from(ts, p, Seq::empty(), 0)
    }
}

/// A name, or what is wrong where none stands.
pub open spec fn identifier(ts: Seq<Lexeme>, p: nat) -> Result<(Lexeme, nat), Failure> {
    if at(ts, p) is Identifier {
        Ok((at(ts, p), 1nat))
    } else {
        Err(Failure::UnexpectedToken { found: at(ts, p), expected: seq![any_identifier()] })
    }
}

/// The type of a variable that is declared behind `const`, and the number
/// of tokens it takes: at the end of the tokens, `const` stands for the
/// type, and nothing is taken.
pub open spec fn const_type(ts: Seq<Lexeme>, p: nat) -> (Lexeme, nat) {
    if at_end(ts, p) {
        (Lexeme::Const, 0nat)
    } else {
        (at(ts, p), 1nat)
    }
}

/// The declaration of a variable from its name on: the name, `=`, the
/// value and a semicolon.
pub open spec fn variable_declaration(ts: Seq<Lexeme>, p: nat, is_const: bool, type_token: Lexeme) -> Result<
    (VarDeclarationView, nat),
    Failure,
> {
    match identifier(ts, p) {
        Ok((name, n1)) => match expect(ts, p + n1, Lexeme::Equal) {
            Ok(n2) => match expression(ts, p + n1 + n2) {
                Ok((value, n3)) => match expect(ts, p + n1 + n2 + n3, Lexeme::Semicolon) {
                    Ok(n4) => Ok(
                        (
                            VarDeclarationView { is_const, type_token, identifier: name, value },
                            n1 + n2 + n3 + n4,
                        ),
                    ),
                    Err(e) => Err(e),
                },
                Err(e) => Err(e),
            },
            Err(e) => Err(e),
        },
        Err(e) => Err(e),
    }
}

/// An expression that is a statement, with a semicolon that may be missing.
pub open spec fn expression_statement(ts: Seq<Lexeme>, p: nat) -> Result<(StatementView, nat), Failure> {
    match expression(ts, p) {
        Ok((e, n)) => Ok((StatementView::Expression(e), n + skip(ts, p + n, Lexeme::Semicolon))),
        Err(e) => Err(e),
    }
}

/// What follows `return`: a value, unless a semicolon comes first, and a
/// semicolon that may be missing.
pub open spec fn return_statement(ts: Seq<Lexeme>, p: nat) -> Result<(StatementView, nat), Failure> {
    if at(ts, p) == Lexeme::Semicolon {
        Ok((StatementView::Return(None), 1nat))
    } else {
        match expression(ts, p) {
            Ok((e, n)) => Ok(
                (StatementView::Return(Some(e)), n + skip(ts, p + n, Lexeme::Semicolon)),
            ),
            Err(e) => Err(e),
        }
    }
}

/// What follows `print`: an expression in parentheses and a semicolon, of
/// which every token but the expression may be missing.
pub open spec fn print_statement(ts: Seq<Lexeme>, p: nat) -> Result<(StatementView, nat), Failure> {
    let n0 = skip(ts, p, Lexeme::LeftParen);
    match expression(ts, p + n0) {
        Ok((e, n1)) => {
            let n2 = skip(ts, p + n0 + n1, Lexeme::RightParen);
            let n3 = skip(ts, p + n0 + n1 + n2, Lexeme::Semicolon);
            Ok((StatementView::Print(e), n0 + n1 + n2 + n3))
        },
        Err(e) => Err(e),
    }
}

/// A statement.
pub open spec fn statement(ts: Seq<Lexeme>, p: nat) -> Result<(StatementView, nat), Failure>
    decreases remaining(ts, p), 30nat,
{
    if at(ts, p) == Lexeme::If {
        match if_statement(ts, p + 1) {
            Ok((s, n)) => Ok((s, 1 + n)),
            Err(e) => Err(e),
        }
    } else if at(ts, p) == Lexeme::While {
        match while_statement(ts, p + 1) {
            Ok((s, n)) => Ok((s, 1 + n)),
            Err(e) => Err(e),
        }
    } else if at(ts, p) == Lexeme::Return {
        match return_statement(ts, p + 1) {
            Ok((s, n)) => Ok((s, 1 + n)),
            Err(e) => Err(e),
        }
    } else if at(ts, p) == Lexeme::Break {
        Ok((StatementView::Break, 1 + skip(ts, p + 1, Lexeme::Semicolon)))
    } else if at(ts, p) == Lexeme::Continue {
        Ok((StatementView::Continue, 1 + skip(ts, p + 1, Lexeme::Semicolon)))
    } else if at(ts, p) == Lexeme::Print {
        match print_statement(ts, p + 1) {
            Ok((s, n)) => Ok((s, 1 + n)),
            Err(e) => Err(e),
        }
    } else if at(ts, p) == Lexeme::LeftBrace {
        match block_body(ts, p + 1, Seq::empty(), 0) {
            Ok((statements, n)) => Ok((StatementView::Block(statements), 1 + n)),
            Err(e) => Err(e),
        }
    } else if is_type(at(ts, p)) {
        match variable_declaration(ts, p + 1, false, at(ts, p)) {
            Ok((d, n)) => Ok((StatementView::VarDecl(d), 1 + n)),
            Err(e) => Err(e),
        }
    } else {
        expression_statement(ts, p)
    }
}

/// The statements of a block behind the statements `done`, up to a closing
/// brace, which may be missing at the end of the tokens. Every statement
/// takes a token at least.
pub open spec fn block_body(ts: Seq<Lexeme>, p: nat, done: Seq<StatementView>, taken: nat) -> Result<
    (Seq<StatementView>, nat),
    Failure,
>
    decreases remaining(ts, p), 31nat,
{
    if at(ts, p) == Lexeme::RightBrace || at_end(ts, p) {
        Ok((done, taken + skip(ts, p, Lexeme::RightBrace)))
    } else {
        match statement(ts, p) {
            Ok((s, n)) => if n == 0 {
                Ok((done.push(s), taken))
            } else {
                block_body(ts, p + n, done.push(s), taken + n)
            },
            Err(e) => Err(e),
        }
    }
}

/// What follows `if`: a condition in parentheses that may be missing, a
/// statement, and behind `else` another.
pub open spec fn if_statement(ts: Seq<Lexeme>, p: nat) -> Result<(StatementView, nat), Failure>
    decreases remaining(ts, p), 32nat,
{
    let n0 = skip(ts, p, Lexeme::LeftParen);
    match expression(ts, p + n0) {
        Ok((condition, n1)) => {
            let n2 = skip(ts, p + n0 + n1, Lexeme::RightParen);
            match statement(ts, p + n0 + n1 + n2) {
                Ok((then_branch, n3)) => {
                    let n = n0 + n1 + n2 + n3;
                    if at(ts, p + n) == Lexeme::Else {
                        match statement(ts, p + n + 1) {
                            Ok((else_branch, n4)) => Ok(
                                (
                                    StatementView::If(
                                        condition,
                                        Box::new(then_branch),
                                        Some(Box::new(else_branch)),
                                    ),
                                    n + 1 + n4,
                                ),
                            ),
                            Err(e) => Err(e),
                        }
                    } else {
                        Ok((StatementView::If(condition, Box::new(then_branch), None), n))
                    }
                },
                Err(e) => Err(e),
            }
        },
        Err(e) => Err(e),
    }
}

/// What follows `while`: a condition in parentheses and a statement.
pub open spec fn while_statement(ts: Seq<Lexeme>, p: nat) -> Result<(StatementView, nat), Failure>
    decreases remaining(ts, p), 32nat,
{
    match expect(ts, p, Lexeme::LeftParen) {
        Ok(n0) => match expression(ts, p + n0) {
            Ok((condition, n1)) => match expect(ts, p + n0 + n1, Lexeme::RightParen) {
                Ok(n2) => match statement(ts, p + n0 + n1 + n2) {
                    Ok((body, n3)) => Ok(
                        (StatementView::While(condition, Box::new(body)), n0 + n1 + n2 + n3),
                    ),
                    Err(e) => Err(e),
                },
                Err(e) => Err(e),
            },
            Err(e) => Err(e),
        },
        Err(e) => Err(e),
    }
}

/// A block: an opening brace that may be missing, statements, and a closing brace.
pub open spec fn block(ts: Seq<Lexeme>, p: nat) -> Result<(Seq<StatementView>, nat), Failure> {
    let n0 = skip(ts, p, Lexeme::LeftBrace);
    match block_body(ts, p + n0, Seq::empty(), 0) {
        Ok((statements, n)) => Ok((statements, n0 + n)),
        Err(e) => Err(e),
    }
}

/// A type, or what is wrong where none stands.
pub open spec fn type_word(ts: Seq<Lexeme>, p: nat) -> Result<(Lexeme, nat), Failure> {
    if is_type(at(ts, p)) {
        Ok((at(ts, p), 1nat))
    } else {
        Err(Failure::UnexpectedToken { found: at(ts, p), expected: type_expected() })
    }
}

/// Parameters with commas between them, behind the parameters `done`.
pub open spec fn parameters_from(ts: Seq<Lexeme>, p: nat, done: Seq<ParameterView>, taken: nat) -> Result<
    (Seq<ParameterView>, nat),
    Failure,
>
    decreases remaining(ts, p),
{
    match type_word(ts, p) {
        Ok((type_token, n0)) => match identifier(ts, p + n0) {
            Ok((name, n1)) => {
                let all = done.push(ParameterView { type_token, identifier: name });
                if at(ts, p + n0 + n1) == Lexeme::Comma {
                    parameters_from(ts, p + n0 + n1 + 1, all, taken + n0 + n1 + 1)
                } else {
                    Ok((all, taken + n0 + n1))
                }
            },
            Err(e) => Err(e),
        },
        Err(e) => Err(e),
    }
}

/// The parameters of a function: none before a closing parenthesis, else
/// types and names with commas between them.
pub open spec fn parameters(ts: Seq<Lexeme>, p: nat) -> Result<(Seq<ParameterView>, nat), Failure> {
    if at(ts, p) == Lexeme::RightParen {
        Ok((Seq::empty(), 0nat))
    } else {
        parameters_from(ts, p, Seq::empty(), 0)
    }
}

/// The declaration of a function from its name on: the name, the
/// parameters in parentheses that may be missing, and the body.
pub open spec fn function_declaration(ts: Seq<Lexeme>, p: nat, return_type: Lexeme) -> Result<
    (FnDeclarationView, nat),
    Failure,
> {
    match identifier(ts, p) {
        Ok((name, n1)) => {
            let n2 = skip(ts, p + n1, Lexeme::LeftParen);
            match parameters(ts, p + n1 + n2) {
                Ok((params, n3)) => {
                    let n4 = skip(ts, p + n1 + n2 + n3, Lexeme::RightParen);
                    match block(ts, p + n1 + n2 + n3 + n4) {
                        Ok((body, n5)) => Ok(
                            (
                                FnDeclarationView { return_type, identifier: name, params, body },
                                n1 + n2 + n3 + n4 + n5,
                            ),
                        ),
                        Err(e) => Err(e),
                    }
                },
                Err(e) => Err(e),
            }
        },
        Err(e) => Err(e),
    }
}

/// Whether an opening parenthesis comes before any semicolon: what tells
/// the declaration of a function from that of a variable.
pub open spec fn paren_ahead(ts: Seq<Lexeme>, p: nat) -> bool
    decreases remaining(ts, p),
{
    if p >= ts.len() {
        false
    } else if ts[p as int] == Lexeme::LeftParen {
        true
    } else if ts[p as int] == Lexeme::Semicolon {
        false
    } else {
        paren_ahead(ts, p + 1)
    }
}

/// The declarations of a program behind those in `done`, up to the end of
/// the tokens. Behind `const` stands a variable; a type starts a function
/// where an opening parenthesis comes before any semicolon, and else a
/// variable. A token that starts no declaration is passed over.
pub open spec fn program_from(ts: Seq<Lexeme>, p: nat, done: ProgramView) -> Result<ProgramView, Failure>
    decreases remaining(ts, p),
{
    if at_end(ts, p) {
        Ok(done)
    } else if at(ts, p) == Lexeme::Const {
        let (type_token, n0) = const_type(ts, p + 1);
        match variable_declaration(ts, p + 1 + n0, true, type_token) {
            Ok((d, n)) => program_from(
                ts, p + 1 + n0 + n,
                ProgramView { decl: done.decl.push(d), fns: done.fns },
            ),
            Err(e) => Err(e),
        }
    } else if is_type(at(ts, p)) {
        if paren_ahead(ts, p) {
            match function_declaration(ts, p + 1, at(ts, p)) {
                Ok((f, n)) => program_from(
                    ts, p + 1 + n,
                    ProgramView { decl: done.decl, fns: done.fns.push(f) },
                ),
                Err(e) => Err(e),
            }
        } else {
            match variable_declaration(ts, p + 1, false, at(ts, p)) {
                Ok((d, n)) => program_from(
                    ts, p + 1 + n,
                    ProgramView { decl: done.decl.push(d), fns: done.fns },
                ),
                Err(e) => Err(e),
            }
        }
    } else {
        program_from(ts, p + 1, done)
    }
}

/// The program that the tokens state, or what is wrong with them.
pub open spec fn program(tokens: Seq<Lexeme>) -> Result<ProgramView, Failure> {
    program_from(tokens, 0, ProgramView { decl: Seq::empty(), fns: Seq::empty() })
}

/// The number of the kind of a token: what it is, whatever it holds.
pub open spec fn kind_of(t: Lexeme) -> u8 {
    match t {
        Lexeme::Identifier(_) => 0u8,
        Lexeme::StringLiteral(_) => 1u8,
        Lexeme::Number(_) => 2u8,
        Lexeme::LeftParen => 3u8,
        Lexeme::RightParen => 4u8,
        Lexeme::LeftBrace => 5u8,
        Lexeme::RightBrace => 6u8,
        Lexeme::Dot => 7u8,
        Lexeme::Comma => 8u8,
        Lexeme::Semicolon => 9u8,
        Lexeme::Plus => 10u8,
        Lexeme::Minus => 11u8,
        Lexeme::Star => 12u8,
        Lexeme::Slash => 13u8,
        Lexeme::Less => 14u8,
        Lexeme::LessEqual => 15u8,
        Lexeme::Equal => 16u8,
        Lexeme::EqualEqual => 17u8,
        Lexeme::Greater => 18u8,
        Lexeme::GreaterEqual => 19u8,
        Lexeme::Bang => 20u8,
        Lexeme::BangEqual => 21u8,
        Lexeme::Const => 22u8,
        Lexeme::Void => 23u8,
        Lexeme::Int => 24u8,
        Lexeme::Char => 25u8,
        Lexeme::Double => 26u8,
        Lexeme::Struct => 27u8,
        Lexeme::If => 28u8,
        Lexeme::Else => 29u8,
        Lexeme::Switch => 30u8,
        Lexeme::Case => 31u8,
        Lexeme::Default => 32u8,
        Lexeme::While => 33u8,
        Lexeme::For => 34u8,
        Lexeme::Do => 35u8,
        Lexeme::Return => 36u8,
        Lexeme::Break => 37u8,
        Lexeme::Continue => 38u8,
        Lexeme::Print => 39u8,
        Lexeme::Scan => 40u8,
        Lexeme::Eof => 41u8,
    }
}

/// Whether the token holds nothing and is not `Eof`: one of the fixed
/// tokens that the grammar asks for by name.
pub open spec fn plain(t: Lexeme) -> bool {
    kind_of(t) >= 3 && t != Lexeme::Eof
}

/// The number of the kind of a token.
fn kind(token: &Token) -> (k: u8)
    ensures
        k == kind_of(token@),
{
    match token {
        Token::Identifier(_) => 0,
        Token::StringLiteral(_) => 1,
        Token::Number(_) => 2,
        Token::LeftParen => 3,
        Token::RightParen => 4,
        Token::LeftBrace => 5,
        Token::RightBrace => 6,
        Token::Dot => 7,
        Token::Comma => 8,
        Token::Semicolon => 9,
        Token::Plus => 10,
        Token::Minus => 11,
        Token::Star => 12,
        Token::Slash => 13,
        Token::Less => 14,
        Token::LessEqual => 15,
        Token::Equal => 16,
        Token::EqualEqual => 17,
        Token::Greater => 18,
        Token::GreaterEqual => 19,
        Token::Bang => 20,
        Token::BangEqual => 21,
        Token::Const => 22,
        Token::Void => 23,
        Token::Int => 24,
        Token::Char => 25,
        Token::Double => 26,
        Token::Struct => 27,
        Token::If => 28,
        Token::Else => 29,
        Token::Switch => 30,
        Token::Case => 31,
        Token::Default => 32,
        Token::While => 33,
        Token::For => 34,
        Token::Do => 35,
        Token::Return => 36,
        Token::Break => 37,
        Token::Continue => 38,
        Token::Print => 39,
        Token::Scan => 40,
        Token::Eof => 41,
    }
}

/// What a result is seen as in contracts.
pub open spec fn seen<T: View>(r: Result<T, ParserError>) -> Result<T::V, Failure> {
    match r {
        Ok(value) => Ok(value@),
        Err(e) => Err(e@),
    }
}

/// Whether the result `r` and the positions before and behind it are what
/// the rule asks for: on success the tree of the rule, with as many tokens
/// taken as the rule takes, and on failure the failure of the rule.
pub open spec fn took<V>(rule: Result<(V, nat), Failure>, r: Result<V, Failure>, before: nat, after: nat) -> bool {
    match rule {
        Ok((tree, n)) => r == Ok::<V, Failure>(tree) && after == before + n,
        Err(e) => r == Err::<V, Failure>(e),
    }
}

/// Whether an `Eof` stands at or behind the position `from`.
pub open spec fn has_eof(tokens: Seq<Lexeme>, from: int) -> bool {
    exists|e: int| from <= e < tokens.len() && tokens[e] == Lexeme::Eof
}

/// The parameters of a vector, as contracts see them.
pub open spec fn parameter_views(params: Seq<Parameter>) -> Seq<ParameterView> {
    Seq::new(params.len(), |i: int| params[i]@)
}

/// A parser over a sequence of tokens.
pub struct Parser {
    tokens: Vec<Token>,
    current: usize,
}

impl Parser {
    #[verifier::type_invariant]
    spec fn sound(&self) -> bool {
        self.current < self.tokens@.len() && has_eof(lexemes(self.tokens@), self.current as int)
    }

    /// All the tokens.
    pub closed spec fn all(&self) -> Seq<Lexeme> {
        lexemes(self.tokens@)
    }

    /// The number of tokens that are taken.
    pub closed spec fn position(&self) -> nat {
        self.current as nat
    }

    /// A parser at the start of the tokens. An `Eof` ends what is parsed.
    pub fn new(tokens: Vec<Token>) -> (parser: Parser)
        requires
            has_eof(lexemes(tokens@), 0),
        ensures
            parser.all() == lexemes(tokens@),
            parser.position() == 0,
    {
        Parser { tokens, current: 0 }
    }

    /// The token at the front.
    fn peek(&self) -> (token: &Token)
        ensures
            token@ == at(self.all(), self.position()),
            self.position() < self.all().len(),
            (token@ != Lexeme::Eof) ==> has_eof(self.all(), self.position() as int + 1),
    {
        proof {
            use_type_invariant(self);
            let e = choose|e: int|
                self.current <= e < lexemes(self.tokens@).len() && lexemes(self.tokens@)[e]
                    == Lexeme::Eof;
            if self.tokens@[self.current as int]@ != Lexeme::Eof {
                assert(e >= self.current + 1);
            }
        }
        &self.tokens[self.current]
    }

    /// Whether the tokens are at their end.
    fn is_at_end(&self) -> (r: bool)
        ensures
            r == at_end(self.all(), self.position()),
    {
        kind(self.peek()) == kind(&Token::Eof)
    }

    /// Whether the token at the front is `token`.
    fn check(&self, token: &Token) -> (r: bool)
        requires
            plain(token@),
        ensures
            r == (at(self.all(), self.position()) == token@),
    {
        kind(self.peek()) == kind(token)
    }

    /// Takes the token at the front.
    fn advance(&mut self) -> (token: Token)
        requires
            !at_end(old(self).all(), old(self).position()),
        ensures
            token@ == at(old(self).all(), old(self).position()),
            final(self).all() == old(self).all(),
            final(self).position() == old(self).position() + 1,
            final(self).position() < final(self).all().len(),
    {
        let token = self.peek().copy();
        let count = self.tokens.len();
        self.current = self.current + 1;
        token
    }

    /// Takes `token` from the front if it is there.
    fn skip(&mut self, token: &Token)
        requires
            plain(token@),
        ensures
            final(self).all() == old(self).all(),
            final(self).position() == old(self).position() + skip(
                old(self).all(),
                old(self).position(),
                token@,
            ),
            final(self).position() < final(self).all().len(),
    {
        if self.check(token) {
            self.advance();
        } else {
            proof {
                use_type_invariant(&*self);
            }
        }
    }

    /// Takes `token` from the front, or says what stands there instead.
    fn consume(&mut self, token: &Token) -> (r: Result<(), ParserError>)
        requires
            plain(token@),
        ensures
            final(self).all() == old(self).all(),
            match expect(old(self).all(), old(self).position(), token@) {
                Ok(n) => r is Ok && final(self).position() == old(self).position() + n,
                Err(e) => r is Err && r->Err_0@ == e,
            },
            final(self).position() < final(self).all().len(),
    {
        proof {
            use_type_invariant(&*self);
        }
        if self.check(token) {
            self.advance();
            return Ok(());
        }
        let mut expected: Vec<Token> = Vec::new();
        expected.push(token.copy());
        assert(lexemes(expected@) =~= seq![token@]);
        if self.is_at_end() {
            return Err(ParserError::UnexpectedEOF { expected });
        }
        Err(ParserError::UnexpectedToken { found: self.peek().copy(), expected })
    }

    /// Whether the token at the front joins operands at the level.
    fn joins(&self, level: u8) -> (r: bool)
        ensures
            r == joins(level as nat, at(self.all(), self.position())),
    {
        let k = kind(self.peek());
        if level == 0 {
            k == kind(&Token::Star) || k == kind(&Token::Slash)
        } else if level == 1 {
            k == kind(&Token::Plus) || k == kind(&Token::Minus)
        } else if level == 2 {
            k == kind(&Token::Greater) || k == kind(&Token::GreaterEqual) || k == kind(&Token::Less)
                || k == kind(&Token::LessEqual)
        } else {
            k == kind(&Token::BangEqual) || k == kind(&Token::EqualEqual)
        }
    }

    /// Whether the token at the front names a type.
    fn check_type_token(&self) -> (r: bool)
        ensures
            r == is_type(at(self.all(), self.position())),
    {
        let k = kind(self.peek());
        k == kind(&Token::Int) || k == kind(&Token::Char) || k == kind(&Token::Double) || k == kind(
            &Token::Void,
        ) || k == kind(&Token::Struct)
    }

    /// Takes a name from the front, or says what stands there instead.
    fn consume_identifier(&mut self) -> (r: Result<Token, ParserError>)
        ensures
            final(self).all() == old(self).all(),
            final(self).position() < final(self).all().len(),
            took(
                identifier(old(self).all(), old(self).position()),
                seen(r),
                old(self).position(),
                final(self).position(),
            ),
    {
        proof {
            use_type_invariant(&*self);
        }
        if kind(self.peek()) == kind(&Token::Identifier(String::new())) {
            Ok(self.advance())
        } else {
            let mut expected: Vec<Token> = Vec::new();
            expected.push(Token::Identifier(String::from_str("placeholder")));
            assert(lexemes(expected@) =~= seq![any_identifier()]);
            Err(ParserError::UnexpectedToken { found: self.peek().copy(), expected })
        }
    }

    /// Takes a type from the front, or says what stands there instead.
    fn consume_type(&mut self) -> (r: Result<Token, ParserError>)
        ensures
            final(self).all() == old(self).all(),
            final(self).position() < final(self).all().len(),
            took(
                type_word(old(self).all(), old(self).position()),
                seen(r),
                old(self).position(),
                final(self).position(),
            ),
    {
        proof {
            use_type_invariant(&*self);
        }
        if self.check_type_token() {
            Ok(self.advance())
        } else {
            let mut expected: Vec<Token> = Vec::new();
            expected.push(Token::Int);
            expected.push(Token::Char);
            expected.push(Token::Double);
            expected.push(Token::Void);
            expected.push(Token::Struct);
            assert(lexemes(expected@) =~= type_expected());
            Err(ParserError::UnexpectedToken { found: self.peek().copy(), expected })
        }
    }

    /// An operand: a number, a string, a name, a call, or an expression in parentheses.
    fn primary(&mut self) -> (r: Result<Expr, ParserError>)
        ensures
            final(self).all() == old(self).all(),
            final(self).position() < final(self).all().len(),
            took(
                primary(old(self).all(), old(self).position()),
                seen(r),
                old(self).position(),
                final(self).position(),
            ),
            r is Ok ==> final(self).position() > old(self).position(),
        decreases remaining(old(self).all(), old(self).position()), 0nat,
    {
        proof {
            use_type_invariant(&*self);
        }
        let shape: u8 = match self.peek() {
            Token::Number(_) | Token::StringLiteral(_) => 0,
            Token::Identifier(_) => 1,
            Token::LeftParen => 2,
            _ => 3,
        };
        if shape == 0 {
            let token = self.advance();
            Ok(Expr::Literal(token))
        } else if shape == 1 {
            let identifier = self.advance();
            if self.check(&Token::LeftParen) {
                self.advance();
                let args = self.arguments()?;
                self.skip(&Token::RightParen);
                let callee = Expr::Variable(identifier);
                assert(callee@ == ExprView::Variable(identifier@));
                Ok(Expr::Call(Box::new(callee), args))
            } else {
                Ok(Expr::Variable(identifier))
            }
        } else if shape == 2 {
            self.advance();
            let inner = self.expression()?;
            self.skip(&Token::RightParen);
            Ok(Expr::Parentheses(Box::new(inner)))
        } else {
            let mut expected: Vec<Token> = Vec::new();
            expected.push(Token::Number(String::from_str("0")));
            expected.push(Token::StringLiteral(String::from_str("placeholder")));
            expected.push(Token::Identifier(String::from_str("placeholder")));
            expected.push(Token::LeftParen);
            assert(lexemes(expected@) =~= operand_expected());
            Err(ParserError::UnexpectedToken { found: self.peek().copy(), expected })
        }
    }

    /// An operand with any number of `!` and `-` before it.
    fn unary(&mut self) -> (r: Result<Expr, ParserError>)
        ensures
            final(self).all() == old(self).all(),
            final(self).position() < final(self).all().len(),
            took(
                unary(old(self).all(), old(self).position()),
                seen(r),
                old(self).position(),
                final(self).position(),
            ),
            r is Ok ==> final(self).position() > old(self).position(),
        decreases remaining(old(self).all(), old(self).position()), 1nat,
    {
        proof {
            use_type_invariant(&*self);
        }
        if self.check(&Token::Bang) || self.check(&Token::Minus) {
            let operator = self.advance();
            let right = self.unary()?;
            return Ok(Expr::Unary(operator, Box::new(right)));
        }
        self.primary()
    }

    /// What the operators of a level join.
    fn operand(&mut self, level: u8) -> (r: Result<Expr, ParserError>)
        requires
            level <= 3,
        ensures
            final(self).all() == old(self).all(),
            final(self).position() < final(self).all().len(),
            took(
                operand(old(self).all(), old(self).position(), level as nat),
                seen(r),
                old(self).position(),
                final(self).position(),
            ),
            r is Ok ==> final(self).position() > old(self).position(),
        decreases remaining(old(self).all(), old(self).position()), 3 * level + 2,
    {
        if level == 0 {
            self.unary()
        } else {
            self.binary(level - 1)
        }
    }

    /// The expressions of a level: operands of the level with the operators
    /// of the level between them, joined from left to right.
    fn binary(&mut self, level: u8) -> (r: Result<Expr, ParserError>)
        requires
            level <= 3,
        ensures
            final(self).all() == old(self).all(),
            final(self).position() < final(self).all().len(),
            took(
                binary(old(self).all(), old(self).position(), level as nat),
                seen(r),
                old(self).position(),
                final(self).position(),
            ),
            r is Ok ==> final(self).position() > old(self).position(),
        decreases remaining(old(self).all(), old(self).position()), 3 * level + 4,
    {
        proof {
            use_type_invariant(&*self);
        }
        let ghost ts = self.all();
        let ghost start = self.position();
        let mut expr = self.operand(level)?;
        loop
            invariant
                level <= 3,
                self.all() == ts,
                ts == old(self).all(),
                start == old(self).position(),
                start < ts.len(),
                start < self.position() < ts.len(),
                binary(ts, start, level as nat) == binary_rest(
                    ts,
                    self.position(),
                    level as nat,
                    expr@,
                    (self.position() - start) as nat,
                ),
            decreases remaining(ts, self.position()),
        {
            if !self.joins(level) {
                return Ok(expr);
            }
            let operator = self.advance();
            let right = self.operand(level)?;
            expr = Expr::Binary(Box::new(expr), operator, Box::new(right));
        }
    }

    /// An expression of the highest level, or a name, `=` and the value it is given.
    fn assignment(&mut self) -> (r: Result<Expr, ParserError>)
        ensures
            final(self).all() == old(self).all(),
            final(self).position() < final(self).all().len(),
            took(
                assignment(old(self).all(), old(self).position()),
                seen(r),
                old(self).position(),
                final(self).position(),
            ),
            r is Ok ==> final(self).position() > old(self).position(),
        decreases remaining(old(self).all(), old(self).position()), 20nat,
    {
        proof {
            use_type_invariant(&*self);
        }
        let expr = self.binary(3)?;
        if self.check(&Token::Equal) {
            let equals = self.advance();
            let value = self.assignment()?;
            return match expr {
                Expr::Variable(name) => Ok(
                    Expr::Binary(Box::new(Expr::Variable(name)), equals, Box::new(value)),
                ),
                _ => Err(ParserError::InvalidExpression),
            };
        }
        Ok(expr)
    }

    /// An expression.
    fn expression(&mut self) -> (r: Result<Expr, ParserError>)
        ensures
            final(self).all() == old(self).all(),
            final(self).position() < final(self).all().len(),
            took(
                expression(old(self).all(), old(self).position()),
                seen(r),
                old(self).position(),
                final(self).position(),
            ),
            r is Ok ==> final(self).position() > old(self).position(),
        decreases remaining(old(self).all(), old(self).position()), 21nat,
    {
        self.assignment()
    }

    /// The arguments of a call.
    fn arguments(&mut self) -> (r: Result<Vec<Expr>, ParserError>)
        ensures
            final(self).all() == old(self).all(),
            final(self).position() < final(self).all().len(),
            took(
                arguments(old(self).all(), old(self).position()),
                seen_exprs(r),
                old(self).position(),
                final(self).position(),
            ),
        decreases remaining(old(self).all(), old(self).position()), 23nat,
    {
        proof {
            use_type_invariant(&*self);
        }
        let ghost ts = self.all();
        let ghost start = self.position();
        let mut args: Vec<Expr> = Vec::new();
        if self.check(&Token::RightParen) {
            assert(expr_views(args@) =~= Seq::<ExprView>::empty());
            return Ok(args);
        }
        assert(expr_views(args@) =~= Seq::<ExprView>::empty());
        loop
            invariant
                self.all() == ts,
                ts == old(self).all(),
                start == old(self).position(),
                start <= self.position() < ts.len(),
                arguments(ts, start) == arguments_from(
                    ts,
                    self.position(),
                    expr_views(args@),
                    (self.position() - start) as nat,
                ),
            decreases remaining(ts, self.position()),
        {
            let e = self.expression()?;
            proof {
                lemma_expr_views_push(args@, e);
            }
            args.push(e);
            if !self.check(&Token::Comma) {
                return Ok(args);
            }
            self.advance();
        }
    }

    /// The declaration of a variable from its name on.
    fn variable_declaration(&mut self, is_const: bool, type_token: Token) -> (r: Result<
        VarDeclaration,
        ParserError,
    >)
        ensures
            final(self).all() == old(self).all(),
            final(self).position() < final(self).all().len(),
            took(
                variable_declaration(old(self).all(), old(self).position(), is_const, type_token@),
                seen(r),
                old(self).position(),
                final(self).position(),
            ),
    {
        let identifier = self.consume_identifier()?;
        self.consume(&Token::Equal)?;
        let value = self.expression()?;
        self.consume(&Token::Semicolon)?;
        Ok(VarDeclaration { is_const, type_token, identifier, value })
    }

    /// An expression that is a statement.
    fn expression_statement(&mut self) -> (r: Result<Statement, ParserError>)
        ensures
            final(self).all() == old(self).all(),
            final(self).position() < final(self).all().len(),
            took(
                expression_statement(old(self).all(), old(self).position()),
                seen(r),
                old(self).position(),
                final(self).position(),
            ),
            r is Ok ==> final(self).position() > old(self).position(),
    {
        let expr = self.expression()?;
        self.skip(&Token::Semicolon);
        Ok(Statement::Expression(expr))
    }

    /// What follows `return`.
    fn return_statement(&mut self) -> (r: Result<Statement, ParserError>)
        ensures
            final(self).all() == old(self).all(),
            final(self).position() < final(self).all().len(),
            took(
                return_statement(old(self).all(), old(self).position()),
                seen(r),
                old(self).position(),
                final(self).position(),
            ),
    {
        let value = if !self.check(&Token::Semicolon) {
            Some(Box::new(self.expression()?))
        } else {
            None
        };
        self.skip(&Token::Semicolon);
        Ok(Statement::Return(value))
    }

    /// What follows `print`.
    fn print_statement(&mut self) -> (r: Result<Statement, ParserError>)
        ensures
            final(self).all() == old(self).all(),
            final(self).position() < final(self).all().len(),
            took(
                print_statement(old(self).all(), old(self).position()),
                seen(r),
                old(self).position(),
                final(self).position(),
            ),
    {
        self.skip(&Token::LeftParen);
        let expr = self.expression()?;
        self.skip(&Token::RightParen);
        self.skip(&Token::Semicolon);
        Ok(Statement::Print(Box::new(expr)))
    }

    /// A statement.
    fn statement(&mut self) -> (r: Result<Statement, ParserError>)
        ensures
            final(self).all() == old(self).all(),
            final(self).position() < final(self).all().len(),
            took(
                statement(old(self).all(), old(self).position()),
                seen(r),
                old(self).position(),
                final(self).position(),
            ),
            r is Ok ==> final(self).position() > old(self).position(),
        decreases remaining(old(self).all(), old(self).position()), 30nat,
    {
        proof {
            use_type_invariant(&*self);
        }
        if self.check(&Token::If) {
            self.advance();
            self.if_statement()
        } else if self.check(&Token::While) {
            self.advance();
            self.while_statement()
        } else if self.check(&Token::Return) {
            self.advance();
            self.return_statement()
        } else if self.check(&Token::Break) {
            self.advance();
            self.skip(&Token::Semicolon);
            Ok(Statement::Break)
        } else if self.check(&Token::Continue) {
            self.advance();
            self.skip(&Token::Semicolon);
            Ok(Statement::Continue)
        } else if self.check(&Token::Print) {
            self.advance();
            self.print_statement()
        } else if self.check(&Token::LeftBrace) {
            self.advance();
            Ok(Statement::Block(self.block_body()?))
        } else if self.check_type_token() {
            let type_token = self.advance();
            Ok(Statement::VarDecl(self.variable_declaration(false, type_token)?))
        } else {
            self.expression_statement()
        }
    }

    /// The statements of a block up to its closing brace.
    fn block_body(&mut self) -> (r: Result<Block, ParserError>)
        ensures
            final(self).all() == old(self).all(),
            final(self).position() < final(self).all().len(),
            took(
                block_body(old(self).all(), old(self).position(), Seq::empty(), 0),
                seen(r),
                old(self).position(),
                final(self).position(),
            ),
        decreases remaining(old(self).all(), old(self).position()), 31nat,
    {
        proof {
            use_type_invariant(&*self);
        }
        let ghost ts = self.all();
        let ghost start = self.position();
        let mut statements: Vec<Statement> = Vec::new();
        assert(statement_views(statements@) =~= Seq::<StatementView>::empty());
        while !self.check(&Token::RightBrace) && !self.is_at_end()
            invariant
                self.all() == ts,
                ts == old(self).all(),
                start == old(self).position(),
                start <= self.position() < ts.len(),
                block_body(ts, start, Seq::empty(), 0) == block_body(
                    ts,
                    self.position(),
                    statement_views(statements@),
                    (self.position() - start) as nat,
                ),
            decreases remaining(ts, self.position()),
        {
            let s = self.statement()?;
            proof {
                lemma_statement_views_push(statements@, s);
            }
            statements.push(s);
        }
        self.skip(&Token::RightBrace);
        Ok(Block { statements })
    }

    /// What follows `if`.
    fn if_statement(&mut self) -> (r: Result<Statement, ParserError>)
        ensures
            final(self).all() == old(self).all(),
            final(self).position() < final(self).all().len(),
            took(
                if_statement(old(self).all(), old(self).position()),
                seen(r),
                old(self).position(),
                final(self).position(),
            ),
        decreases remaining(old(self).all(), old(self).position()), 32nat,
    {
        proof {
            use_type_invariant(&*self);
        }
        self.skip(&Token::LeftParen);
        let condition = self.expression()?;
        self.skip(&Token::RightParen);
        let then_branch = self.statement()?;
        let else_branch = if self.check(&Token::Else) {
            self.advance();
            Some(Box::new(self.statement()?))
        } else {
            None
        };
        Ok(Statement::If(Box::new(condition), Box::new(then_branch), else_branch))
    }

    /// What follows `while`.
    fn while_statement(&mut self) -> (r: Result<Statement, ParserError>)
        ensures
            final(self).all() == old(self).all(),
            final(self).position() < final(self).all().len(),
            took(
                while_statement(old(self).all(), old(self).position()),
                seen(r),
                old(self).position(),
                final(self).position(),
            ),
        decreases remaining(old(self).all(), old(self).position()), 32nat,
    {
        proof {
            use_type_invariant(&*self);
        }
        self.consume(&Token::LeftParen)?;
        let condition = self.expression()?;
        self.consume(&Token::RightParen)?;
        let body = self.statement()?;
        Ok(Statement::While(Box::new(condition), Box::new(body)))
    }

    /// A block: an opening brace that may be missing, statements, and a closing brace.
    fn block(&mut self) -> (r: Result<Block, ParserError>)
        ensures
            final(self).all() == old(self).all(),
            final(self).position() < final(self).all().len(),
            took(
                block(old(self).all(), old(self).position()),
                seen(r),
                old(self).position(),
                final(self).position(),
            ),
    {
        self.skip(&Token::LeftBrace);
        self.block_body()
    }

    /// The parameters of a function.
    fn parameters(&mut self) -> (r: Result<Vec<Parameter>, ParserError>)
        ensures
            final(self).all() == old(self).all(),
            final(self).position() < final(self).all().len(),
            took(
                parameters(old(self).all(), old(self).position()),
                seen_parameters(r),
                old(self).position(),
                final(self).position(),
            ),
    {
        proof {
            use_type_invariant(&*self);
        }
        let ghost ts = self.all();
        let ghost start = self.position();
        let mut params: Vec<Parameter> = Vec::new();
        assert(parameter_views(params@) =~= Seq::<ParameterView>::empty());
        if self.check(&Token::RightParen) {
            return Ok(params);
        }
        loop
            invariant
                self.all() == ts,
                ts == old(self).all(),
                start == old(self).position(),
                start <= self.position() < ts.len(),
                parameters(ts, start) == parameters_from(
                    ts,
                    self.position(),
                    parameter_views(params@),
                    (self.position() - start) as nat,
                ),
            decreases remaining(ts, self.position()),
        {
            let type_token = self.consume_type()?;
            let identifier = self.consume_identifier()?;
            let ghost before = params@;
            let param = Parameter { type_token, identifier };
            params.push(param);
            assert(parameter_views(params@) =~= parameter_views(before).push(param@));
            if !self.check(&Token::Comma) {
                return Ok(params);
            }
            self.advance();
        }
    }

    /// The declaration of a function from its name on.
    fn function_declaration(&mut self, return_type: Token) -> (r: Result<FnDeclaration, ParserError>)
        ensures
            final(self).all() == old(self).all(),
            final(self).position() < final(self).all().len(),
            took(
                function_declaration(old(self).all(), old(self).position(), return_type@),
                seen(r),
                old(self).position(),
                final(self).position(),
            ),
    {
        let identifier = self.consume_identifier()?;
        self.skip(&Token::LeftParen);
        let params = self.parameters()?;
        self.skip(&Token::RightParen);
        let body = self.block()?;
        assert(parameter_views(params@) =~= Seq::new(params@.len(), |i: int| params@[i]@));
        Ok(FnDeclaration { return_type, identifier, params, body })
    }

    /// Whether an opening parenthesis comes before any semicolon.
    fn peek_ahead_for_lparen(&self) -> (r: bool)
        ensures
            r == paren_ahead(self.all(), self.position()),
    {
        let mut i = self.current;
        while i < self.tokens.len()
            invariant
                self.current <= i,
                paren_ahead(self.all(), self.position()) == paren_ahead(self.all(), i as nat),
            decreases self.tokens@.len() - i,
        {
            let k = kind(&self.tokens[i]);
            if k == kind(&Token::LeftParen) {
                return true;
            }
            if k == kind(&Token::Semicolon) {
                return false;
            }
            i += 1;
        }
        false
    }

    /// Parses the tokens from the position of the parser on.
    pub fn parse(&mut self) -> (r: Result<Program, ParserError>)
        ensures
            final(self).all() == old(self).all(),
            seen(r) == program_from(
                old(self).all(),
                old(self).position(),
                ProgramView { decl: Seq::empty(), fns: Seq::empty() },
            ),
    {
        proof {
            use_type_invariant(&*self);
        }
        let ghost ts = self.all();
        let ghost start = self.position();
        let ghost empty = ProgramView { decl: Seq::empty(), fns: Seq::empty() };
        let mut declarations: Vec<VarDeclaration> = Vec::new();
        let mut functions: Vec<FnDeclaration> = Vec::new();
        proof {
            assert(declaration_views(declarations@) =~= Seq::<VarDeclarationView>::empty());
            assert(function_views(functions@) =~= Seq::<FnDeclarationView>::empty());
        }
        while !self.is_at_end()
            invariant
                self.all() == ts,
                ts == old(self).all(),
                start == old(self).position(),
                self.position() < ts.len(),
                empty == (ProgramView { decl: Seq::empty(), fns: Seq::empty() }),
                program_from(ts, start, empty) == program_from(
                    ts,
                    self.position(),
                    ProgramView {
                        decl: declaration_views(declarations@),
                        fns: function_views(functions@),
                    },
                ),
            decreases remaining(ts, self.position()),
        {
            let ghost before_d = declarations@;
            let ghost before_f = functions@;
            if self.check(&Token::Const) {
                self.advance();
                let type_token = if self.is_at_end() {
                    Token::Const
                } else {
                    self.advance()
                };
                let d = self.variable_declaration(true, type_token)?;
                declarations.push(d);
                assert(declaration_views(declarations@) =~= declaration_views(before_d).push(d@));
            } else if self.check_type_token() {
                if self.peek_ahead_for_lparen() {
                    let return_type = self.advance();
                    let f = self.function_declaration(return_type)?;
                    functions.push(f);
                    assert(function_views(functions@) =~= function_views(before_f).push(f@));
                } else {
                    let type_token = self.advance();
                    let d = self.variable_declaration(false, type_token)?;
                    declarations.push(d);
                    assert(declaration_views(declarations@) =~= declaration_views(before_d).push(
                        d@,
                    ));
                }
            } else {
                self.advance();
            }
        }
        let program = Program { decl: declarations, fns: functions };
        assert(program@.decl =~= declaration_views(declarations@));
        assert(program@.fns =~= function_views(functions@));
        Ok(program)
    }
}

/// The declarations of a vector, as contracts see them.
pub open spec fn declaration_views(decl: Seq<VarDeclaration>) -> Seq<VarDeclarationView> {
    Seq::new(decl.len(), |i: int| decl[i]@)
}

/// The functions of a vector, as contracts see them.
pub open spec fn function_views(fns: Seq<FnDeclaration>) -> Seq<FnDeclarationView> {
    Seq::new(fns.len(), |i: int| fns[i]@)
}

/// What a result that holds parameters is seen as in contracts.
pub open spec fn seen_parameters(r: Result<Vec<Parameter>, ParserError>) -> Result<
    Seq<ParameterView>,
    Failure,
> {
    match r {
        Ok(params) => Ok(parameter_views(params@)),
        Err(e) => Err(e@),
    }
}

/// Whether the tokens hold an `Eof`.
pub fn contains_eof(tokens: &Vec<Token>) -> (r: bool)
    ensures
        r == has_eof(lexemes(tokens@), 0),
{
    let mut i: usize = 0;
    while i < tokens.len()
        invariant
            i <= tokens@.len(),
            forall|e: int| 0 <= e < i ==> lexemes(tokens@)[e] != Lexeme::Eof,
        decreases tokens@.len() - i,
    {
        if kind(&tokens[i]) == kind(&Token::Eof) {
            assert(lexemes(tokens@)[i as int] == Lexeme::Eof);
            return true;
        }
        i += 1;
    }
    false
}

/// Parses a sequence of tokens that holds an `Eof`: the program that the
/// tokens up to the first `Eof` state, or what is wrong with them.
pub fn parse(tokens: Vec<Token>) -> (r: Result<Program, ParserError>)
    requires
        has_eof(lexemes(tokens@), 0),
    ensures
        seen(r) == program(lexemes(tokens@)),
{
    let mut parser = Parser::new(tokens);
    parser.parse()
}

/// What a result that holds expressions is seen as in contracts.
pub open spec fn seen_exprs(r: Result<Vec<Expr>, ParserError>) -> Result<Seq<ExprView>, Failure> {
    match r {
        Ok(exprs) => Ok(expr_views(exprs@)),
        Err(e) => Err(e@),
    }
}

} // verus!
