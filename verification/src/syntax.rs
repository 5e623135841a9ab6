//! The syntax tree of a program.

use vstd::prelude::*;
use crate::lexer::{Lexeme, Token};

verus! {

/// A program: variables and functions.
#[derive(Debug)]
pub struct Program {
    pub decl: Vec<VarDeclaration>,
    pub fns: Vec<FnDeclaration>,
}

/// A variable, as in `const int my_variable = !(2+3)`.
#[derive(Debug)]
pub struct VarDeclaration {
    pub is_const: bool,
    pub type_token: Token,
    pub identifier: Token,
    pub value: Expr,
}

/// A function with its parameters and its body.
#[derive(Debug)]
pub struct FnDeclaration {
    pub return_type: Token,
    pub identifier: Token,
    pub params: Vec<Parameter>,
    pub body: Block,
}

/// A parameter of a function.
#[derive(Debug)]
pub struct Parameter {
    pub type_token: Token,
    pub identifier: Token,
}

/// A block of statements.
#[derive(Debug)]
pub struct Block {
    pub statements: Vec<Statement>,
}

/// A statement.
#[derive(Debug)]
pub enum Statement {
    Expression(Expr),
    VarDecl(VarDeclaration),
    /// The condition, what is done where it holds, and what is done where it does not.
    If(Box<Expr>, Box<Statement>, Option<Box<Statement>>),
    While(Box<Expr>, Box<Statement>),
    Return(Option<Box<Expr>>),
    Block(Block),
    Print(Box<Expr>),
    Break,
    Continue,
}

/// An expression.
#[derive(Debug)]
pub enum Expr {
    /// A leaf of the tree: a number or a string.
    Literal(Token),
    /// An operator and its operand, as in `!expression`.
    Unary(Token, Box<Expr>),
    /// Two operands and the operator between them, as in `2+3`.
    Binary(Box<Expr>, Token, Box<Expr>),
    /// An expression in parentheses.
    Parentheses(Box<Expr>),
    /// The name of a variable.
    Variable(Token),
    /// A function and the arguments it is called with.
    Call(Box<Expr>, Vec<Expr>),
}

/// An `Expr` as contracts see it.
pub enum ExprView {
    Literal(Lexeme),
    Unary(Lexeme, Box<ExprView>),
    Binary(Box<ExprView>, Lexeme, Box<ExprView>),
    Parentheses(Box<ExprView>),
    Variable(Lexeme),
    Call(Box<ExprView>, Seq<ExprView>),
}

/// A `VarDeclaration` as contracts see it.
pub struct VarDeclarationView {
    pub is_const: bool,
    pub type_token: Lexeme,
    pub identifier: Lexeme,
    pub value: ExprView,
}

/// A `Statement` as contracts see it.
pub enum StatementView {
    Expression(ExprView),
    VarDecl(VarDeclarationView),
    If(ExprView, Box<StatementView>, Option<Box<StatementView>>),
    While(ExprView, Box<StatementView>),
    Return(Option<ExprView>),
    Block(Seq<StatementView>),
    Print(ExprView),
    Break,
    Continue,
}

/// A `Parameter` as contracts see it.
pub struct ParameterView {
    pub type_token: Lexeme,
    pub identifier: Lexeme,
}

/// A `FnDeclaration` as contracts see it.
pub struct FnDeclarationView {
    pub return_type: Lexeme,
    pub identifier: Lexeme,
    pub params: Seq<ParameterView>,
    pub body: Seq<StatementView>,
}

/// A `Program` as contracts see it.
pub struct ProgramView {
    pub decl: Seq<VarDeclarationView>,
    pub fns: Seq<FnDeclarationView>,
}

impl Expr {
    /// The expression as contracts see it.
    pub open spec fn tree(&self) -> ExprView
        decreases self,
    {
        match self {
            Expr::Literal(token) => ExprView::Literal(token@),
            Expr::Unary(op, operand) => ExprView::Unary(op@, Box::new(operand.tree())),
            Expr::Binary(left, op, right) => ExprView::Binary(
                Box::new(left.tree()),
                op@,
                Box::new(right.tree()),
            ),
            Expr::Parentheses(inner) => ExprView::Parentheses(Box::new(inner.tree())),
            Expr::Variable(name) => ExprView::Variable(name@),
            Expr::Call(callee, args) => ExprView::Call(Box::new(callee.tree()), expr_views(args@)),
        }
    }
}

impl View for Expr {
    type V = ExprView;

    open spec fn view(&self) -> ExprView {
        self.tree()
    }
}

/// The expressions of a sequence, as contracts see them.
pub open spec fn expr_views(exprs: Seq<Expr>) -> Seq<ExprView>
    decreases exprs,
{
    if exprs.len() == 0 {
        Seq::empty()
    } else {
        expr_views(exprs.drop_last()).push(exprs.last().tree())
    }
}

impl View for VarDeclaration {
    type V = VarDeclarationView;

    open spec fn view(&self) -> VarDeclarationView {
        VarDeclarationView {
            is_const: self.is_const,
            type_token: self.type_token@,
            identifier: self.identifier@,
            value: self.value@,
        }
    }
}

impl Statement {
    /// The statement as contracts see it.
    pub open spec fn tree(&self) -> StatementView
        decreases self,
    {
        match self {
            Statement::Expression(e) => StatementView::Expression(e@),
            Statement::VarDecl(d) => StatementView::VarDecl(d@),
            Statement::If(condition, then_branch, else_branch) => StatementView::If(
                condition@,
                Box::new(then_branch.tree()),
                match else_branch {
                    Some(s) => Some(Box::new(s.tree())),
                    None => None,
                },
            ),
            Statement::While(condition, body) => StatementView::While(
                condition@,
                Box::new(body.tree()),
            ),
            Statement::Return(value) => StatementView::Return(
                match value {
                    Some(e) => Some(e@),
                    None => None,
                },
            ),
            Statement::Block(block) => StatementView::Block(statement_views(block.statements@)),
            Statement::Print(e) => StatementView::Print(e@),
            Statement::Break => StatementView::Break,
            Statement::Continue => StatementView::Continue,
        }
    }
}

impl View for Statement {
    type V = StatementView;

    open spec fn view(&self) -> StatementView {
        self.tree()
    }
}

/// The statements of a sequence, as contracts see them.
pub open spec fn statement_views(statements: Seq<Statement>) -> Seq<StatementView>
    decreases statements,
{
    if statements.len() == 0 {
        Seq::empty()
    } else {
        statement_views(statements.drop_last()).push(statements.last().tree())
    }
}

impl View for Block {
    type V = Seq<StatementView>;

    open spec fn view(&self) -> Seq<StatementView> {
        statement_views(self.statements@)
    }
}

impl View for Parameter {
    type V = ParameterView;

    open spec fn view(&self) -> ParameterView {
        ParameterView { type_token: self.type_token@, identifier: self.identifier@ }
    }
}

impl View for FnDeclaration {
    type V = FnDeclarationView;

    open spec fn view(&self) -> FnDeclarationView {
        FnDeclarationView {
            return_type: self.return_type@,
            identifier: self.identifier@,
            params: Seq::new(self.params@.len(), |i: int| self.params@[i]@),
            body: self.body@,
        }
    }
}

impl View for Program {
    type V = ProgramView;

    open spec fn view(&self) -> ProgramView {
        ProgramView {
            decl: Seq::new(self.decl@.len(), |i: int| self.decl@[i]@),
            fns: Seq::new(self.fns@.len(), |i: int| self.fns@[i]@),
        }
    }
}

/// Adding an expression to a sequence adds what it is seen as.
pub proof fn lemma_expr_views_push(exprs: Seq<Expr>, e: Expr)
    ensures
        expr_views(exprs.push(e)) == expr_views(exprs).push(e@),
{
    assert(exprs.push(e).drop_last() =~= exprs);
}

/// Adding a statement to a sequence adds what it is seen as.
pub proof fn lemma_statement_views_push(statements: Seq<Statement>, s: Statement)
    ensures
        statement_views(statements.push(s)) == statement_views(statements).push(s@),
{
    assert(statements.push(s).drop_last() =~= statements);
}

} // verus!
