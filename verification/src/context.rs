//! Code generation: from the syntax tree of a function to abstract assembly.
//!
//! Every variable and every intermediate result has a temporary of its own.
//! A number literal must be written as a whole number in base ten.

use vstd::prelude::*;
use crate::assembly::{
    AbstractAssemblyInstruction,
    AsmLabel,
    BinaryOperator,
    Condition,
    Dest,
    Operand,
    UnaryOperator,
};
use crate::chars::{decimal_value, parse_decimal_wide};
use crate::lexer::Token;
use crate::syntax::{Expr, FnDeclaration, Parameter, Statement, VarDeclaration};

verus! {

/// Why a function cannot be translated.
#[derive(Debug, PartialEq, Eq)]
pub enum CodegenError {
    /// What a declaration names is no identifier.
    InvalidIdentifier,
    /// A statement of a kind that has no translation: a loop, a print, a break or a continue.
    UnsupportedStatement,
    /// A literal that is no whole number in base ten, or one that does not fit.
    InvalidLiteral,
    /// An operator that abstract assembly does not have.
    UnsupportedOperator,
    /// An assignment to what is no variable.
    InvalidAssignment,
    /// A variable that no declaration and no parameter introduces.
    UndefinedVariable { name: String },
    /// What stands for a variable is no identifier.
    InvalidVariable,
    /// A call of a function: calls have no translation.
    FunctionCall,
    /// No number is left for a temporary or a label.
    Exhausted,
}

/// The state of code generation for one function.
pub struct Context {
    /// The name of the function.
    pub name: String,
    /// The instructions that the function compiles into.
    pub instructions: Vec<AbstractAssemblyInstruction>,
    /// The least number that no temporary has yet.
    pub temp_counter: usize,
    /// The least number that no label has yet.
    pub label_counter: usize,
    /// The temporary of each variable, by the variable's name. A later entry hides an earlier one.
    pub var_to_temp: Vec<(String, usize)>,
}

/// A `Context` as contracts see it.
pub struct State {
    pub name: Seq<char>,
    pub instructions: Seq<AbstractAssemblyInstruction>,
    pub temps: usize,
    pub labels: usize,
    pub vars: Seq<(Seq<char>, usize)>,
}

impl View for Context {
    type V = State;

    open spec fn view(&self) -> State {
        State {
            name: self.name@,
            instructions: self.instructions@,
            temps: self.temp_counter,
            labels: self.label_counter,
            vars: Seq::new(
                self.var_to_temp@.len(),
                |i: int| (self.var_to_temp@[i].0@, self.var_to_temp@[i].1),
            ),
        }
    }
}

impl State {
    /// The state with one instruction more.
    pub open spec fn emit(self, instruction: AbstractAssemblyInstruction) -> State {
        State { instructions: self.instructions.push(instruction), ..self }
    }

    /// The state with one variable more.
    pub open spec fn bind(self, name: Seq<char>, temp: usize) -> State {
        State { vars: self.vars.push((name, temp)), ..self }
    }

    /// The state after a temporary is taken, and the temporary.
    pub open spec fn fresh_temp(self) -> Result<(State, usize), CodegenError> {
        if self.temps == usize::MAX {
            Err(CodegenError::Exhausted)
        } else {
            Ok((State { temps: (self.temps + 1) as usize, ..self }, self.temps))
        }
    }

    /// The state after a label is taken, and the label.
    pub open spec fn fresh_label(self) -> Result<(State, usize), CodegenError> {
        if self.labels == usize::MAX {
            Err(CodegenError::Exhausted)
        } else {
            Ok((State { labels: (self.labels + 1) as usize, ..self }, self.labels))
        }
    }
}

/// The temporary of the variable `name`: that of the last entry for the name.
pub open spec fn lookup(vars: Seq<(Seq<char>, usize)>, name: Seq<char>) -> Option<usize>
    decreases vars.len(),
{
    if vars.len() == 0 {
        None
    } else if vars.last().0 == name {
        Some(vars.last().1)
    } else {
        lookup(vars.drop_last(), name)
    }
}

/// The condition that a comparison operator asks for.
pub open spec fn condition_of(op: Token) -> Option<Condition> {
    match op {
        Token::Less => Some(Condition::Less),
        Token::Greater => Some(Condition::Greater),
        Token::EqualEqual => Some(Condition::Equal),
        Token::BangEqual => Some(Condition::NotEqual),
        Token::LessEqual => Some(Condition::LessOrEqual),
        Token::GreaterEqual => Some(Condition::GreaterOrEqual),
        _ => None,
    }
}

/// The operator of abstract assembly that an arithmetic operator stands for.
pub open spec fn binary_operator_of(op: Token) -> Option<BinaryOperator> {
    match op {
        Token::Plus => Some(BinaryOperator::Plus),
        Token::Minus => Some(BinaryOperator::Minus),
        Token::Star => Some(BinaryOperator::Star),
        Token::Slash => Some(BinaryOperator::Slash),
        _ => None,
    }
}

/// The operator of abstract assembly that a sign stands for.
pub open spec fn unary_operator_of(op: Token) -> Option<UnaryOperator> {
    match op {
        Token::Bang => Some(UnaryOperator::Bang),
        Token::Minus => Some(UnaryOperator::Minus),
        _ => None,
    }
}

/// The value of a number literal: the whole number that its text states in base ten.
pub open spec fn literal_value(text: Seq<char>) -> Option<i128> {
    match decimal_value(text) {
        Some(v) => if v <= i128::MAX {
            Some(v as i128)
        } else {
            None
        },
        None => None,
    }
}

/// The translation of an expression: the state behind it and the place of its value.
///
/// A number is a constant and a variable is its temporary. An operation
/// translates its operands from left to right, takes a temporary for its
/// result and emits one instruction; a comparison emits the comparison and
/// the setting of the result. An assignment moves the value into the
/// variable; its own value is a temporary that nothing is moved into.
pub open spec fn expr_code(s: State, e: Expr) -> Result<(State, Operand), CodegenError>
    decreases e,
{
    match e {
        Expr::Literal(Token::Number(text)) => match literal_value(text@) {
            Some(v) => Ok((s, Operand::Const(v))),
            None => Err(CodegenError::InvalidLiteral),
        },
        Expr::Literal(_) => Err(CodegenError::InvalidLiteral),
        Expr::Unary(op, src) => match expr_code(s, *src) {
            Ok((s1, operand)) => match s1.fresh_temp() {
                Ok((s2, t)) => match unary_operator_of(op) {
                    Some(o) => Ok(
                        (
                            s2.emit(
                                AbstractAssemblyInstruction::UnOp {
                                    op: o,
                                    dest: Dest::Temp(t),
                                    src: operand,
                                },
                            ),
                            Operand::Var(Dest::Temp(t)),
                        ),
                    ),
                    None => Err(CodegenError::UnsupportedOperator),
                },
                Err(e) => Err(e),
            },
            Err(e) => Err(e),
        },
        Expr::Binary(left, op, right) => match expr_code(s, *left) {
            Ok((s1, l)) => match expr_code(s1, *right) {
                Ok((s2, r)) => match s2.fresh_temp() {
                    Ok((s3, t)) => operation_code(s3, l, op, r, t),
                    Err(e) => Err(e),
                },
                Err(e) => Err(e),
            },
            Err(e) => Err(e),
        },
        Expr::Parentheses(inner) => expr_code(s, *inner),
        Expr::Variable(Token::Identifier(name)) => match lookup(s.vars, name@) {
            Some(t) => Ok((s, Operand::Var(Dest::Temp(t)))),
            None => Err(CodegenError::UndefinedVariable { name }),
        },
        Expr::Variable(_) => Err(CodegenError::InvalidVariable),
        Expr::Call(_, _) => Err(CodegenError::FunctionCall),
    }
}

/// The translation of an operation on two operands that are translated
/// already, with the temporary `t` for its result.
pub open spec fn operation_code(s: State, l: Operand, op: Token, r: Operand, t: usize) -> Result<
    (State, Operand),
    CodegenError,
> {
    let dest = Dest::Temp(t);
    if op == Token::Equal {
        match l {
            Operand::Var(target) => Ok(
                (s.emit(AbstractAssemblyInstruction::Mov { dest: target, src: r }), Operand::Var(dest)),
            ),
            _ => Err(CodegenError::InvalidAssignment),
        }
    } else {
        match condition_of(op) {
            Some(condition) => Ok(
                (
                    s.emit(AbstractAssemblyInstruction::Compare { left: l, right: r, condition }).emit(
                        AbstractAssemblyInstruction::SetIf { dest, condition },
                    ),
                    Operand::Var(dest),
                ),
            ),
            None => match binary_operator_of(op) {
                Some(o) => Ok(
                    (
                        s.emit(AbstractAssemblyInstruction::BinOp { op: o, dest, src1: l, src2: r }),
                        Operand::Var(dest),
                    ),
                ),
                None => Err(CodegenError::UnsupportedOperator),
            },
        }
    }
}

/// The translation of a condition: a comparison becomes a comparison and a
/// jump on its outcome, any other expression is compared with zero.
pub open spec fn condition_code(s: State, e: Expr, then_label: AsmLabel, else_label: AsmLabel) -> Result<
    State,
    CodegenError,
> {
    match e {
        Expr::Binary(left, op, right) => match condition_of(op) {
            Some(condition) => match expr_code(s, *left) {
                Ok((s1, l)) => match expr_code(s1, *right) {
                    Ok((s2, r)) => Ok(
                        s2.emit(
                            AbstractAssemblyInstruction::Compare { left: l, right: r, condition },
                        ).emit(
                            AbstractAssemblyInstruction::JmpCondition {
                                condition,
                                tgt_true: then_label,
                                tgt_false: else_label,
                            },
                        ),
                    ),
                    Err(e) => Err(e),
                },
                Err(e) => Err(e),
            },
            None => Err(CodegenError::UnsupportedOperator),
        },
        _ => match expr_code(s, e) {
            Ok((s1, result)) => Ok(
                s1.emit(
                    AbstractAssemblyInstruction::Compare {
                        left: result,
                        right: Operand::Const(0),
                        condition: Condition::NotEqual,
                    },
                ).emit(
                    AbstractAssemblyInstruction::JmpCondition {
                        condition: Condition::NotEqual,
                        tgt_true: then_label,
                        tgt_false: else_label,
                    },
                ),
            ),
            Err(e) => Err(e),
        },
    }
}

/// The translation of the declaration of a variable: the variable takes a
/// temporary, which it has from then on, and the value is moved into it.
pub open spec fn declaration_code(s: State, d: VarDeclaration) -> Result<State, CodegenError> {
    match d.identifier {
        Token::Identifier(name) => match s.fresh_temp() {
            Ok((s1, t)) => match expr_code(s1.bind(name@, t), d.value) {
                Ok((s2, src)) => Ok(
                    s2.emit(AbstractAssemblyInstruction::Mov { dest: Dest::Temp(t), src }),
                ),
                Err(e) => Err(e),
            },
            Err(e) => Err(e),
        },
        _ => Err(CodegenError::InvalidIdentifier),
    }
}

/// The labels of a conditional: one for the first branch, one for the end,
/// and one for the second branch where there is one; without it the second
/// label serves.
pub open spec fn branch_labels(s: State, has_else: bool) -> Result<
    (State, AsmLabel, AsmLabel, AsmLabel),
    CodegenError,
> {
    match s.fresh_label() {
        Ok((s1, then_label)) => match s1.fresh_label() {
            Ok((s2, end_label)) => if has_else {
                match s2.fresh_label() {
                    Ok((s3, else_label)) => Ok(
                        (s3, AsmLabel(then_label), AsmLabel(end_label), AsmLabel(else_label)),
                    ),
                    Err(e) => Err(e),
                }
            } else {
                Ok((s2, AsmLabel(then_label), AsmLabel(end_label), AsmLabel(end_label)))
            },
            Err(e) => Err(e),
        },
        Err(e) => Err(e),
    }
}

/// The translation of a statement.
pub open spec fn statement_code(s: State, st: Statement) -> Result<State, CodegenError>
    decreases st,
{
    match st {
        Statement::VarDecl(d) => declaration_code(s, d),
        Statement::If(condition, then_branch, else_branch) => match branch_labels(
            s,
            else_branch is Some,
        ) {
            Ok((s1, then_label, end_label, else_label)) => match condition_code(
                s1,
                *condition,
                then_label,
                else_label,
            ) {
                Ok(s2) => match statement_code(
                    s2.emit(AbstractAssemblyInstruction::Lbl(then_label)),
                    *then_branch,
                ) {
                    Ok(s3) => match else_branch {
                        Some(other) => match statement_code(
                            s3.emit(AbstractAssemblyInstruction::Jmp(end_label)).emit(
                                AbstractAssemblyInstruction::Lbl(else_label),
                            ),
                            *other,
                        ) {
                            Ok(s4) => Ok(s4.emit(AbstractAssemblyInstruction::Lbl(end_label))),
                            Err(e) => Err(e),
                        },
                        None => Ok(s3),
                    },
                    Err(e) => Err(e),
                },
                Err(e) => Err(e),
            },
            Err(e) => Err(e),
        },
        Statement::Block(block) => statements_code(s, block.statements@),
        Statement::Return(Some(value)) => match expr_code(s, *value) {
            Ok((s1, operand)) => Ok(s1.emit(AbstractAssemblyInstruction::Return(operand))),
            Err(e) => Err(e),
        },
        Statement::Return(None) => Ok(s.emit(AbstractAssemblyInstruction::ReturnVoid)),
        Statement::Expression(e) => match expr_code(s, e) {
            Ok((s1, _)) => Ok(s1),
            Err(e) => Err(e),
        },
        _ => Err(CodegenError::UnsupportedStatement),
    }
}

/// The translation of statements, one after the other.
pub open spec fn statements_code(s: State, sts: Seq<Statement>) -> Result<State, CodegenError>
    decreases sts,
{
    if sts.len() == 0 {
        Ok(s)
    } else {
        match statements_code(s, sts.drop_last()) {
            Ok(s1) => statement_code(s1, sts.last()),
            Err(e) => Err(e),
        }
    }
}

/// The state behind the parameters of a function: each parameter that has
/// a name takes a temporary.
pub open spec fn parameters_code(s: State, params: Seq<Parameter>) -> Result<State, CodegenError>
    decreases params.len(),
{
    if params.len() == 0 {
        Ok(s)
    } else {
        match parameters_code(s, params.drop_last()) {
            Ok(s1) => match params.last().identifier {
                Token::Identifier(name) => match s1.fresh_temp() {
                    Ok((s2, t)) => Ok(s2.bind(name@, t)),
                    Err(e) => Err(e),
                },
                _ => Ok(s1),
            },
            Err(e) => Err(e),
        }
    }
}

/// The translation of a function: its parameters, then the statements of its body.
pub open spec fn function_code(s: State, f: FnDeclaration) -> Result<State, CodegenError> {
    match parameters_code(s, f.params@) {
        Ok(s1) => statements_code(s1, f.body.statements@),
        Err(e) => Err(e),
    }
}

/// Whether the result and the state behind it are what the translation asks for.
pub open spec fn translated(rule: Result<State, CodegenError>, r: Result<(), CodegenError>, after: State) -> bool {
    match rule {
        Ok(s) => r is Ok && after == s,
        Err(e) => r == Err::<(), CodegenError>(e),
    }
}

/// Whether the result and the state behind it are what the translation of an expression asks for.
pub open spec fn evaluated(
    rule: Result<(State, Operand), CodegenError>,
    r: Result<Operand, CodegenError>,
    after: State,
) -> bool {
    match rule {
        Ok((s, operand)) => r == Ok::<Operand, CodegenError>(operand) && after == s,
        Err(e) => r == Err::<Operand, CodegenError>(e),
    }
}

/// The condition that a comparison operator asks for.
fn condition_for(op: &Token) -> (r: Option<Condition>)
    ensures
        r == condition_of(*op),
{
    match op {
        Token::Less => Some(Condition::Less),
        Token::Greater => Some(Condition::Greater),
        Token::EqualEqual => Some(Condition::Equal),
        Token::BangEqual => Some(Condition::NotEqual),
        Token::LessEqual => Some(Condition::LessOrEqual),
        Token::GreaterEqual => Some(Condition::GreaterOrEqual),
        _ => None,
    }
}

/// The operator of abstract assembly that an arithmetic operator stands for.
fn binary_operator_for(op: &Token) -> (r: Option<BinaryOperator>)
    ensures
        r == binary_operator_of(*op),
{
    match op {
        Token::Plus => Some(BinaryOperator::Plus),
        Token::Minus => Some(BinaryOperator::Minus),
        Token::Star => Some(BinaryOperator::Star),
        Token::Slash => Some(BinaryOperator::Slash),
        _ => None,
    }
}

/// The operator of abstract assembly that a sign stands for.
fn unary_operator_for(op: &Token) -> (r: Option<UnaryOperator>)
    ensures
        r == unary_operator_of(*op),
{
    match op {
        Token::Bang => Some(UnaryOperator::Bang),
        Token::Minus => Some(UnaryOperator::Minus),
        _ => None,
    }
}

/// The value of a number literal.
fn literal(text: &String) -> (r: Option<i128>)
    ensures
        r == literal_value(text@),
{
    match parse_decimal_wide(text.as_str()) {
        Some(v) => if v <= i128::MAX as u128 {
            Some(v as i128)
        } else {
            None
        },
        None => None,
    }
}

impl Context {
    /// The state before anything is translated.
    pub fn new(name: &str) -> (context: Context)
        ensures
            context@ == (State {
                name: name@,
                instructions: Seq::empty(),
                temps: 0,
                labels: 0,
                vars: Seq::empty(),
            }),
    {
        let context = Context {
            name: String::from_str(name),
            instructions: Vec::new(),
            temp_counter: 0,
            label_counter: 0,
            var_to_temp: Vec::new(),
        };
        assert(context@.vars =~= Seq::<(Seq<char>, usize)>::empty());
        context
    }

    /// Takes a temporary that is not in use.
    fn new_temp(&mut self) -> (r: Result<usize, CodegenError>)
        ensures
            match old(self)@.fresh_temp() {
                Ok((s, t)) => r == Ok::<usize, CodegenError>(t) && final(self)@ == s,
                Err(e) => r == Err::<usize, CodegenError>(e),
            },
    {
        if self.temp_counter == usize::MAX {
            return Err(CodegenError::Exhausted);
        }
        let temp = self.temp_counter;
        self.temp_counter = self.temp_counter + 1;
        Ok(temp)
    }

    /// Takes a label that is not in use.
    fn new_label(&mut self) -> (r: Result<usize, CodegenError>)
        ensures
            match old(self)@.fresh_label() {
                Ok((s, l)) => r == Ok::<usize, CodegenError>(l) && final(self)@ == s,
                Err(e) => r == Err::<usize, CodegenError>(e),
            },
    {
        if self.label_counter == usize::MAX {
            return Err(CodegenError::Exhausted);
        }
        let label = self.label_counter;
        self.label_counter = self.label_counter + 1;
        Ok(label)
    }

    /// Adds an instruction.
    fn push(&mut self, instruction: AbstractAssemblyInstruction)
        ensures
            final(self)@ == old(self)@.emit(instruction),
    {
        self.instructions.push(instruction);
    }

    /// Gives the variable `name` the temporary `temp`.
    fn bind(&mut self, name: &String, temp: usize)
        ensures
            final(self)@ == old(self)@.bind(name@, temp),
    {
        self.var_to_temp.push((name.clone(), temp));
        assert(self@.vars =~= old(self)@.vars.push((name@, temp)));
    }

    /// The temporary of the variable `name`.
    fn find(&self, name: &String) -> (r: Option<usize>)
        ensures
            r == lookup(self@.vars, name@),
    {
        let ghost vars = self@.vars;
        let mut i = self.var_to_temp.len();
        assert(vars.subrange(0, i as int) =~= vars);
        while i > 0
            invariant
                i <= self.var_to_temp@.len(),
                vars == self@.vars,
                lookup(vars, name@) == lookup(vars.subrange(0, i as int), name@),
            decreases i,
        {
            i -= 1;
            proof {
                let part = vars.subrange(0, i + 1);
                assert(part.last() == vars[i as int]);
                assert(part.drop_last() =~= vars.subrange(0, i as int));
            }
            if self.var_to_temp[i].0 == *name {
                return Some(self.var_to_temp[i].1);
            }
        }
        None
    }

    /// Translates a function: a temporary for each parameter, then the statements of the body.
    pub fn generate(&mut self, fn_declaration: &FnDeclaration) -> (r: Result<(), CodegenError>)
        ensures
            translated(function_code(old(self)@, *fn_declaration), r, final(self)@),
    {
        let ghost start = self@;
        let ghost params = fn_declaration.params@;
        let mut i: usize = 0;
        assert(params.subrange(0, 0) =~= Seq::<Parameter>::empty());
        while i < fn_declaration.params.len()
            invariant
                i <= fn_declaration.params@.len(),
                params == fn_declaration.params@,
                start == old(self)@,
                parameters_code(start, params.subrange(0, i as int)) == Ok::<State, CodegenError>(self@),
            decreases fn_declaration.params@.len() - i,
        {
            proof {
                let part = params.subrange(0, i + 1);
                assert(part.drop_last() =~= params.subrange(0, i as int));
                assert(part.last() == params[i as int]);
            }
            match &fn_declaration.params[i].identifier {
                Token::Identifier(param_name) => {
                    match self.new_temp() {
                        Ok(dest_temp) => {
                            self.bind(param_name, dest_temp);
                        },
                        Err(e) => {
                            proof {
                                lemma_parameters_fail(start, params, i + 1, e);
                            }
                            return Err(e);
                        },
                    }
                },
                _ => {},
            }
            i += 1;
        }
        assert(params.subrange(0, i as int) =~= params);
        self.generate_statements(&fn_declaration.body.statements)
    }

    /// Translates statements, one after the other.
    fn generate_statements(&mut self, statements: &Vec<Statement>) -> (r: Result<(), CodegenError>)
        ensures
            translated(statements_code(old(self)@, statements@), r, final(self)@),
        decreases statements, 1nat,
    {
        let ghost start = self@;
        let ghost sts = statements@;
        let mut i: usize = 0;
        assert(sts.subrange(0, 0) =~= Seq::<Statement>::empty());
        while i < statements.len()
            invariant
                i <= statements@.len(),
                sts == statements@,
                start == old(self)@,
                statements_code(start, sts.subrange(0, i as int)) == Ok::<State, CodegenError>(self@),
            decreases statements@.len() - i,
        {
            proof {
                let part = sts.subrange(0, i + 1);
                assert(part.drop_last() =~= sts.subrange(0, i as int));
                assert(part.last() == sts[i as int]);
            }
            match self.generate_statement(&statements[i]) {
                Ok(_) => {},
                Err(e) => {
                    proof {
                        lemma_statements_fail(start, sts, i + 1, e);
                    }
                    return Err(e);
                },
            }
            i += 1;
        }
        assert(sts.subrange(0, i as int) =~= sts);
        Ok(())
    }

    /// Translates a statement.
    fn generate_statement(&mut self, statement: &Statement) -> (r: Result<(), CodegenError>)
        ensures
            translated(statement_code(old(self)@, *statement), r, final(self)@),
        decreases statement, 0nat,
    {
        match statement {
            Statement::VarDecl(declr) => {
                match &declr.identifier {
                    Token::Identifier(varname) => {
                        let dest_temp = self.new_temp()?;
                        self.bind(varname, dest_temp);
                        let dest = Dest::Temp(dest_temp);
                        let src = self.generate_expr(&declr.value)?;
                        self.push(AbstractAssemblyInstruction::Mov { dest, src });
                        Ok(())
                    },
                    _ => Err(CodegenError::InvalidIdentifier),
                }
            },
            Statement::If(condition_expr, then_branch, else_branch) => {
                let has_else = else_branch.is_some();
                // The condition: where it does not hold, control jumps past
                // the first branch; where it holds, it falls into it.
                let then_label = AsmLabel(self.new_label()?);
                let end_label = AsmLabel(self.new_label()?);
                let else_label = if has_else {
                    AsmLabel(self.new_label()?)
                } else {
                    end_label
                };
                self.generate_condition(condition_expr, then_label, else_label)?;
                // The first branch: with a second branch behind it, it ends
                // with a jump to the end.
                self.push(AbstractAssemblyInstruction::Lbl(then_label));
                self.generate_statement(then_branch)?;
                match else_branch {
                    Some(other) => {
                        self.push(AbstractAssemblyInstruction::Jmp(end_label));
                        self.push(AbstractAssemblyInstruction::Lbl(else_label));
                        self.generate_statement(other)?;
                        self.push(AbstractAssemblyInstruction::Lbl(end_label));
                    },
                    None => {},
                }
                Ok(())
            },
            Statement::Block(block) => self.generate_statements(&block.statements),
            Statement::Return(value) => {
                match value {
                    Some(expr) => {
                        let operand = self.generate_expr(expr)?;
                        self.push(AbstractAssemblyInstruction::Return(operand));
                    },
                    None => {
                        self.push(AbstractAssemblyInstruction::ReturnVoid);
                    },
                }
                Ok(())
            },
            Statement::Expression(expr) => {
                self.generate_expr(expr)?;
                Ok(())
            },
            _ => Err(CodegenError::UnsupportedStatement),
        }
    }

    /// Translates a condition.
    fn generate_condition(&mut self, condition_expr: &Expr, then_label: AsmLabel, else_label: AsmLabel) -> (r:
        Result<(), CodegenError>)
        ensures
            translated(
                condition_code(old(self)@, *condition_expr, then_label, else_label),
                r,
                final(self)@,
            ),
    {
        match condition_expr {
            Expr::Binary(left, op, right) => {
                let condition = match condition_for(op) {
                    Some(c) => c,
                    None => {
                        return Err(CodegenError::UnsupportedOperator);
                    },
                };
                let left_op = self.generate_expr(left)?;
                let right_op = self.generate_expr(right)?;
                self.push(
                    AbstractAssemblyInstruction::Compare { left: left_op, right: right_op, condition },
                );
                self.push(
                    AbstractAssemblyInstruction::JmpCondition {
                        condition,
                        tgt_true: then_label,
                        tgt_false: else_label,
                    },
                );
                Ok(())
            },
            other_expr => {
                let result = self.generate_expr(other_expr)?;
                // The result is a truth value: 0 is false, anything else is true.
                self.push(
                    AbstractAssemblyInstruction::Compare {
                        left: result,
                        right: Operand::Const(0),
                        condition: Condition::NotEqual,
                    },
                );
                self.push(
                    AbstractAssemblyInstruction::JmpCondition {
                        condition: Condition::NotEqual,
                        tgt_true: then_label,
                        tgt_false: else_label,
                    },
                );
                Ok(())
            },
        }
    }

    /// Translates an expression. Returns the place that holds its value.
    fn generate_expr(&mut self, expr: &Expr) -> (r: Result<Operand, CodegenError>)
        ensures
            evaluated(expr_code(old(self)@, *expr), r, final(self)@),
        decreases expr,
    {
        match expr {
            Expr::Literal(token) => match token {
                Token::Number(text) => match literal(text) {
                    Some(v) => Ok(Operand::Const(v)),
                    None => Err(CodegenError::InvalidLiteral),
                },
                _ => Err(CodegenError::InvalidLiteral),
            },
            Expr::Unary(op, src) => {
                let src_operand = self.generate_expr(src)?;
                let dest_temp = self.new_temp()?;
                let dest = Dest::Temp(dest_temp);
                match unary_operator_for(op) {
                    Some(o) => {
                        self.push(AbstractAssemblyInstruction::UnOp { op: o, dest, src: src_operand });
                        Ok(Operand::Var(Dest::Temp(dest_temp)))
                    },
                    None => Err(CodegenError::UnsupportedOperator),
                }
            },
            Expr::Binary(left, op, right) => {
                let left_operand = self.generate_expr(left)?;
                let right_operand = self.generate_expr(right)?;
                let dest_temp = self.new_temp()?;
                let dest = Dest::Temp(dest_temp);
                let assigns = match op {
                    Token::Equal => true,
                    _ => false,
                };
                if assigns {
                    return match left_operand {
                        Operand::Var(left_dest) => {
                            self.push(
                                AbstractAssemblyInstruction::Mov { dest: left_dest, src: right_operand },
                            );
                            Ok(Operand::Var(dest))
                        },
                        _ => Err(CodegenError::InvalidAssignment),
                    };
                }
                match condition_for(op) {
                    Some(condition) => {
                        self.push(
                            AbstractAssemblyInstruction::Compare {
                                left: left_operand,
                                right: right_operand,
                                condition,
                            },
                        );
                        self.push(AbstractAssemblyInstruction::SetIf { dest, condition });
                        Ok(Operand::Var(dest))
                    },
                    None => match binary_operator_for(op) {
                        Some(o) => {
                            self.push(
                                AbstractAssemblyInstruction::BinOp {
                                    op: o,
                                    dest,
                                    src1: left_operand,
                                    src2: right_operand,
                                },
                            );
                            Ok(Operand::Var(dest))
                        },
                        None => Err(CodegenError::UnsupportedOperator),
                    },
                }
            },
            Expr::Parentheses(inner) => self.generate_expr(inner),
            Expr::Variable(token) => match token {
                Token::Identifier(varname) => match self.find(varname) {
                    Some(temp) => Ok(Operand::Var(Dest::Temp(temp))),
                    None => Err(CodegenError::UndefinedVariable { name: varname.clone() }),
                },
                _ => Err(CodegenError::InvalidVariable),
            },
            Expr::Call(identifier, args) => self.generate_function_call(identifier, args),
        }
    }

    /// Calls have no translation.
    fn generate_function_call(&mut self, identifier: &Expr, args: &Vec<Expr>) -> (r: Result<
        Operand,
        CodegenError,
    >)
        ensures
            final(self)@ == old(self)@,
            r == Err::<Operand, CodegenError>(CodegenError::FunctionCall),
    {
        Err(CodegenError::FunctionCall)
    }
}

/// The failure of a parameter is the failure of all the parameters.
proof fn lemma_parameters_fail(s: State, params: Seq<Parameter>, m: int, e: CodegenError)
    requires
        0 <= m <= params.len(),
        parameters_code(s, params.subrange(0, m)) == Err::<State, CodegenError>(e),
    ensures
        parameters_code(s, params) == Err::<State, CodegenError>(e),
    decreases params.len() - m,
{
    if m < params.len() {
        assert(params.subrange(0, m + 1).drop_last() =~= params.subrange(0, m));
        lemma_parameters_fail(s, params, m + 1, e);
    } else {
        assert(params.subrange(0, m) =~= params);
    }
}

/// The failure of a statement is the failure of all the statements.
proof fn lemma_statements_fail(s: State, sts: Seq<Statement>, m: int, e: CodegenError)
    requires
        0 <= m <= sts.len(),
        statements_code(s, sts.subrange(0, m)) == Err::<State, CodegenError>(e),
    ensures
        statements_code(s, sts) == Err::<State, CodegenError>(e),
    decreases sts.len() - m,
{
    if m < sts.len() {
        assert(sts.subrange(0, m + 1).drop_last() =~= sts.subrange(0, m));
        lemma_statements_fail(s, sts, m + 1, e);
    } else {
        assert(sts.subrange(0, m) =~= sts);
    }
}

} // verus!
