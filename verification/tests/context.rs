use c0_backend::assembly::{
    AbstractAssemblyInstruction, AsmLabel, BinaryOperator, Condition, Dest, Operand, UnaryOperator,
};
use c0_backend::context::{CodegenError, Context};
use c0_backend::emit::emit_function;
use c0_backend::lexer::{tokenize_from_string, Token};
use c0_backend::parser::parse;
use c0_backend::syntax::{
    Block, Expr, FnDeclaration, Parameter, Program, Statement, VarDeclaration,
};

/// The abstract assembly of the first function of a source text.
fn code_of(text: &str) -> Result<String, CodegenError> {
    let program = parse(tokenize_from_string(text)).unwrap();
    let function = &program.fns[0];
    let name = match &function.identifier {
        Token::Identifier(name) => name.clone(),
        other => panic!("Expected a name, found {:?}", other),
    };
    let mut context = Context::new(&name);
    context.generate(function)?;
    Ok(emit_function(&context.name, &context.instructions))
}

#[test]
fn a_context_starts_empty() {
    let context = Context::new("main");
    assert_eq!(context.name, "main");
    assert!(context.instructions.is_empty());
    assert_eq!(context.temp_counter, 0);
    assert_eq!(context.label_counter, 0);
    assert!(context.var_to_temp.is_empty());
}

#[test]
fn parameters_and_variables_take_temporaries() {
    assert_eq!(
        code_of("int add(int a, int b) { int c = a + b; return c; }").unwrap(),
        ".add\n%t3 <- %t0 + %t1\n%t2 <- %t3\n%eax <- %t2\nret\n"
    );
    assert_eq!(code_of("void f() { return; }").unwrap(), ".f\nret\n");
    assert_eq!(code_of("void f() { }").unwrap(), ".f\n");
}

#[test]
fn operations_take_their_operands_from_left_to_right() {
    assert_eq!(
        code_of("int f(int x) { return (x + 1) * -x - 6 / 3; }").unwrap(),
        ".f\n%t1 <- %t0 + $1\n%t2 <- -%t0\n%t3 <- %t1 * %t2\n%t4 <- $6 / $3\n%t5 <- %t3 - %t4\n%eax <- %t5\nret\n"
    );
    assert_eq!(
        code_of("int f(int x) { return !x; }").unwrap(),
        ".f\n%t1 <- !%t0\n%eax <- %t1\nret\n"
    );
}

#[test]
fn comparisons_set_their_result() {
    assert_eq!(
        code_of("int f(int x) { return x <= 3; }").unwrap(),
        ".f\ncmp %t0 is_leq $3\nset %t1 is_leq\n%eax <- %t1\nret\n"
    );
    assert_eq!(
        code_of("int f(int x) { return x != x; }").unwrap(),
        ".f\ncmp %t0 is_neq %t0\nset %t1 is_neq\n%eax <- %t1\nret\n"
    );
}

#[test]
fn assignments_move_into_the_variable() {
    assert_eq!(
        code_of("int f(int x) { x = x + 1; return x; }").unwrap(),
        ".f\n%t1 <- %t0 + $1\n%t0 <- %t1\n%eax <- %t0\nret\n"
    );
    // A later declaration of a name hides the earlier one, also in its own value.
    let mut context = Context::new("g");
    let function = &parse(tokenize_from_string("int g(int x) { int x = 2; return x; }")).unwrap().fns[0];
    context.generate(function).unwrap();
    assert_eq!(
        context.instructions,
        vec![
            AbstractAssemblyInstruction::Mov { dest: Dest::Temp(1), src: Operand::Const(2) },
            AbstractAssemblyInstruction::Return(Operand::Var(Dest::Temp(1))),
        ]
    );
    assert_eq!(context.temp_counter, 2);
    assert_eq!(context.var_to_temp, vec![("x".to_string(), 0), ("x".to_string(), 1)]);
}

#[test]
fn conditionals_jump_over_their_branches() {
    assert_eq!(
        code_of("int f(int x) { if (x < 0) return 0 - x; else return x; }").unwrap(),
        ".f\ncmp %t0 is_l $0\njmp is_l L0 L2\nL0:\n%t1 <- $0 - %t0\n%eax <- %t1\nret\njmp L1\nL2:\n%eax <- %t0\nret\nL1:\n"
    );
    // Without a second branch the jump leads to the end, which has no place.
    assert_eq!(
        code_of("int f(int x) { if (x) return 1; return 2; }").unwrap(),
        ".f\ncmp %t0 is_neq $0\njmp is_neq L0 L1\nL0:\n%eax <- $1\nret\n%eax <- $2\nret\n"
    );
    assert_eq!(
        code_of("int f(int x) { if (x == 1) { x = 2; } return x; }").unwrap(),
        ".f\ncmp %t0 is_eq $1\njmp is_eq L0 L1\nL0:\n%t0 <- $2\n%eax <- %t0\nret\n"
    );
}

#[test]
fn instructions_by_hand() {
    let function = FnDeclaration {
        return_type: Token::Int,
        identifier: Token::Identifier("h".to_string()),
        params: vec![
            Parameter { type_token: Token::Int, identifier: Token::Identifier("p".to_string()) },
            Parameter { type_token: Token::Int, identifier: Token::Int },
        ],
        body: Block {
            statements: vec![Statement::Expression(Expr::Binary(
                Box::new(Expr::Variable(Token::Identifier("p".to_string()))),
                Token::Greater,
                Box::new(Expr::Unary(
                    Token::Bang,
                    Box::new(Expr::Literal(Token::Number("7".to_string()))),
                )),
            ))],
        },
    };
    let mut context = Context::new("h");
    assert_eq!(context.generate(&function), Ok(()));
    assert_eq!(
        context.instructions,
        vec![
            AbstractAssemblyInstruction::UnOp {
                op: UnaryOperator::Bang,
                dest: Dest::Temp(1),
                src: Operand::Const(7),
            },
            AbstractAssemblyInstruction::Compare {
                left: Operand::Var(Dest::Temp(0)),
                right: Operand::Var(Dest::Temp(1)),
                condition: Condition::Greater,
            },
            AbstractAssemblyInstruction::SetIf { dest: Dest::Temp(2), condition: Condition::Greater },
        ]
    );
    // A parameter without a name takes no temporary.
    assert_eq!(context.temp_counter, 3);
    assert_eq!(context.var_to_temp, vec![("p".to_string(), 0)]);
    let _ = (AsmLabel(0), BinaryOperator::Plus);
}

#[test]
fn what_has_no_translation_is_refused() {
    assert_eq!(
        code_of("int f() { return y; }"),
        Err(CodegenError::UndefinedVariable { name: "y".to_string() })
    );
    assert_eq!(code_of("int f() { return g(1); }"), Err(CodegenError::FunctionCall));
    assert_eq!(code_of("int f(int x) { while (x) { } }"), Err(CodegenError::UnsupportedStatement));
    assert_eq!(code_of("int f(int x) { print(x); }"), Err(CodegenError::UnsupportedStatement));
    assert_eq!(code_of("int f(int x) { break; }"), Err(CodegenError::UnsupportedStatement));
    assert_eq!(code_of("int f(int x) { continue; }"), Err(CodegenError::UnsupportedStatement));
    assert_eq!(code_of("int f() { return \"text\"; }"), Err(CodegenError::InvalidLiteral));
    assert_eq!(code_of("int f() { return 1.5; }"), Err(CodegenError::InvalidLiteral));
    assert_eq!(
        code_of("int f() { return 170141183460469231731687303715884105728; }"),
        Err(CodegenError::InvalidLiteral)
    );
    assert_eq!(
        code_of("int f() { return 170141183460469231731687303715884105727; }").unwrap(),
        ".f\n%eax <- $170141183460469231731687303715884105727\nret\n"
    );
    // The first statement that has no translation decides.
    assert_eq!(
        code_of("int f() { return g(1); return y; }"),
        Err(CodegenError::FunctionCall)
    );
    let mut context = Context::new("f");
    let declaration = |identifier: Token| FnDeclaration {
        return_type: Token::Int,
        identifier: Token::Identifier("f".to_string()),
        params: vec![],
        body: Block {
            statements: vec![Statement::VarDecl(VarDeclaration {
                is_const: false,
                type_token: Token::Int,
                identifier,
                value: Expr::Literal(Token::Number("1".to_string())),
            })],
        },
    };
    assert_eq!(context.generate(&declaration(Token::Int)), Err(CodegenError::InvalidIdentifier));
    let by_hand = |statement: Statement| {
        let mut context = Context::new("f");
        context.generate(&FnDeclaration {
            return_type: Token::Int,
            identifier: Token::Identifier("f".to_string()),
            params: vec![Parameter {
                type_token: Token::Int,
                identifier: Token::Identifier("x".to_string()),
            }],
            body: Block { statements: vec![statement] },
        })
    };
    let x = || Box::new(Expr::Variable(Token::Identifier("x".to_string())));
    let one = || Box::new(Expr::Literal(Token::Number("1".to_string())));
    assert_eq!(
        by_hand(Statement::Expression(Expr::Binary(one(), Token::Equal, x()))),
        Err(CodegenError::InvalidAssignment)
    );
    assert_eq!(
        by_hand(Statement::Expression(Expr::Binary(x(), Token::Comma, x()))),
        Err(CodegenError::UnsupportedOperator)
    );
    assert_eq!(
        by_hand(Statement::Expression(Expr::Unary(Token::Plus, x()))),
        Err(CodegenError::UnsupportedOperator)
    );
    assert_eq!(
        by_hand(Statement::Expression(Expr::Variable(Token::Int))),
        Err(CodegenError::InvalidVariable)
    );
    assert_eq!(
        by_hand(Statement::If(
            Box::new(Expr::Binary(x(), Token::Plus, x())),
            Box::new(Statement::Return(None)),
            None
        )),
        Err(CodegenError::UnsupportedOperator)
    );
    let mut full = Context::new("f");
    full.temp_counter = usize::MAX;
    assert_eq!(
        full.generate(&declaration(Token::Identifier("v".to_string()))),
        Err(CodegenError::Exhausted)
    );
}

#[test]
fn test_sample_program() {
    // The syntax tree of:
    // int g0 = 42;
    // double g1 = 1.0;
    //
    // int fun(int num) {
    //     return -num;
    // }
    //
    // int main() {
    //     return fun(-123456);
    // }

    let program = Program {
        decl: vec![
            // int g0 = 42
            VarDeclaration {
                is_const: false,
                type_token: Token::Int,
                identifier: Token::Identifier(String::from("g0")),
                value: Expr::Literal(Token::Number(String::from("42"))),
            },
            // double g1 = 1.0
            VarDeclaration {
                is_const: false,
                type_token: Token::Number(String::from("1.0")),
                identifier: Token::Identifier(String::from("g1")),
                value: Expr::Literal(Token::Number(String::from("1.0"))),
            },
        ],
        fns: vec![
            // int fun(int num)
            FnDeclaration {
                return_type: Token::Int,
                identifier: Token::Identifier(String::from("fun")),
                params: vec![Parameter {
                    type_token: Token::Int,
                    identifier: Token::Identifier(String::from("num")),
                }],
                body: Block {
                    statements: vec![
                        // return -num;
                        Statement::Return(Some(Box::new(Expr::Unary(
                            Token::Minus,
                            Box::new(Expr::Variable(Token::Identifier(String::from("num")))),
                        )))),
                    ],
                },
            },
            // int main()
            FnDeclaration {
                return_type: Token::Int,
                identifier: Token::Identifier(String::from("main")),
                params: vec![],
                body: Block {
                    statements: vec![
                        // return fun(-123456);
                        Statement::Return(Some(Box::new(Expr::Call(
                            Box::new(Expr::Variable(Token::Identifier(String::from("fun")))),
                            vec![Expr::Literal(Token::Number(String::from("-123456")))],
                        )))),
                    ],
                },
            },
        ],
    };

    let mut fun = Context::new("fun");
    assert_eq!(fun.generate(&program.fns[0]), Ok(()));
    assert_eq!(emit_function(&fun.name, &fun.instructions), ".fun\n%t1 <- -%t0\n%eax <- %t1\nret\n");
    let mut main = Context::new("main");
    assert_eq!(main.generate(&program.fns[1]), Err(CodegenError::FunctionCall));
    assert_eq!(program.decl.len(), 2);
}
