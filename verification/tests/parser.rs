use c0_backend::lexer::{tokenize_from_string, Token};
use c0_backend::parser::{contains_eof, parse, Parser, ParserError};
use c0_backend::syntax::{Expr, Program, Statement};

fn number(text: &str) -> Token {
    Token::Number(text.to_string())
}

fn id(name: &str) -> Token {
    Token::Identifier(name.to_string())
}

fn value_of(token: &Token) -> f64 {
    match token {
        Token::Number(text) => text.parse::<f64>().unwrap(),
        other => panic!("Expected number literal, found {:?}", other),
    }
}

#[test]
fn test_hello_world() {
    let tokens = vec![
        Token::Int,
        Token::Identifier("main".to_string()),
        Token::LeftParen,
        Token::RightParen,
        Token::LeftBrace,
        Token::Identifier("printf".to_string()),
        Token::LeftParen,
        Token::StringLiteral("Hello, world!\n".to_string()),
        Token::RightParen,
        Token::Semicolon,
        Token::Return,
        number("0"),
        Token::Semicolon,
        Token::RightBrace,
        Token::Eof,
    ];

    let program = parse(tokens).unwrap();

    assert_eq!(program.decl.len(), 0);
    assert_eq!(program.fns.len(), 1);

    let main_fn = &program.fns[0];
    assert_eq!(main_fn.params.len(), 0);
    assert_eq!(main_fn.identifier, Token::Identifier("main".to_string()));
    assert_eq!(main_fn.return_type, Token::Int);

    let statements = &main_fn.body.statements;
    assert_eq!(statements.len(), 2); // printf and return
}

#[test]
fn test_variable_declaration() {
    let tokens = vec![
        Token::Const,
        Token::Int,
        Token::Identifier("MAX_SIZE".to_string()),
        Token::Equal,
        number("100"),
        Token::Semicolon,
        Token::Eof,
    ];

    let program = parse(tokens).unwrap();

    assert_eq!(program.decl.len(), 1);
    assert_eq!(program.fns.len(), 0);

    let var_decl = &program.decl[0];
    assert!(var_decl.is_const);
    assert_eq!(var_decl.type_token, Token::Int);
    assert_eq!(var_decl.identifier, Token::Identifier("MAX_SIZE".to_string()));

    match &var_decl.value {
        Expr::Literal(n) => assert_eq!(value_of(n), 100.0),
        _ => panic!("Expected number literal"),
    }
}

#[test]
fn test_function_with_parameters() {
    let tokens = vec![
        Token::Int,
        Token::Identifier("add".to_string()),
        Token::LeftParen,
        Token::Int,
        Token::Identifier("a".to_string()),
        Token::Comma,
        Token::Int,
        Token::Identifier("b".to_string()),
        Token::RightParen,
        Token::LeftBrace,
        Token::Return,
        Token::Identifier("a".to_string()),
        Token::Plus,
        Token::Identifier("b".to_string()),
        Token::Semicolon,
        Token::RightBrace,
        Token::Eof,
    ];

    let program = parse(tokens).unwrap();

    assert_eq!(program.fns.len(), 1);

    let add_fn = &program.fns[0];
    assert_eq!(add_fn.params.len(), 2);
    assert_eq!(add_fn.identifier, Token::Identifier("add".to_string()));

    let param1 = &add_fn.params[0];
    assert_eq!(param1.type_token, Token::Int);
    assert_eq!(param1.identifier, Token::Identifier("a".to_string()));

    let param2 = &add_fn.params[1];
    assert_eq!(param2.type_token, Token::Int);
    assert_eq!(param2.identifier, Token::Identifier("b".to_string()));
}

#[test]
fn test_if_statement() {
    let tokens = vec![
        Token::Int,
        Token::Identifier("abs".to_string()),
        Token::LeftParen,
        Token::Int,
        Token::Identifier("x".to_string()),
        Token::RightParen,
        Token::LeftBrace,
        Token::If,
        Token::LeftParen,
        Token::Identifier("x".to_string()),
        Token::Less,
        number("0"),
        Token::RightParen,
        Token::Return,
        Token::Minus,
        Token::Identifier("x".to_string()),
        Token::Semicolon,
        Token::Return,
        Token::Identifier("x".to_string()),
        Token::Semicolon,
        Token::RightBrace,
        Token::Eof,
    ];

    let program = parse(tokens).unwrap();

    let abs_fn = &program.fns[0];
    assert_eq!(abs_fn.identifier, Token::Identifier("abs".to_string()));

    let statements = &abs_fn.body.statements;
    match &statements[0] {
        Statement::If(condition, _then_branch, else_branch) => {
            match &**condition {
                Expr::Binary(left, op, right) => {
                    match &**left {
                        Expr::Variable(Token::Identifier(name)) => assert_eq!(name, "x"),
                        _ => panic!("Expected variable reference"),
                    }
                    assert_eq!(*op, Token::Less);
                    match &**right {
                        Expr::Literal(n) => assert_eq!(value_of(n), 0.0),
                        _ => panic!("Expected number literal"),
                    }
                }
                _ => panic!("Expected binary expression"),
            }
            assert!(else_branch.is_none());
        }
        _ => panic!("Expected if statement"),
    }
}

#[test]
fn test_while_loop() {
    let tokens = vec![
        Token::Void,
        Token::Identifier("countdown".to_string()),
        Token::LeftParen,
        Token::Int,
        Token::Identifier("n".to_string()),
        Token::RightParen,
        Token::LeftBrace,
        Token::While,
        Token::LeftParen,
        Token::Identifier("n".to_string()),
        Token::Greater,
        number("0"),
        Token::RightParen,
        Token::LeftBrace,
        Token::Identifier("n".to_string()),
        Token::Equal,
        Token::Identifier("n".to_string()),
        Token::Minus,
        number("1"),
        Token::Semicolon,
        Token::RightBrace,
        Token::RightBrace,
        Token::Eof,
    ];

    let program = parse(tokens).unwrap();

    let countdown_fn = &program.fns[0];
    assert_eq!(countdown_fn.return_type, Token::Void);

    let statements = &countdown_fn.body.statements;
    match &statements[0] {
        Statement::While(condition, _body) => match &**condition {
            Expr::Binary(left, op, right) => {
                match &**left {
                    Expr::Variable(Token::Identifier(name)) => assert_eq!(name, "n"),
                    _ => panic!("Expected variable reference"),
                }
                assert_eq!(*op, Token::Greater);
                match &**right {
                    Expr::Literal(n) => assert_eq!(value_of(n), 0.0),
                    _ => panic!("Expected number literal"),
                }
            }
            _ => panic!("Expected binary expression"),
        },
        _ => panic!("Expected while statement"),
    }
}

fn program_of(text: &str) -> Result<Program, ParserError> {
    parse(tokenize_from_string(text))
}

/// The expression `text`, written with a parenthesis around each operation.
fn shape(text: &str) -> String {
    let program = program_of(&format!("void t() {{ return {}; }}", text)).unwrap();
    match &program.fns[0].body.statements[..] {
        [Statement::Return(Some(value))] => show(value),
        other => panic!("Expected a return statement, found {:?}", other),
    }
}

fn word(token: &Token) -> String {
    match token {
        Token::Identifier(s) | Token::Number(s) => s.clone(),
        Token::StringLiteral(s) => format!("{:?}", s),
        Token::Plus => "+".to_string(),
        Token::Minus => "-".to_string(),
        Token::Star => "*".to_string(),
        Token::Slash => "/".to_string(),
        Token::Less => "<".to_string(),
        Token::LessEqual => "<=".to_string(),
        Token::Greater => ">".to_string(),
        Token::GreaterEqual => ">=".to_string(),
        Token::EqualEqual => "==".to_string(),
        Token::BangEqual => "!=".to_string(),
        Token::Equal => "=".to_string(),
        Token::Bang => "!".to_string(),
        other => format!("{:?}", other),
    }
}

fn show(expr: &Expr) -> String {
    match expr {
        Expr::Literal(t) | Expr::Variable(t) => word(t),
        Expr::Unary(op, e) => format!("({}{})", word(op), show(e)),
        Expr::Binary(l, op, r) => format!("({} {} {})", show(l), word(op), show(r)),
        Expr::Parentheses(e) => format!("[{}]", show(e)),
        Expr::Call(f, args) => {
            let args: Vec<String> = args.iter().map(show).collect();
            format!("{}({})", show(f), args.join(", "))
        }
    }
}

#[test]
fn operators_bind_by_level_and_from_the_left() {
    assert_eq!(shape("1 + 2 * 3"), "(1 + (2 * 3))");
    assert_eq!(shape("1 * 2 + 3"), "((1 * 2) + 3)");
    assert_eq!(shape("1 - 2 - 3"), "((1 - 2) - 3)");
    assert_eq!(shape("8 / 4 / 2"), "((8 / 4) / 2)");
    assert_eq!(shape("a < b + 1"), "(a < (b + 1))");
    assert_eq!(shape("a + 1 >= b * 2"), "((a + 1) >= (b * 2))");
    assert_eq!(shape("a == b < c"), "(a == (b < c))");
    assert_eq!(shape("a != b == c"), "((a != b) == c)");
    assert_eq!(shape("a <= b > c"), "((a <= b) > c)");
    assert_eq!(shape("-a * !b"), "((-a) * (!b))");
    assert_eq!(shape("--a"), "(-(-a))");
    assert_eq!(shape("(1 + 2) * 3"), "([(1 + 2)] * 3)");
    assert_eq!(shape("a = b = 3"), "(a = (b = 3))");
    assert_eq!(shape("a = 1 + 2"), "(a = (1 + 2))");
    assert_eq!(shape("\"text\""), "\"text\"");
}

#[test]
fn calls_and_their_arguments() {
    assert_eq!(shape("f()"), "f()");
    assert_eq!(shape("f(1)"), "f(1)");
    assert_eq!(shape("f(1, a + 2, g(b))"), "f(1, (a + 2), g(b))");
    assert_eq!(shape("f(1) + 2"), "(f(1) + 2)");
}

#[test]
fn what_is_no_expression_is_refused() {
    match program_of("int x = ;") {
        Err(ParserError::UnexpectedToken { found, expected }) => {
            assert_eq!(found, Token::Semicolon);
            assert_eq!(
                expected,
                vec![
                    number("0"),
                    Token::StringLiteral("placeholder".to_string()),
                    id("placeholder"),
                    Token::LeftParen
                ]
            );
        }
        other => panic!("Expected an unexpected token, found {:?}", other),
    }
    match program_of("int x = 1 + ") {
        Err(ParserError::UnexpectedToken { found, .. }) => assert_eq!(found, Token::Eof),
        other => panic!("Expected an unexpected token, found {:?}", other),
    }
    assert!(matches!(program_of("int x = 1 = 2;"), Err(ParserError::InvalidExpression)));
    assert!(matches!(program_of("void t() { (a) = 2; }"), Err(ParserError::InvalidExpression)));
    assert!(matches!(program_of("void t() { a + b = 2; }"), Err(ParserError::InvalidExpression)));
    match program_of("void t() { f(1, ); }") {
        Err(ParserError::UnexpectedToken { found, .. }) => assert_eq!(found, Token::RightParen),
        other => panic!("Expected an unexpected token, found {:?}", other),
    }
}

#[test]
fn declarations_that_break_off_are_refused() {
    match program_of("int = 3;") {
        Err(ParserError::UnexpectedToken { found, expected }) => {
            assert_eq!(found, Token::Equal);
            assert_eq!(expected, vec![id("placeholder")]);
        }
        other => panic!("Expected an unexpected token, found {:?}", other),
    }
    match program_of("int x 3;") {
        Err(ParserError::UnexpectedToken { found, expected }) => {
            assert_eq!(found, number("3"));
            assert_eq!(expected, vec![Token::Equal]);
        }
        other => panic!("Expected an unexpected token, found {:?}", other),
    }
    match program_of("int x = 3") {
        Err(ParserError::UnexpectedEOF { expected }) => assert_eq!(expected, vec![Token::Semicolon]),
        other => panic!("Expected an unexpected end, found {:?}", other),
    }
    match program_of("int x") {
        Err(ParserError::UnexpectedEOF { expected }) => assert_eq!(expected, vec![Token::Equal]),
        other => panic!("Expected an unexpected end, found {:?}", other),
    }
    // Behind `const` at the end of the tokens a name is missing.
    match program_of("const") {
        Err(ParserError::UnexpectedToken { found, .. }) => assert_eq!(found, Token::Eof),
        other => panic!("Expected an unexpected token, found {:?}", other),
    }
    match program_of("int f(int) { }") {
        Err(ParserError::UnexpectedToken { found, expected }) => {
            assert_eq!(found, Token::RightParen);
            assert_eq!(expected, vec![id("placeholder")]);
        }
        other => panic!("Expected an unexpected token, found {:?}", other),
    }
    match program_of("int f(x) { }") {
        Err(ParserError::UnexpectedToken { found, expected }) => {
            assert_eq!(found, id("x"));
            assert_eq!(
                expected,
                vec![Token::Int, Token::Char, Token::Double, Token::Void, Token::Struct]
            );
        }
        other => panic!("Expected an unexpected token, found {:?}", other),
    }
    match program_of("void f() { while x) { } }") {
        Err(ParserError::UnexpectedToken { found, expected }) => {
            assert_eq!(found, id("x"));
            assert_eq!(expected, vec![Token::LeftParen]);
        }
        other => panic!("Expected an unexpected token, found {:?}", other),
    }
}

#[test]
fn statements_of_every_kind() {
    let program = program_of(
        "void f(int n) {
            int i = 0;
            while (i < n) { i = i + 1; if (i == 3) continue; else break; }
            print(i);
            { return; }
            g(i)
        }",
    )
    .unwrap();
    let statements = &program.fns[0].body.statements;
    assert_eq!(statements.len(), 5);
    assert!(matches!(&statements[0], Statement::VarDecl(d) if !d.is_const && d.type_token == Token::Int));
    match &statements[1] {
        Statement::While(_, body) => match &**body {
            Statement::Block(block) => {
                assert_eq!(block.statements.len(), 2);
                match &block.statements[1] {
                    Statement::If(_, then_branch, else_branch) => {
                        assert!(matches!(**then_branch, Statement::Continue));
                        assert!(matches!(else_branch.as_deref(), Some(Statement::Break)));
                    }
                    other => panic!("Expected if statement, found {:?}", other),
                }
            }
            other => panic!("Expected block, found {:?}", other),
        },
        other => panic!("Expected while statement, found {:?}", other),
    }
    assert!(matches!(&statements[2], Statement::Print(_)));
    match &statements[3] {
        Statement::Block(block) => {
            assert!(matches!(block.statements[..], [Statement::Return(None)]))
        }
        other => panic!("Expected block, found {:?}", other),
    }
    // The semicolon behind an expression may be missing.
    assert!(matches!(&statements[4], Statement::Expression(Expr::Call(_, _))));
}

#[test]
fn variables_and_functions_are_told_apart() {
    // `int b = f(2);` has a parenthesis before its semicolon: it is read as
    // a function, and `=` is no parameter.
    match program_of("const int a = 1; int b = f(2);") {
        Err(ParserError::UnexpectedToken { found, expected }) => {
            assert_eq!(found, Token::Equal);
            assert_eq!(
                expected,
                vec![Token::Int, Token::Char, Token::Double, Token::Void, Token::Struct]
            );
        }
        other => panic!("Expected an unexpected token, found {:?}", other),
    }
    // Behind `const` stands a variable, whatever follows.
    let program = program_of("const int a = f(2);").unwrap();
    assert_eq!(program.decl.len(), 1);
    assert!(program.decl[0].is_const);

    let program = program_of("int b = 2; double g() { return 1.5; } ; junk int h(int x, char y) { }")
        .unwrap();
    assert_eq!(program.decl.len(), 1);
    assert_eq!(program.decl[0].identifier, id("b"));
    assert_eq!(program.fns.len(), 2);
    assert_eq!(program.fns[0].identifier, id("g"));
    assert_eq!(program.fns[0].return_type, Token::Double);
    assert_eq!(program.fns[1].identifier, id("h"));
    assert_eq!(program.fns[1].params.len(), 2);
    assert_eq!(program.fns[1].params[1].type_token, Token::Char);
}

#[test]
fn parsing_ends_at_the_first_eof() {
    let tokens = vec![Token::Eof];
    let program = parse(tokens).unwrap();
    assert!(program.decl.is_empty() && program.fns.is_empty());
    let tokens = vec![
        Token::Int,
        id("x"),
        Token::Equal,
        number("1"),
        Token::Semicolon,
        Token::Eof,
        Token::Int,
        id("y"),
        Token::Equal,
        number("2"),
        Token::Semicolon,
        Token::Eof,
    ];
    let mut parser = Parser::new(tokens);
    let program = parser.parse().unwrap();
    assert_eq!(program.decl.len(), 1);
    assert_eq!(program.decl[0].identifier, id("x"));
}

#[test]
fn tokens_that_hold_an_eof() {
    assert!(contains_eof(&vec![Token::Eof]));
    assert!(contains_eof(&vec![Token::Int, Token::Eof, Token::Int]));
    assert!(!contains_eof(&vec![]));
    assert!(!contains_eof(&vec![Token::Int, id("x")]));
    assert!(contains_eof(&tokenize_from_string("int x")));
}
