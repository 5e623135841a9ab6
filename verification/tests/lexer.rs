use c0_backend::lexer::{tokenize_from_string, Lexer, Token};

fn expected_tokens() -> Vec<Token> {
    vec![
        Token::Int,
        Token::Identifier("main".to_string()),
        Token::LeftParen,
        Token::RightParen,
        Token::LeftBrace,
        Token::Identifier("printf".to_string()),
        Token::LeftParen,
        Token::StringLiteral("Hello, world!\\n".to_string()),
        Token::RightParen,
        Token::Semicolon,
        Token::Return,
        Token::Number("0".to_string()),
        Token::Semicolon,
        Token::RightBrace,
        Token::Eof,
    ]
}

const SOURCE: &str = r#"
        int main() {
            printf("Hello, world!\n");
            return 0;
        }
        "#;

#[test]
fn lexer_tests_test_lexer_simple() {
    let tokens = tokenize_from_string(SOURCE);
    assert_eq!(tokens, expected_tokens());
    match &tokens[11] {
        Token::Number(text) => assert_eq!(text.parse::<f64>().unwrap(), 0.0),
        other => panic!("Expected a number, found {:?}", other),
    }
}

#[test]
fn lazy_lexer_tests_test_lexer_simple() {
    let mut tokens = Lexer::new(SOURCE);
    for expected_token in expected_tokens() {
        let token = tokens.next().expect("Lexer terminated early. Expected more tokens");
        assert_eq!(token, expected_token);
    }
    // At the end of the text the lexer goes on saying so.
    assert_eq!(tokens.next(), Some(Token::Eof));
    assert_eq!(tokens.next(), Some(Token::Eof));
}

#[test]
fn every_keyword() {
    let text = "const void int char double struct if else switch case default while for do return break continue print scan";
    assert_eq!(
        tokenize_from_string(text),
        vec![
            Token::Const,
            Token::Void,
            Token::Int,
            Token::Char,
            Token::Double,
            Token::Struct,
            Token::If,
            Token::Else,
            Token::Switch,
            Token::Case,
            Token::Default,
            Token::While,
            Token::For,
            Token::Do,
            Token::Return,
            Token::Break,
            Token::Continue,
            Token::Print,
            Token::Scan,
            Token::Eof,
        ]
    );
}

#[test]
fn words_go_on_over_letters_digits_and_underscores() {
    let id = |s: &str| Token::Identifier(s.to_string());
    assert_eq!(
        tokenize_from_string("a1_b2 int_ Int ifx x_ é9 _y"),
        // A word starts with one of a-z and A-Z; `é` and `_` start nothing.
        vec![
            id("a1_b2"),
            id("int_"),
            id("Int"),
            id("ifx"),
            id("x_"),
            Token::Number("9".to_string()),
            id("y"),
            Token::Eof
        ]
    );
    assert_eq!(tokenize_from_string("naïve"), vec![id("naïve"), Token::Eof]);
}

#[test]
fn numbers_go_on_over_digits_and_dots() {
    let n = |s: &str| Token::Number(s.to_string());
    assert_eq!(
        tokenize_from_string("0 12.5 3. 1.2.3 7x .5"),
        vec![
            n("0"),
            n("12.5"),
            n("3."),
            n("1.2.3"),
            n("7"),
            Token::Identifier("x".to_string()),
            Token::Dot,
            n("5"),
            Token::Eof
        ]
    );
}

#[test]
fn operators_of_one_and_two_characters() {
    assert_eq!(
        tokenize_from_string("< <= = == > >= ! != <== =! (){}.,;+-*/"),
        vec![
            Token::Less,
            Token::LessEqual,
            Token::Equal,
            Token::EqualEqual,
            Token::Greater,
            Token::GreaterEqual,
            Token::Bang,
            Token::BangEqual,
            Token::LessEqual,
            Token::Equal,
            Token::Equal,
            Token::Bang,
            Token::LeftParen,
            Token::RightParen,
            Token::LeftBrace,
            Token::RightBrace,
            Token::Dot,
            Token::Comma,
            Token::Semicolon,
            Token::Plus,
            Token::Minus,
            Token::Star,
            Token::Slash,
            Token::Eof,
        ]
    );
    assert_eq!(tokenize_from_string("<"), vec![Token::Less, Token::Eof]);
    assert_eq!(tokenize_from_string("!="), vec![Token::BangEqual, Token::Eof]);
}

#[test]
fn strings_end_at_the_next_quote() {
    let s = |t: &str| Token::StringLiteral(t.to_string());
    assert_eq!(tokenize_from_string(r#""""#), vec![s(""), Token::Eof]);
    assert_eq!(
        tokenize_from_string(r#""a b" "int" "1""#),
        vec![s("a b"), s("int"), s("1"), Token::Eof]
    );
    assert_eq!(tokenize_from_string("\"two\nlines\""), vec![s("two\nlines"), Token::Eof]);
    // Without a closing quote the text is at its end.
    assert_eq!(tokenize_from_string("x \"open"), vec![Token::Identifier("x".to_string()), Token::Eof]);
    assert_eq!(tokenize_from_string("\""), vec![Token::Eof]);
}

#[test]
fn what_starts_no_token_is_passed_over() {
    assert_eq!(tokenize_from_string(""), vec![Token::Eof]);
    assert_eq!(tokenize_from_string(" \t\r\n"), vec![Token::Eof]);
    assert_eq!(
        tokenize_from_string("a @ # b ~ $"),
        vec![Token::Identifier("a".to_string()), Token::Identifier("b".to_string()), Token::Eof]
    );
    let mut lexer = Lexer::new("  ");
    assert_eq!(lexer.next(), Some(Token::Eof));
    let mut lexer = Lexer::new("a");
    assert_eq!(lexer.next(), Some(Token::Identifier("a".to_string())));
    assert_eq!(lexer.next(), Some(Token::Eof));
}
