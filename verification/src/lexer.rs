//! The lexer: from the characters of a source text to tokens.

use vstd::prelude::*;
use crate::chars::{is_digit, to_chars, to_string};

verus! {

/// A token of the source language.
#[derive(Debug, Clone, PartialEq, Eq)]
pub enum Token {
    // Literals
    Identifier(String),
    StringLiteral(String),
    /// A number, as the source text writes it.
    Number(String),
    // Single-character tokens
    LeftParen,
    RightParen,
    LeftBrace,
    RightBrace,
    Dot,
    Comma,
    Semicolon,
    Plus,
    Minus,
    Star,
    Slash,
    // One or two character tokens
    Less,
    LessEqual,
    Equal,
    EqualEqual,
    Greater,
    GreaterEqual,
    Bang,
    BangEqual,
    // Reserved keywords
    Const,
    Void,
    Int,
    Char,
    Double,
    Struct,
    If,
    Else,
    Switch,
    Case,
    Default,
    While,
    For,
    Do,
    Return,
    Break,
    Continue,
    Print,
    Scan,
    // The end of the text
    Eof,
}

/// A `Token` as contracts see it.
pub enum Lexeme {
    Identifier(Seq<char>),
    StringLiteral(Seq<char>),
    Number(Seq<char>),
    LeftParen,
    RightParen,
    LeftBrace,
    RightBrace,
    Dot,
    Comma,
    Semicolon,
    Plus,
    Minus,
    Star,
    Slash,
    Less,
    LessEqual,
    Equal,
    EqualEqual,
    Greater,
    GreaterEqual,
    Bang,
    BangEqual,
    Const,
    Void,
    Int,
    Char,
    Double,
    Struct,
    If,
    Else,
    Switch,
    Case,
    Default,
    While,
    For,
    Do,
    Return,
    Break,
    Continue,
    Print,
    Scan,
    Eof,
}

impl View for Token {
    type V = Lexeme;

    open spec fn view(&self) -> Lexeme {
        match self {
            Token::Identifier(s) => Lexeme::Identifier(s@),
            Token::StringLiteral(s) => Lexeme::StringLiteral(s@),
            Token::Number(s) => Lexeme::Number(s@),
            Token::LeftParen => Lexeme::LeftParen,
            Token::RightParen => Lexeme::RightParen,
            Token::LeftBrace => Lexeme::LeftBrace,
            Token::RightBrace => Lexeme::RightBrace,
            Token::Dot => Lexeme::Dot,
            Token::Comma => Lexeme::Comma,
            Token::Semicolon => Lexeme::Semicolon,
            Token::Plus => Lexeme::Plus,
            Token::Minus => Lexeme::Minus,
            Token::Star => Lexeme::Star,
            Token::Slash => Lexeme::Slash,
            Token::Less => Lexeme::Less,
            Token::LessEqual => Lexeme::LessEqual,
            Token::Equal => Lexeme::Equal,
            Token::EqualEqual => Lexeme::EqualEqual,
            Token::Greater => Lexeme::Greater,
            Token::GreaterEqual => Lexeme::GreaterEqual,
            Token::Bang => Lexeme::Bang,
            Token::BangEqual => Lexeme::BangEqual,
            Token::Const => Lexeme::Const,
            Token::Void => Lexeme::Void,
            Token::Int => Lexeme::Int,
            Token::Char => Lexeme::Char,
            Token::Double => Lexeme::Double,
            Token::Struct => Lexeme::Struct,
            Token::If => Lexeme::If,
            Token::Else => Lexeme::Else,
            Token::Switch => Lexeme::Switch,
            Token::Case => Lexeme::Case,
            Token::Default => Lexeme::Default,
            Token::While => Lexeme::While,
            Token::For => Lexeme::For,
            Token::Do => Lexeme::Do,
            Token::Return => Lexeme::Return,
            Token::Break => Lexeme::Break,
            Token::Continue => Lexeme::Continue,
            Token::Print => Lexeme::Print,
            Token::Scan => Lexeme::Scan,
            Token::Eof => Lexeme::Eof,
        }
    }
}

impl Token {
    /// A copy of the token.
    pub fn copy(&self) -> (r: Token)
        ensures
            r == *self,
    {
        match self {
            Token::Identifier(s) => Token::Identifier(s.clone()),
            Token::StringLiteral(s) => Token::StringLiteral(s.clone()),
            Token::Number(s) => Token::Number(s.clone()),
            Token::LeftParen => Token::LeftParen,
            Token::RightParen => Token::RightParen,
            Token::LeftBrace => Token::LeftBrace,
            Token::RightBrace => Token::RightBrace,
            Token::Dot => Token::Dot,
            Token::Comma => Token::Comma,
            Token::Semicolon => Token::Semicolon,
            Token::Plus => Token::Plus,
            Token::Minus => Token::Minus,
            Token::Star => Token::Star,
            Token::Slash => Token::Slash,
            Token::Less => Token::Less,
            Token::LessEqual => Token::LessEqual,
            Token::Equal => Token::Equal,
            Token::EqualEqual => Token::EqualEqual,
            Token::Greater => Token::Greater,
            Token::GreaterEqual => Token::GreaterEqual,
            Token::Bang => Token::Bang,
            Token::BangEqual => Token::BangEqual,
            Token::Const => Token::Const,
            Token::Void => Token::Void,
            Token::Int => Token::Int,
            Token::Char => Token::Char,
            Token::Double => Token::Double,
            Token::Struct => Token::Struct,
            Token::If => Token::If,
            Token::Else => Token::Else,
            Token::Switch => Token::Switch,
            Token::Case => Token::Case,
            Token::Default => Token::Default,
            Token::While => Token::While,
            Token::For => Token::For,
            Token::Do => Token::Do,
            Token::Return => Token::Return,
            Token::Break => Token::Break,
            Token::Continue => Token::Continue,
            Token::Print => Token::Print,
            Token::Scan => Token::Scan,
            Token::Eof => Token::Eof,
        }
    }
}

/// The tokens of a vector, as contracts see them.
pub open spec fn lexemes(tokens: Seq<Token>) -> Seq<Lexeme> {
    Seq::new(tokens.len(), |i: int| tokens[i]@)
}

/// Whether a character is a letter or a digit as Unicode defines them: what
/// `char::is_alphanumeric` answers.
pub uninterp spec fn alphanumeric(c: char) -> bool;

/// `char::is_alphanumeric` tells whether the character is alphabetic or
/// numeric by its Unicode properties; its answer depends on the character alone.
pub assume_specification[ char::is_alphanumeric ](c: char) -> (r: bool)
    ensures
        r == alphanumeric(c),
;

/// Whether a character is one of the letters `a` to `z` and `A` to `Z`.
pub open spec fn is_letter(c: char) -> bool {
    ('a' <= c && c <= 'z') || ('A' <= c && c <= 'Z')
}

/// The kinds of runs of characters that make up a token.
pub enum Run {
    /// Letters, digits and `_`: what an identifier goes on with.
    Word,
    /// Digits and dots: what a number goes on with.
    Number,
    /// Anything but a quote: what a string goes on with.
    Text,
}

/// Whether a character goes on a run of the kind.
pub open spec fn goes_on(kind: Run, c: char) -> bool {
    match kind {
        Run::Word => alphanumeric(c) || c == '_',
        Run::Number => is_digit(c) || c == '.',
        Run::Text => c != '"',
    }
}

/// The position at which the run of the kind that starts at `p` ends: the
/// first position from `p` on whose character does not go on the run, or
/// the end of the text.
pub open spec fn run_end(s: Seq<char>, p: int, kind: Run) -> int
    decreases s.len() - p,
{
    if 0 <= p < s.len() && goes_on(kind, s[p]) {
        run_end(s, p + 1, kind)
    } else {
        p
    }
}

/// The token that a word stands for: a keyword, or else an identifier.
pub open spec fn word(text: Seq<char>) -> Lexeme {
    if text == "const"@ {
        Lexeme::Const
    } else if text == "void"@ {
        Lexeme::Void
    } else if text == "int"@ {
        Lexeme::Int
    } else if text == "char"@ {
        Lexeme::Char
    } else if text == "double"@ {
        Lexeme::Double
    } else if text == "struct"@ {
        Lexeme::Struct
    } else if text == "if"@ {
        Lexeme::If
    } else if text == "else"@ {
        Lexeme::Else
    } else if text == "switch"@ {
        Lexeme::Switch
    } else if text == "case"@ {
        Lexeme::Case
    } else if text == "default"@ {
        Lexeme::Default
    } else if text == "while"@ {
        Lexeme::While
    } else if text == "for"@ {
        Lexeme::For
    } else if text == "do"@ {
        Lexeme::Do
    } else if text == "return"@ {
        Lexeme::Return
    } else if text == "break"@ {
        Lexeme::Break
    } else if text == "continue"@ {
        Lexeme::Continue
    } else if text == "print"@ {
        Lexeme::Print
    } else if text == "scan"@ {
        Lexeme::Scan
    } else {
        Lexeme::Identifier(text)
    }
}

/// The token that a character is by itself, where it is one.
pub open spec fn single(c: char) -> Option<Lexeme> {
    if c == '(' {
        Some(Lexeme::LeftParen)
    } else if c == ')' {
        Some(Lexeme::RightParen)
    } else if c == '{' {
        Some(Lexeme::LeftBrace)
    } else if c == '}' {
        Some(Lexeme::RightBrace)
    } else if c == '.' {
        Some(Lexeme::Dot)
    } else if c == ',' {
        Some(Lexeme::Comma)
    } else if c == ';' {
        Some(Lexeme::Semicolon)
    } else if c == '+' {
        Some(Lexeme::Plus)
    } else if c == '-' {
        Some(Lexeme::Minus)
    } else if c == '*' {
        Some(Lexeme::Star)
    } else if c == '/' {
        Some(Lexeme::Slash)
    } else {
        None
    }
}

/// The token that a character is by itself, where it may also start a
/// token of two characters.
pub open spec fn alone(c: char) -> Option<Lexeme> {
    if c == '<' {
        Some(Lexeme::Less)
    } else if c == '>' {
        Some(Lexeme::Greater)
    } else if c == '=' {
        Some(Lexeme::Equal)
    } else if c == '!' {
        Some(Lexeme::Bang)
    } else {
        None
    }
}

/// The token that a character is with `=` behind it, where it is one.
pub open spec fn with_equal(c: char) -> Option<Lexeme> {
    if c == '<' {
        Some(Lexeme::LessEqual)
    } else if c == '>' {
        Some(Lexeme::GreaterEqual)
    } else if c == '=' {
        Some(Lexeme::EqualEqual)
    } else if c == '!' {
        Some(Lexeme::BangEqual)
    } else {
        None
    }
}

/// The token that starts at or after the position `p`, and the position
/// behind it.
///
/// A letter starts a word, which goes on over letters, digits and `_`. A
/// digit starts a number, which goes on over digits and dots. A quote starts
/// a string, which ends before the next quote; without one the text is at
/// its end. White space and every character that starts no token are passed
/// over. At the end of the text stands `Eof`.
pub open spec fn next_token_at(s: Seq<char>, p: int) -> (Lexeme, int)
    decreases s.len() - p,
{
    if p < 0 || p >= s.len() {
        (Lexeme::Eof, s.len() as int)
    } else if is_letter(s[p]) {
        let q = run_end(s, p + 1, Run::Word);
        (word(s.subrange(p, q)), q)
    } else if is_digit(s[p]) {
        let q = run_end(s, p + 1, Run::Number);
        (Lexeme::Number(s.subrange(p, q)), q)
    } else if s[p] == '"' {
        let q = run_end(s, p + 1, Run::Text);
        if q < s.len() {
            (Lexeme::StringLiteral(s.subrange(p + 1, q)), q + 1)
        } else {
            (Lexeme::Eof, s.len() as int)
        }
    } else if single(s[p]) is Some {
        (single(s[p])->0, p + 1)
    } else if alone(s[p]) is Some {
        if p + 1 < s.len() && s[p + 1] == '=' {
            (with_equal(s[p])->0, p + 2)
        } else {
            (alone(s[p])->0, p + 1)
        }
    } else {
        next_token_at(s, p + 1)
    }
}

/// The tokens of a text from the position `p` on, with `Eof` as the last.
pub open spec fn tokens_from(s: Seq<char>, p: int) -> Seq<Lexeme>
    decreases s.len() - p,
    via tokens_from_decreases
{
    let (token, q) = next_token_at(s, p);
    if token == Lexeme::Eof {
        seq![Lexeme::Eof]
    } else {
        seq![token] + tokens_from(s, q)
    }
}

#[via_fn]
proof fn tokens_from_decreases(s: Seq<char>, p: int) {
    if next_token_at(s, p).0 != Lexeme::Eof {
        lemma_next_token_advances(s, p);
    }
}

/// A run ends at or behind its start, within the text.
pub proof fn lemma_run_end(s: Seq<char>, p: int, kind: Run)
    requires
        0 <= p <= s.len(),
    ensures
        p <= run_end(s, p, kind) <= s.len(),
        run_end(s, p, kind) < s.len() ==> !goes_on(kind, s[run_end(s, p, kind)]),
        forall|j: int| p <= j < run_end(s, p, kind) ==> goes_on(kind, s[j]),
    decreases s.len() - p,
{
    if p < s.len() && goes_on(kind, s[p]) {
        lemma_run_end(s, p + 1, kind);
    }
}

/// Every token but `Eof` takes at least one character, and none goes beyond the text.
pub proof fn lemma_next_token_advances(s: Seq<char>, p: int)
    requires
        0 <= p <= s.len(),
    ensures
        p <= next_token_at(s, p).1 <= s.len(),
        next_token_at(s, p).0 != Lexeme::Eof ==> p < next_token_at(s, p).1,
        next_token_at(s, p).0 == Lexeme::Eof ==> next_token_at(s, p).1 == s.len(),
    decreases s.len() - p,
{
    if p < s.len() {
        if is_letter(s[p]) {
            lemma_run_end(s, p + 1, Run::Word);
        } else if is_digit(s[p]) {
            lemma_run_end(s, p + 1, Run::Number);
        } else if s[p] == '"' {
            lemma_run_end(s, p + 1, Run::Text);
        } else if single(s[p]) is Some {
        } else if alone(s[p]) is Some {
        } else {
            lemma_next_token_advances(s, p + 1);
        }
    }
}

/// A lexer over a source text: hands out the tokens of the text one by one.
pub struct Lexer {
    chars: Vec<char>,
    position: usize,
}

/// A `Lexer` as contracts see it: the text and the position of the next token.
pub struct LexerView {
    pub chars: Seq<char>,
    pub position: int,
}

impl View for Lexer {
    type V = LexerView;

    closed spec fn view(&self) -> LexerView {
        LexerView { chars: self.chars@, position: self.position as int }
    }
}

/// Whether the text is the word.
fn is_word(text: &String, word: &str) -> (r: bool)
    ensures
        r == (text@ == word@),
{
    *text == String::from_str(word)
}

/// The token that a word stands for.
fn word_token(text: String) -> (token: Token)
    ensures
        token@ == word(text@),
{
    if is_word(&text, "const") {
        Token::Const
    } else if is_word(&text, "void") {
        Token::Void
    } else if is_word(&text, "int") {
        Token::Int
    } else if is_word(&text, "char") {
        Token::Char
    } else if is_word(&text, "double") {
        Token::Double
    } else if is_word(&text, "struct") {
        Token::Struct
    } else if is_word(&text, "if") {
        Token::If
    } else if is_word(&text, "else") {
        Token::Else
    } else if is_word(&text, "switch") {
        Token::Switch
    } else if is_word(&text, "case") {
        Token::Case
    } else if is_word(&text, "default") {
        Token::Default
    } else if is_word(&text, "while") {
        Token::While
    } else if is_word(&text, "for") {
        Token::For
    } else if is_word(&text, "do") {
        Token::Do
    } else if is_word(&text, "return") {
        Token::Return
    } else if is_word(&text, "break") {
        Token::Break
    } else if is_word(&text, "continue") {
        Token::Continue
    } else if is_word(&text, "print") {
        Token::Print
    } else if is_word(&text, "scan") {
        Token::Scan
    } else {
        Token::Identifier(text)
    }
}

/// The token that a character is by itself, where it is one.
fn single_token(c: char) -> (r: Option<Token>)
    ensures
        match r {
            Some(token) => single(c) == Some(token@),
            None => single(c) is None,
        },
{
    if c == '(' {
        Some(Token::LeftParen)
    } else if c == ')' {
        Some(Token::RightParen)
    } else if c == '{' {
        Some(Token::LeftBrace)
    } else if c == '}' {
        Some(Token::RightBrace)
    } else if c == '.' {
        Some(Token::Dot)
    } else if c == ',' {
        Some(Token::Comma)
    } else if c == ';' {
        Some(Token::Semicolon)
    } else if c == '+' {
        Some(Token::Plus)
    } else if c == '-' {
        Some(Token::Minus)
    } else if c == '*' {
        Some(Token::Star)
    } else if c == '/' {
        Some(Token::Slash)
    } else {
        None
    }
}

/// The token that a character that may start two tokens is, by itself or with `=` behind it.
fn pair_token(c: char, followed: bool) -> (r: Option<Token>)
    ensures
        match r {
            Some(token) => alone(c) is Some && token@ == (if followed {
                with_equal(c)->0
            } else {
                alone(c)->0
            }),
            None => alone(c) is None,
        },
{
    if c == '<' {
        Some(if followed { Token::LessEqual } else { Token::Less })
    } else if c == '>' {
        Some(if followed { Token::GreaterEqual } else { Token::Greater })
    } else if c == '=' {
        Some(if followed { Token::EqualEqual } else { Token::Equal })
    } else if c == '!' {
        Some(if followed { Token::BangEqual } else { Token::Bang })
    } else {
        None
    }
}

impl Lexer {
    #[verifier::type_invariant]
    spec fn within_text(&self) -> bool {
        self.position <= self.chars@.len()
    }

    /// A lexer at the start of a text.
    pub fn new(input: &str) -> (lexer: Lexer)
        ensures
            lexer@.chars == input@,
            lexer@.position == 0,
    {
        Lexer { chars: to_chars(input), position: 0 }
    }

    /// The end of the run of word characters that starts at `from`.
    fn word_end(&self, from: usize) -> (q: usize)
        requires
            from <= self@.chars.len(),
        ensures
            q == run_end(self@.chars, from as int, Run::Word),
            from <= q <= self@.chars.len(),
    {
        let mut q = from;
        while q < self.chars.len() && (self.chars[q].is_alphanumeric() || self.chars[q] == '_')
            invariant
                from <= q <= self.chars@.len(),
                run_end(self.chars@, from as int, Run::Word) == run_end(
                    self.chars@,
                    q as int,
                    Run::Word,
                ),
            decreases self.chars@.len() - q,
        {
            q += 1;
        }
        q
    }

    /// The end of the run of number characters that starts at `from`.
    fn number_end(&self, from: usize) -> (q: usize)
        requires
            from <= self@.chars.len(),
        ensures
            q == run_end(self@.chars, from as int, Run::Number),
            from <= q <= self@.chars.len(),
    {
        let mut q = from;
        while q < self.chars.len() && ((self.chars[q] >= '0' && self.chars[q] <= '9')
            || self.chars[q] == '.')
            invariant
                from <= q <= self.chars@.len(),
                run_end(self.chars@, from as int, Run::Number) == run_end(
                    self.chars@,
                    q as int,
                    Run::Number,
                ),
            decreases self.chars@.len() - q,
        {
            q += 1;
        }
        q
    }

    /// The end of the run of string characters that starts at `from`.
    fn string_end(&self, from: usize) -> (q: usize)
        requires
            from <= self@.chars.len(),
        ensures
            q == run_end(self@.chars, from as int, Run::Text),
            from <= q <= self@.chars.len(),
    {
        let mut q = from;
        while q < self.chars.len() && self.chars[q] != '"'
            invariant
                from <= q <= self.chars@.len(),
                run_end(self.chars@, from as int, Run::Text) == run_end(
                    self.chars@,
                    q as int,
                    Run::Text,
                ),
            decreases self.chars@.len() - q,
        {
            q += 1;
        }
        q
    }

    /// The next token of the text. At the end of the text, and from then on, `Eof`.
    pub fn next(&mut self) -> (r: Option<Token>)
        ensures
            r is Some,
            r->0@ == next_token_at(old(self)@.chars, old(self)@.position).0,
            final(self)@.position == next_token_at(old(self)@.chars, old(self)@.position).1,
            final(self)@.chars == old(self)@.chars,
            final(self)@.position <= final(self)@.chars.len(),
    {
        proof {
            use_type_invariant(&*self);
        }
        let n = self.chars.len();
        let ghost s = self.chars@;
        let ghost start = self.position as int;
        let mut p = self.position;
        while p < n
            invariant
                p <= n,
                n == s.len(),
                s == self.chars@,
                s == old(self)@.chars,
                start == old(self)@.position,
                self.position <= n,
                next_token_at(s, start) == next_token_at(s, p as int),
            decreases n - p,
        {
            let c = self.chars[p];
            if (c >= 'a' && c <= 'z') || (c >= 'A' && c <= 'Z') {
                let q = self.word_end(p + 1);
                let token = word_token(to_string(&self.chars, p, q));
                self.position = q;
                return Some(token);
            } else if c >= '0' && c <= '9' {
                let q = self.number_end(p + 1);
                let token = Token::Number(to_string(&self.chars, p, q));
                self.position = q;
                return Some(token);
            } else if c == '"' {
                let q = self.string_end(p + 1);
                if q < n {
                    let token = Token::StringLiteral(to_string(&self.chars, p + 1, q));
                    self.position = q + 1;
                    return Some(token);
                } else {
                    self.position = n;
                    return Some(Token::Eof);
                }
            } else {
                match single_token(c) {
                    Some(token) => {
                        self.position = p + 1;
                        return Some(token);
                    },
                    None => {},
                }
                let followed = p + 1 < n && self.chars[p + 1] == '=';
                match pair_token(c, followed) {
                    Some(token) => {
                        self.position = if followed {
                            p + 2
                        } else {
                            p + 1
                        };
                        return Some(token);
                    },
                    None => {},
                }
            }
            p += 1;
        }
        self.position = n;
        Some(Token::Eof)
    }
}

/// The tokens of a text, with `Eof` as the last.
pub fn tokenize_from_string(contents: &str) -> (tokens: Vec<Token>)
    ensures
        lexemes(tokens@) == tokens_from(contents@, 0),
        tokens@.len() >= 1,
        lexemes(tokens@).last() == Lexeme::Eof,
{
    let mut lexer = Lexer::new(contents);
    let mut tokens: Vec<Token> = Vec::new();
    let ghost s = contents@;
    loop
        invariant_except_break
            lexer@.chars == s,
            0 <= lexer@.position <= s.len(),
            lexemes(tokens@) + tokens_from(s, lexer@.position) == tokens_from(s, 0),
        ensures
            lexemes(tokens@) == tokens_from(s, 0),
            tokens@.len() >= 1,
            lexemes(tokens@).last() == Lexeme::Eof,
        decreases s.len() - lexer@.position,
    {
        let ghost p = lexer@.position;
        let ghost before = lexemes(tokens@);
        proof {
            lemma_next_token_advances(s, p);
        }
        let token = match lexer.next() {
            Some(token) => token,
            None => Token::Eof,
        };
        let done = match &token {
            Token::Eof => true,
            _ => false,
        };
        tokens.push(token);
        proof {
            assert(lexemes(tokens@) =~= before.push(token@));
            if done {
                assert(tokens_from(s, p) =~= seq![Lexeme::Eof]);
                assert(before.push(token@) =~= before + tokens_from(s, p));
            } else {
                assert(before.push(token@) + tokens_from(s, lexer@.position) =~= before + tokens_from(
                    s,
                    p,
                ));
            }
        }
        if done {
            break;
        }
    }
    tokens
}

} // verus!
