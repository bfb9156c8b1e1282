use regex::lexer::{lex, Token};

#[test]
fn lexes_all_operators() {
    let tokens = lex(r"|*+?.()[]^$-,{}").unwrap();
    assert_eq!(
        tokens,
        vec![
            Token::Pipe,
            Token::Star,
            Token::Plus,
            Token::Question,
            Token::Dot,
            Token::LParen,
            Token::RParen,
            Token::LBracket,
            Token::RBracket,
            Token::Caret,
            Token::Dollar,
            Token::Dash,
            Token::Comma,
            Token::LBrace,
            Token::RBrace,
        ]
    );
}

#[test]
fn lexes_literals() {
    let tokens = lex(r"abc123").unwrap();
    assert_eq!(
        tokens,
        vec![
            Token::Literal('a'),
            Token::Literal('b'),
            Token::Literal('c'),
            Token::Literal('1'),
            Token::Literal('2'),
            Token::Literal('3')
        ]
    );
}

#[test]
fn lexes_escaped() {
    let tokens = lex(r"\d\w\s\.\\").unwrap();
    assert_eq!(
        tokens,
        vec![
            Token::Escaped('d'),
            Token::Escaped('w'),
            Token::Escaped('s'),
            Token::Escaped('.'),
            Token::Escaped('\\'),
        ]
    );
}

#[test]
fn lexes_dangling_escape() {
    let result = lex(r"abc\");
    assert!(result.is_err());
}
