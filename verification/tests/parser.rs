use regex::error::ParseError;
use regex::lexer::Token;
use regex::parser::{ClassItem, Node, Parser};
use std::rc::Rc;


#[test]
fn parser_simple_regex() {
    let tokens = vec![
        Token::Literal('a'),
        Token::Star,
        Token::Literal('b'),
        Token::Pipe,
        Token::Literal('c'),
    ];
    let mut parser = Parser::new(tokens);
    let ast = parser.parse().unwrap();
    assert_eq!(
        ast,
        Node::Alt(
            Rc::new(Node::Concat(vec![
                Node::Star(Rc::new(Node::Literal('a'))),
                Node::Literal('b')
            ])),
            Rc::new(Node::Literal('c'))
        )
    );
}

#[test]
fn parser_grouped_regex() {
    let tokens = vec![
        Token::LParen,
        Token::Literal('a'),
        Token::Pipe,
        Token::Literal('b'),
        Token::RParen,
        Token::Star,
    ];
    let mut parser = Parser::new(tokens);
    let ast = parser.parse().unwrap();
    assert_eq!(
        ast,
        Node::Star(Rc::new(Node::Group(Rc::new(Node::Alt(
            Rc::new(Node::Literal('a')),
            Rc::new(Node::Literal('b'))
        )))))
    );
}

#[test]
fn parser_plus_and_optional() {
    let tokens = vec![
        Token::Literal('a'),
        Token::Plus,
        Token::Literal('b'),
        Token::Question,
    ];
    let mut parser = Parser::new(tokens);
    let ast = parser.parse().unwrap();
    assert_eq!(
        ast,
        Node::Concat(vec![
            Node::Plus(Rc::new(Node::Literal('a'))),
            Node::Optional(Rc::new(Node::Literal('b')))
        ])
    );
}

#[test]
fn parser_any_char() {
    let tokens = vec![
        Token::Literal('a'),
        Token::Dot,
        Token::Star,
        Token::Literal('b'),
    ];
    let mut parser = Parser::new(tokens);
    let ast = parser.parse().unwrap();
    assert_eq!(
        ast,
        Node::Concat(vec![
            Node::Literal('a'),
            Node::Star(Rc::new(Node::AnyChar)),
            Node::Literal('b'),
        ])
    );
}

#[test]
fn parser_escaped_sequences_without_consuming_next_token() {
    let tokens = vec![Token::Escaped('d'), Token::Literal('a')];
    let mut parser = Parser::new(tokens);
    let ast = parser.parse().unwrap();
    assert_eq!(
        ast,
        Node::Concat(vec![Node::ClassShorthand('d'), Node::Literal('a'),])
    );
}

#[test]
fn parser_start_end_anchors() {
    let tokens = vec![Token::Caret, Token::Literal('a'), Token::Dollar];
    let mut parser = Parser::new(tokens);
    let ast = parser.parse().unwrap();
    assert_eq!(
        ast,
        Node::Concat(vec![Node::StartAnchor, Node::Literal('a'), Node::EndAnchor,])
    );
}

#[test]
fn parser_nested_groups() {
    let tokens = vec![
        Token::LParen,
        Token::LParen,
        Token::Literal('a'),
        Token::Pipe,
        Token::Literal('b'),
        Token::RParen,
        Token::Literal('c'),
        Token::RParen,
        Token::Star,
    ];
    let mut parser = Parser::new(tokens);
    let ast = parser.parse().unwrap();
    assert_eq!(
        ast,
        Node::Star(Rc::new(Node::Group(Rc::new(Node::Concat(vec![
            Node::Group(Rc::new(Node::Alt(
                Rc::new(Node::Literal('a')),
                Rc::new(Node::Literal('b'))
            ))),
            Node::Literal('c'),
        ])))))
    );
}

#[test]
fn parser_class_with_range() {
    let tokens = vec![
        Token::LBracket,
        Token::Literal('a'),
        Token::Dash,
        Token::Literal('z'),
        Token::RBracket,
    ];
    let mut parser = Parser::new(tokens);
    let ast = parser.parse().unwrap();
    assert_eq!(
        ast,
        Node::Class {
            negated: false,
            items: vec![ClassItem::Range('a', 'z')],
        }
    );
}

#[test]
fn parser_class_with_negation_and_shorthand() {
    let tokens = vec![
        Token::LBracket,
        Token::Caret,
        Token::Escaped('d'),
        Token::RBracket,
    ];
    let mut parser = Parser::new(tokens);
    let ast = parser.parse().unwrap();
    assert_eq!(
        ast,
        Node::Class {
            negated: true,
            items: vec![ClassItem::Shorthand('d')],
        }
    );
}

#[test]
fn parser_class_with_multiple_items() {
    let tokens = vec![
        Token::LBracket,
        Token::Literal('a'),
        Token::Dash,
        Token::Literal('z'),
        Token::Escaped('d'),
        Token::RBracket,
    ];
    let mut parser = Parser::new(tokens);
    let ast = parser.parse().unwrap();
    assert_eq!(
        ast,
        Node::Class {
            negated: false,
            items: vec![ClassItem::Range('a', 'z'), ClassItem::Shorthand('d'),],
        }
    );
}

#[test]
fn parser_unescaped_bracket_in_class() {
    let tokens = vec![
        Token::LBracket,
        Token::Literal('a'),
        Token::LBracket,
        Token::Literal('b'),
        Token::RBracket,
    ];
    let mut parser = Parser::new(tokens);
    let ast = parser.parse().unwrap();
    assert_eq!(
        ast,
        Node::Class {
            negated: false,
            items: vec![
                ClassItem::Char('a'),
                ClassItem::Char('['),
                ClassItem::Char('b')
            ],
        }
    );
}

#[test]
fn parser_repeat_with_min_max() {
    let tokens = vec![
        Token::Literal('a'),
        Token::LBrace,
        Token::Literal('2'),
        Token::Comma,
        Token::Literal('5'),
        Token::RBrace,
    ];
    let mut parser = Parser::new(tokens);
    let ast = parser.parse().unwrap();
    assert_eq!(
        ast,
        Node::Repeat {
            node: Rc::new(Node::Literal('a')),
            min: 2,
            max: Some(5),
        }
    );
}

#[test]
fn parser_repeat_with_min_only() {
    let tokens = vec![
        Token::Literal('a'),
        Token::LBrace,
        Token::Literal('3'),
        Token::Comma,
        Token::RBrace,
    ];
    let mut parser = Parser::new(tokens);
    let ast = parser.parse().unwrap();
    assert_eq!(
        ast,
        Node::Repeat {
            node: Rc::new(Node::Literal('a')),
            min: 3,
            max: None,
        }
    );
}

#[test]
fn parser_fails_on_repeated_start_anchor() {
    let tokens = vec![Token::Caret, Token::Star];
    let mut parser = Parser::new(tokens);
    let err = parser.parse().unwrap_err();
    assert_eq!(err, ParseError::UnexpectedToken(Token::Star));
}

#[test]
fn parser_fails_on_unclosed_parenthesis() {
    let tokens = vec![Token::LParen, Token::Literal('a')];
    let mut parser = Parser::new(tokens);
    let err = parser.parse().unwrap_err();
    assert_eq!(err, ParseError::UnclosedParen { open_pos: 0 });
}

#[test]
fn parser_fails_on_double_quantifier() {
    let tokens = vec![Token::Literal('a'), Token::Star, Token::Star];
    let mut parser = Parser::new(tokens);
    let err = parser.parse().unwrap_err();
    assert_eq!(err, ParseError::UnexpectedToken(Token::Star));
}

#[test]
fn parser_fails_on_empty_group() {
    let tokens = vec![Token::LParen, Token::RParen];
    let mut parser = Parser::new(tokens);
    let err = parser.parse().unwrap_err();
    assert_eq!(err, ParseError::EmptyGroup { pos: 0 });
}

#[test]
fn parser_fails_on_empty_class() {
    let tokens = vec![Token::LBracket, Token::RBracket];
    let mut parser = Parser::new(tokens);
    let err = parser.parse().unwrap_err();
    assert_eq!(err, ParseError::EmptyClass { pos: 0 });
}
