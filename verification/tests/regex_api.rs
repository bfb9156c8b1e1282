use regex::derivative::is_match;
use regex::error::{LexError, ParseError};
use regex::lexer::{lex, Lexer, Token};
use regex::parser::{ClassItem, Node};
use regex::Regex;
use std::rc::Rc;

fn err(pattern: &str) -> ParseError {
    Regex::new(pattern).unwrap_err()
}

#[test]
fn email_pattern_from_the_program() {
    let regex = Regex::new(r"^[a-zA-Z0-9._%+-]+@[a-zA-Z0-9.-]+\.[a-zA-Z]{2,}$").unwrap();
    assert!(regex.is_match("test@test.com"));
    assert!(regex.is_match("a.b-c@d.co"));
    assert!(!regex.is_match("test@test"));
    assert!(!regex.is_match("a@b.c"));
    assert!(!regex.is_match("@b.co"));
}

#[test]
fn as_str_gives_back_the_pattern() {
    let pattern = r"(ab|c)*\d{1,3}";
    let regex = Regex::new(pattern).unwrap();
    assert_eq!(regex.as_str(), pattern);
    assert_eq!(regex.to_string(), pattern.to_string());
    let parsed: Regex = "a*b".parse().unwrap();
    assert_eq!(parsed.as_str(), "a*b");
    assert!(parsed.is_match("aaab"));
    assert!(!parsed.is_match("aaa"));
}

#[test]
fn regex_matches_whole_input_only() {
    let regex = Regex::new("ab").unwrap();
    assert!(regex.is_match("ab"));
    assert!(!regex.is_match("xab"));
    assert!(!regex.is_match("abx"));
    let anchored = Regex::new("^a$").unwrap();
    assert!(anchored.is_match("a"));
    assert!(!anchored.is_match("aa"));
}

#[test]
fn spaces_in_patterns_are_skipped() {
    let regex = Regex::new("a b").unwrap();
    assert!(regex.is_match("ab"));
    assert!(!regex.is_match("a b"));
}

#[test]
fn parse_errors_of_each_kind() {
    assert_eq!(err("(a"), ParseError::UnclosedParen { open_pos: 0 });
    assert_eq!(err("x()"), ParseError::EmptyGroup { pos: 1 });
    assert_eq!(err("[]"), ParseError::EmptyClass { pos: 0 });
    assert_eq!(err("a[b"), ParseError::UnclosedClass { open_pos: 1 });
    assert_eq!(err("[z-a]"), ParseError::InvalidRange { start: 'z', end: 'a' });
    assert_eq!(err("a{3,1}"), ParseError::InvalidRepeatRange { min: 3, max: 1 });
    assert_eq!(err("a{2"), ParseError::UnclosedBrace { open_pos: 1 });
    assert_eq!(err(r"\q"), ParseError::UnknownEscape('q'));
    assert_eq!(err("a{99999999999}"), ParseError::NumberOverflow);
    assert_eq!(err("a{4294967296}"), ParseError::NumberOverflow);
    assert_eq!(err("a{x}"), ParseError::UnexpectedToken(Token::Literal('x')));
    assert_eq!(err("a{"), ParseError::UnexpectedEndOfInput);
    assert_eq!(err("a|"), ParseError::UnexpectedEndOfInput);
    assert_eq!(err(")"), ParseError::UnexpectedEndOfInput);
    assert_eq!(err("a)"), ParseError::UnexpectedToken(Token::RParen));
    assert_eq!(err("$+"), ParseError::UnexpectedToken(Token::Plus));
    assert_eq!(err("*"), ParseError::UnexpectedToken(Token::Star));
}

#[test]
fn largest_repeat_count_is_accepted() {
    let regex = Regex::new("a{4294967295}").unwrap();
    assert!(!regex.is_match("a"));
    let regex = Regex::new("a{0,}").unwrap();
    assert!(regex.is_match(""));
    assert!(regex.is_match("aaa"));
}

#[test]
fn lex_errors_report_byte_position_and_slice() {
    assert_eq!(
        err("ab\tc"),
        ParseError::LexError { pos: 2, slice: "\tc".to_string() }
    );
    assert_eq!(
        err("\u{e9}\t"),
        ParseError::LexError { pos: 2, slice: "\t".to_string() }
    );
    assert_eq!(
        err("abc\\"),
        ParseError::LexError { pos: 3, slice: "\\".to_string() }
    );
    assert_eq!(
        err("x\t0123456789abc"),
        ParseError::LexError { pos: 1, slice: "\t012345678".to_string() }
    );
}

#[test]
fn lex_error_kinds() {
    assert_eq!(lex("abc\\"), Err(LexError::DanglingEscape));
    assert_eq!(lex("a\tb"), Err(LexError::UnrecognizedToken));
    assert_eq!(lex("\\\n"), Err(LexError::UnrecognizedToken));
    assert_eq!(lex("a\rb"), Err(LexError::UnrecognizedToken));
}

#[test]
fn lexes_unicode_and_spaces() {
    assert_eq!(
        lex("\u{e9} \\\u{e9}  x").unwrap(),
        vec![Token::Literal('\u{e9}'), Token::Escaped('\u{e9}'), Token::Literal('x')]
    );
    assert_eq!(lex("   ").unwrap(), vec![]);
}

#[test]
fn lexer_spans_are_byte_ranges() {
    let mut lexer = Lexer::new("\u{e9}| \\d");
    assert_eq!(lexer.next(), Some(Ok(Token::Literal('\u{e9}'))));
    assert_eq!(lexer.span(), 0..2);
    assert_eq!(lexer.next(), Some(Ok(Token::Pipe)));
    assert_eq!(lexer.span(), 2..3);
    assert_eq!(lexer.next(), Some(Ok(Token::Escaped('d'))));
    assert_eq!(lexer.span(), 4..6);
    assert_eq!(lexer.next(), None);
}

#[test]
fn operators_are_not_literals() {
    assert!(Token::Pipe.is_operator());
    assert!(Token::Dash.is_operator());
    assert!(!Token::Literal('a').is_operator());
    assert!(!Token::Escaped('d').is_operator());
}

#[test]
fn derivative_values() {
    let a = Rc::new(Node::Literal('a'));
    assert_eq!(Node::Literal('a').derivative('a'), Node::Epsilon);
    assert_eq!(Node::Literal('a').derivative('b'), Node::Empty);
    assert_eq!(Node::Star(a.clone()).derivative('a'), Node::Star(a.clone()));
    let ab = Node::Concat(vec![Node::Literal('a'), Node::Literal('b')]);
    assert_eq!(ab.derivative('a'), Node::Literal('b'));
    assert_eq!(ab.derivative('b'), Node::Empty);
    let rep = Node::Repeat { node: a.clone(), min: 2, max: Some(3) };
    assert_eq!(rep.derivative('a'), Node::Repeat { node: a.clone(), min: 1, max: Some(2) });
    let done = Node::Repeat { node: a.clone(), min: 0, max: Some(0) };
    assert_eq!(done.derivative('a'), Node::Empty);
    let alt = Node::Alt(a.clone(), a.clone());
    assert_eq!(alt.derivative('a'), Node::Epsilon);
    let opt_then_b = Node::Concat(vec![Node::Optional(a.clone()), Node::Literal('b')]);
    assert_eq!(opt_then_b.derivative('b'), Node::Epsilon);
    assert_eq!(opt_then_b.derivative('a'), Node::Literal('b'));
}

#[test]
fn nullable_values() {
    let a = Rc::new(Node::Literal('a'));
    assert!(Node::Epsilon.is_nullable());
    assert!(!Node::Empty.is_nullable());
    assert!(Node::Star(a.clone()).is_nullable());
    assert!(!Node::Plus(a.clone()).is_nullable());
    assert!(Node::Concat(vec![]).is_nullable());
    assert!(!Node::Concat(vec![Node::StartAnchor, Node::Literal('a')]).is_nullable());
    assert!(Node::Repeat { node: a.clone(), min: 0, max: None }.is_nullable());
    assert!(!Node::Repeat { node: a.clone(), min: 1, max: None }.is_nullable());
}

#[test]
fn derivative_keeps_the_language() {
    // (a|b)*c
    let node = Node::Concat(vec![
        Node::Star(Rc::new(Node::Group(Rc::new(Node::Alt(
            Rc::new(Node::Literal('a')),
            Rc::new(Node::Literal('b')),
        ))))),
        Node::Literal('c'),
    ]);
    for w in ["", "c", "bc", "abc", "ab", "cc"] {
        let cw = format!("a{}", w);
        assert_eq!(is_match(&node.derivative('a'), w), is_match(&node, &cw));
    }
}

#[test]
fn repeat_of_nullable_part_is_nullable() {
    // (a*){2} matches the empty string: both copies of a* may be empty.
    let node = Node::Repeat { node: Rc::new(Node::Star(Rc::new(Node::Literal('a')))), min: 2, max: Some(2) };
    assert!(node.is_nullable());
    assert!(is_match(&node, ""));
    assert!(is_match(&node, "a"));
    assert!(is_match(&node, "aa"));
    assert!(is_match(&node, "aaaaa"));
    assert!(!is_match(&node, "b"));
}

#[test]
fn repeat_of_optional_part() {
    let regex = Regex::new("(a?){2}").unwrap();
    assert!(regex.is_match(""));
    assert!(regex.is_match("a"));
    assert!(regex.is_match("aa"));
    assert!(!regex.is_match("aaa"));
    let regex = Regex::new("(a?){2,3}b").unwrap();
    assert!(regex.is_match("b"));
    assert!(regex.is_match("aaab"));
    assert!(!regex.is_match("aaaab"));
}

#[test]
fn derivative_of_repeat_skips_empty_copies() {
    // [(a?){1}, b]: after reading b the rest matches the empty string.
    let node = Node::Concat(vec![
        Node::Repeat { node: Rc::new(Node::Optional(Rc::new(Node::Literal('a')))), min: 1, max: Some(1) },
        Node::Literal('b'),
    ]);
    assert_eq!(node.derivative('b'), Node::Epsilon);
    assert!(node.derivative('b').is_nullable());
    assert!(is_match(&node, "b"));
    assert!(is_match(&node, "ab"));
    // The tail of a{2,3} after one copy of a+ that may be empty.
    let a = Rc::new(Node::Literal('a'));
    let rep = Node::Repeat { node: Rc::new(Node::Star(a.clone())), min: 3, max: Some(4) };
    assert_eq!(
        rep.derivative('a'),
        Node::Concat(vec![
            Node::Star(a.clone()),
            Node::Repeat { node: Rc::new(Node::Star(a.clone())), min: 0, max: Some(3) },
        ])
    );
}

#[test]
fn anchors_inside_a_pattern() {
    let start_mid = Node::Concat(vec![Node::Literal('a'), Node::StartAnchor, Node::Literal('b')]);
    assert!(!is_match(&start_mid, "ab"));
    assert!(!is_match(&start_mid, "b"));
    let end_mid = Node::Concat(vec![Node::Literal('a'), Node::EndAnchor, Node::Literal('b')]);
    assert!(!is_match(&end_mid, "ab"));
    assert!(!is_match(&end_mid, "a"));
    assert!(!Regex::new("a^b").unwrap().is_match("ab"));
    assert!(!Regex::new("a$b").unwrap().is_match("ab"));
    // An anchor that something empty stands before still matches at the ends.
    assert!(Regex::new("a*^b").unwrap().is_match("b"));
    assert!(!Regex::new("a*^b").unwrap().is_match("ab"));
    assert!(Regex::new("a$b*").unwrap().is_match("a"));
    assert!(!Regex::new("a$b*").unwrap().is_match("ab"));
    assert!(Regex::new("(^a|b)+").unwrap().is_match("ab"));
    assert!(!Regex::new("(^a|b)+").unwrap().is_match("ba"));
    assert!(Regex::new("^$").unwrap().is_match(""));
    assert!(!Regex::new("^$").unwrap().is_match("x"));
}

#[test]
fn nullable_at_positions() {
    assert!(Node::StartAnchor.nullable_at(true, false));
    assert!(!Node::StartAnchor.nullable_at(false, true));
    assert!(Node::EndAnchor.nullable_at(false, true));
    assert!(!Node::EndAnchor.nullable_at(true, false));
    let both = Node::Concat(vec![Node::StartAnchor, Node::EndAnchor]);
    assert!(both.is_nullable());
    assert!(!both.nullable_at(true, false));
    let a = Rc::new(Node::Literal('a'));
    assert!(Node::Repeat { node: Rc::new(Node::Optional(a.clone())), min: 5, max: None }.is_nullable());
}

#[test]
fn whitespace_shorthand_code_points() {
    for c in ['\t', '\n', '\u{b}', '\u{c}', '\r', ' ', '\u{85}', '\u{a0}', '\u{1680}', '\u{2000}', '\u{200a}', '\u{2028}', '\u{2029}', '\u{202f}', '\u{205f}', '\u{3000}'] {
        assert!(is_match(&Node::ClassShorthand('s'), &c.to_string()), "{:?}", c);
        assert_eq!(c.is_whitespace(), true);
    }
    for c in ['\u{8}', '\u{e}', '\u{200b}', '\u{180e}', '\u{feff}', 'x'] {
        assert!(!is_match(&Node::ClassShorthand('s'), &c.to_string()), "{:?}", c);
        assert_eq!(c.is_whitespace(), false);
    }
}

#[test]
fn shorthand_classes_use_unicode_properties() {
    assert!(is_match(&Node::ClassShorthand('w'), "\u{e9}"));
    assert!(!is_match(&Node::ClassShorthand('w'), "-"));
    assert!(is_match(&Node::ClassShorthand('s'), "\u{2003}"));
    assert!(!is_match(&Node::ClassShorthand('d'), "\u{664}"));
    assert!(!is_match(&Node::ClassShorthand('x'), "x"));
    let class = Node::Class { negated: false, items: vec![ClassItem::Shorthand('w'), ClassItem::Char('-')] };
    assert!(is_match(&class, "-"));
    assert!(is_match(&class, "Z"));
    assert!(!is_match(&class, "."));
}

#[test]
fn clone_keeps_the_tree() {
    let node = Node::Concat(vec![
        Node::Plus(Rc::new(Node::Literal('a'))),
        Node::Class { negated: true, items: vec![ClassItem::Range('0', '9')] },
        Node::Repeat { node: Rc::new(Node::AnyChar), min: 1, max: None },
    ]);
    assert_eq!(node.clone(), node);
}

#[test]
fn readme_feature_syntax() {
    let cases: Vec<(&str, &str, bool)> = vec![
        ("abc", "abc", true),
        ("a.c", "axc", true),
        ("a.c", "ac", false),
        ("ab|cd", "cd", true),
        ("ab|cd", "ad", false),
        ("a*", "", true),
        ("a+", "", false),
        ("a?b", "b", true),
        ("a{2,3}", "aaa", true),
        ("a{2,3}", "aaaa", false),
        ("a{2}", "aa", true),
        ("a{2}", "aaa", false),
        ("(ab)+", "abab", true),
        ("[abc]+", "cab", true),
        ("[^abc]", "d", true),
        ("[^abc]", "a", false),
        ("[a-c-]", "-", true),
        ("[.*]", "*", true),
        ("^a$", "a", true),
        (r"\d\w\s", "7_ ", true),
        (r"\d", "x", false),
        (r"a\.b", "a.b", true),
        (r"a\.b", "axb", false),
        (r"\n\t", "\n\t", true),
    ];
    for (pattern, input, expected) in cases {
        let regex = Regex::new(pattern).unwrap();
        assert_eq!(regex.is_match(input), expected, "{} on {:?}", pattern, input);
    }
}

#[test]
fn cloned_regex_behaves_the_same() {
    let regex = Regex::new("x(y|z)*").unwrap();
    let copy = regex.clone();
    assert_eq!(copy, regex);
    assert_eq!(copy.as_str(), "x(y|z)*");
    assert!(copy.is_match("xyzzy"));
}

#[test]
fn operator_characters_inside_classes() {
    let ops = [
        ('|', Token::Pipe),
        ('*', Token::Star),
        ('+', Token::Plus),
        ('?', Token::Question),
        ('.', Token::Dot),
        ('(', Token::LParen),
        (')', Token::RParen),
        ('^', Token::Caret),
        ('$', Token::Dollar),
        (',', Token::Comma),
        ('{', Token::LBrace),
        ('}', Token::RBrace),
        ('[', Token::LBracket),
    ];
    for (c, t) in ops {
        assert_eq!(lex(&c.to_string()).unwrap(), vec![t]);
        let pattern = format!("[x{}]", c);
        let regex = Regex::new(&pattern).unwrap();
        assert!(regex.is_match(&c.to_string()), "{}", pattern);
        assert!(regex.is_match("x"));
        assert!(!regex.is_match("y"));
    }
}

#[test]
fn nothing_to_concatenate() {
    assert_eq!(err(""), ParseError::UnexpectedEndOfInput);
    assert_eq!(err("   "), ParseError::UnexpectedEndOfInput);
    assert_eq!(err("(|a)"), ParseError::UnexpectedEndOfInput);
    assert_eq!(err("a||b"), ParseError::UnexpectedEndOfInput);
}

#[test]
fn derivative_at_knows_the_start() {
    let node = Node::Concat(vec![Node::StartAnchor, Node::Literal('a')]);
    assert_eq!(node.derivative_at('a', true), Node::Epsilon);
    assert_eq!(node.derivative_at('a', false), Node::Empty);
    assert_eq!(node.derivative('a'), Node::Epsilon);
    let end = Node::Concat(vec![Node::EndAnchor, Node::Literal('a')]);
    assert_eq!(end.derivative_at('a', true), Node::Empty);
}

#[test]
fn negated_class_and_ranges() {
    let regex = Regex::new("[^a-cx]").unwrap();
    assert!(regex.is_match("d"));
    assert!(!regex.is_match("b"));
    assert!(!regex.is_match("x"));
    assert!(!regex.is_match(""));
    assert!(Regex::new("[a-a]").unwrap().is_match("a"));
    assert_eq!(err("[^]"), ParseError::EmptyClass { pos: 0 });
    assert_eq!(err("ab[c-b]"), ParseError::InvalidRange { start: 'c', end: 'b' });
}
