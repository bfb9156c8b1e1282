use regex::derivative::is_match;
use regex::parser::{ClassItem, Node};
use std::rc::Rc;

#[test]
fn matches_simple_literal_concat() {
    // abc
    let node = Node::Concat(vec![
        Node::Literal('a'),
        Node::Literal('b'),
        Node::Literal('c'),
    ]);
    assert_eq!(is_match(&node, "abc"), true);
    assert_eq!(is_match(&node, "abd"), false);
    assert_eq!(is_match(&node, "ab"), false);
    assert_eq!(is_match(&node, "abcd"), false);
}

#[test]
fn matches_alternation() {
    // a|b
    let node = Node::Alt(Rc::new(Node::Literal('a')), Rc::new(Node::Literal('b')));
    assert_eq!(is_match(&node, "a"), true);
    assert_eq!(is_match(&node, "b"), true);
    assert_eq!(is_match(&node, "c"), false);
    assert_eq!(is_match(&node, ""), false);
}

#[test]
fn matches_star() {
    // a*
    let node = Node::Star(Rc::new(Node::Literal('a')));
    assert_eq!(is_match(&node, ""), true);
    assert_eq!(is_match(&node, "a"), true);
    assert_eq!(is_match(&node, "aaaaa"), true);
    assert_eq!(is_match(&node, "aaab"), false);
}

#[test]
fn matches_plus() {
    // a+
    let node = Node::Plus(Rc::new(Node::Literal('a')));
    assert_eq!(is_match(&node, ""), false);
    assert_eq!(is_match(&node, "a"), true);
    assert_eq!(is_match(&node, "aaa"), true);
    assert_eq!(is_match(&node, "aab"), false);
}

#[test]
fn matches_optional() {
    // ab?c
    let node = Node::Concat(vec![
        Node::Literal('a'),
        Node::Optional(Rc::new(Node::Literal('b'))),
        Node::Literal('c'),
    ]);
    assert_eq!(is_match(&node, "ac"), true);
    assert_eq!(is_match(&node, "abc"), true);
    assert_eq!(is_match(&node, "abbc"), false);
}

#[test]
fn matches_any_char() {
    // a.c
    let node = Node::Concat(vec![Node::Literal('a'), Node::AnyChar, Node::Literal('c')]);
    assert_eq!(is_match(&node, "abc"), true);
    assert_eq!(is_match(&node, "azc"), true);
    assert_eq!(is_match(&node, "ac"), false);
}

#[test]
fn matches_class_range_and_negation() {
    // [a-z]
    let lower = Node::Class {
        negated: false,
        items: vec![ClassItem::Range('a', 'z')],
    };
    assert_eq!(is_match(&lower, "m"), true);
    assert_eq!(is_match(&lower, "M"), false);

    // [^a-z]
    let not_lower = Node::Class {
        negated: true,
        items: vec![ClassItem::Range('a', 'z')],
    };
    assert_eq!(is_match(&not_lower, "M"), true);
    assert_eq!(is_match(&not_lower, "m"), false);
}

#[test]
fn matches_shorthand_classes() {
    assert_eq!(is_match(&Node::ClassShorthand('d'), "5"), true);
    assert_eq!(is_match(&Node::ClassShorthand('d'), "x"), false);

    assert_eq!(is_match(&Node::ClassShorthand('w'), "_"), true);
    assert_eq!(is_match(&Node::ClassShorthand('s'), " "), true);
    assert_eq!(is_match(&Node::ClassShorthand('s'), "x"), false);
}

#[test]
fn matches_exact_and_bounded_repeat() {
    // a{2,3}
    let node = Node::Repeat {
        node: Rc::new(Node::Literal('a')),
        min: 2,
        max: Some(3),
    };
    assert_eq!(is_match(&node, "a"), false);
    assert_eq!(is_match(&node, "aa"), true);
    assert_eq!(is_match(&node, "aaa"), true);
    assert_eq!(is_match(&node, "aaaa"), false);
}

#[test]
fn matches_unbounded_min_repeat() {
    // a{2,}
    let node = Node::Repeat {
        node: Rc::new(Node::Literal('a')),
        min: 2,
        max: None,
    };
    assert_eq!(is_match(&node, "a"), false);
    assert_eq!(is_match(&node, "aa"), true);
    assert_eq!(is_match(&node, "aaaaaaaa"), true);
}

#[test]
fn matches_groups_transparently() {
    // (ab)+
    let node = Node::Plus(Rc::new(Node::Group(Rc::new(Node::Concat(vec![
        Node::Literal('a'),
        Node::Literal('b'),
    ])))));
    assert_eq!(is_match(&node, "ab"), true);
    assert_eq!(is_match(&node, "abab"), true);
    assert_eq!(is_match(&node, "aba"), false);
}

#[test]
fn start_anchor_only_matches_at_position_zero() {
    // ^ab
    let node = Node::Concat(vec![
        Node::StartAnchor,
        Node::Literal('a'),
        Node::Literal('b'),
    ]);
    assert_eq!(is_match(&node, "ab"), true);
}

#[test]
fn end_anchor_matches_at_true_end() {
    // ab$
    let node = Node::Concat(vec![
        Node::Literal('a'),
        Node::Literal('b'),
        Node::EndAnchor,
    ]);
    assert_eq!(is_match(&node, "ab"), true);
    assert_eq!(is_match(&node, "abc"), false);
}

#[test]
fn empty_and_epsilon_base_cases() {
    assert_eq!(is_match(&Node::Empty, ""), false);
    assert_eq!(is_match(&Node::Empty, "a"), false);
    assert_eq!(is_match(&Node::Epsilon, ""), true);
    assert_eq!(is_match(&Node::Epsilon, "a"), false);
}
