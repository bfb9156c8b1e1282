use crate::error::ParseError;
use crate::language::{bounds_ok, lemma_all_bounds_ok};
use crate::error::LexError;
use crate::lexer::{
    lemma_scan, lemma_skip_spaces, lex_from, op_token, scan, skip_spaces, tokenize, Lexeme, Token,
};
use crate::model::{is_digit, Re};
use crate::parser::ClassItem;
use vstd::prelude::*;

verus! {

// The grammar that the parser reads, as functions of the token sequence and a position.
// Each returns what is parsed (or why not) together with the position after it.
//
//   alternation = concatenation ('|' concatenation)*
//   concatenation = repetition+            (up to '|', ')' or the end)
//   repetition = atom ('*' | '+' | '?' | '{' range '}')?
//   atom = literal | '.' | '^' | '$' | '(' alternation ')' | '[' class ']' | escape
//
// The rules that loop check that the position moved forward before going on; the
// `Unreachable` fallback they give otherwise is never taken (`lemma_parse_sound`).

/// The token at position `p`, if there is one.
pub open spec fn tok(toks: Seq<Token>, p: nat) -> Option<Token> {
    if p < toks.len() {
        Some(toks[p as int])
    } else {
        None
    }
}

/// The position after taking one token at `p` (none at the end).
pub open spec fn next(toks: Seq<Token>, p: nat) -> nat {
    if p < toks.len() {
        p + 1
    } else {
        p
    }
}

/// How many tokens are left from `p`.
pub open spec fn rem(toks: Seq<Token>, p: nat) -> nat {
    if p < toks.len() {
        (toks.len() - p) as nat
    } else {
        0
    }
}

/// Can `c` stand escaped for itself?
pub open spec fn is_escapable(c: char) -> bool {
    c == '.' || c == '*' || c == '+' || c == '?' || c == '(' || c == ')' || c == '[' || c == ']'
        || c == '^' || c == '$' || c == '-' || c == ',' || c == '{' || c == '}' || c == '\\'
        || c == '|'
}

/// What `\c` stands for.
pub open spec fn escape(c: char) -> Result<Re, ParseError> {
    if c == 'd' || c == 'w' || c == 's' {
        Ok(Re::ClassShorthand(c))
    } else if c == 'n' {
        Ok(Re::Literal('\n'))
    } else if c == 't' {
        Ok(Re::Literal('\t'))
    } else if c == 'r' {
        Ok(Re::Literal('\r'))
    } else if is_escapable(c) {
        Ok(Re::Literal(c))
    } else {
        Err(ParseError::UnknownEscape(c))
    }
}

/// The character that an operator token stands for inside a class, where it has no meaning.
pub open spec fn op_char(t: Token) -> Option<char> {
    match t {
        Token::Pipe => Some('|'),
        Token::Star => Some('*'),
        Token::Plus => Some('+'),
        Token::Question => Some('?'),
        Token::Dot => Some('.'),
        Token::LParen => Some('('),
        Token::RParen => Some(')'),
        Token::Caret => Some('^'),
        Token::Dollar => Some('$'),
        Token::Comma => Some(','),
        Token::LBrace => Some('{'),
        Token::RBrace => Some('}'),
        Token::LBracket => Some('['),
        _ => None,
    }
}

/// Is the token at `p` a digit literal?
pub open spec fn is_digit_tok(toks: Seq<Token>, p: nat) -> bool {
    match tok(toks, p) {
        Some(Token::Literal(c)) => is_digit(c),
        _ => false,
    }
}

/// The end of the run of digit literals that starts at `p`.
pub open spec fn digit_end(toks: Seq<Token>, p: nat) -> nat
    decreases rem(toks, p),
{
    if is_digit_tok(toks, p) {
        digit_end(toks, p + 1)
    } else {
        p
    }
}

pub open spec fn digit_value(c: char) -> nat {
    (c as u32 - '0' as u32) as nat
}

/// The decimal value of the digit literals from `p` up to `q`.
pub open spec fn digits_value(toks: Seq<Token>, p: nat, q: nat) -> nat
    decreases q,
{
    if q <= p {
        0
    } else {
        let d = match toks[q - 1] {
            Token::Literal(c) => digit_value(c),
            _ => 0,
        };
        digits_value(toks, p, (q - 1) as nat) * 10 + d
    }
}

/// A repetition count at `p`.
pub open spec fn number(toks: Seq<Token>, p: nat) -> (Result<u32, ParseError>, nat) {
    let q = digit_end(toks, p);
    if q == p {
        match tok(toks, p) {
            Some(t) => (Err(ParseError::UnexpectedToken(t)), p + 1),
            None => (Err(ParseError::UnexpectedEndOfInput), p),
        }
    } else {
        let v = digits_value(toks, p, q);
        if v > u32::MAX {
            (Err(ParseError::NumberOverflow), q)
        } else {
            (Ok(v as u32), q)
        }
    }
}

/// The bounds `m`, `m,` or `m,n` of a repetition at `p`.
pub open spec fn range(toks: Seq<Token>, p: nat) -> (Result<(u32, Option<u32>), ParseError>, nat) {
    let (r, q) = number(toks, p);
    match r {
        Err(e) => (Err(e), q),
        Ok(min) => if tok(toks, q) == Some(Token::Comma) {
            let q1 = q + 1;
            if is_digit_tok(toks, q1) {
                let (r2, q2) = number(toks, q1);
                match r2 {
                    Err(e) => (Err(e), q2),
                    Ok(max) => (Ok((min, Some(max))), q2),
                }
            } else {
                (Ok((min, None)), q1)
            }
        } else {
            (Ok((min, Some(min))), q)
        },
    }
}

/// The items of a class from `p` up to its closing `]`, which is left in place.
pub open spec fn class_items(toks: Seq<Token>, items: Seq<ClassItem>, p: nat, open_pos: nat) -> (
    Result<Seq<ClassItem>, ParseError>,
    nat,
)
    decreases rem(toks, p),
{
    match tok(toks, p) {
        None => (Err(ParseError::UnclosedClass { open_pos: open_pos as usize }), p),
        Some(Token::RBracket) => (Ok(items), p),
        Some(Token::Escaped(c)) => match escape(c) {
            Err(e) => (Err(e), p + 1),
            Ok(Re::ClassShorthand(k)) => class_items(
                toks,
                items.push(ClassItem::Shorthand(k)),
                p + 1,
                open_pos,
            ),
            Ok(Re::Literal(l)) => class_items(toks, items.push(ClassItem::Char(l)), p + 1, open_pos),
            Ok(_) => (Err(ParseError::Unreachable), p + 1),
        },
        Some(Token::Literal(start)) => {
            let p1 = p + 1;
            match (tok(toks, p1), tok(toks, p1 + 1)) {
                (Some(Token::Dash), Some(Token::Literal(end))) => if end < start {
                    (Err(ParseError::InvalidRange { start, end }), p1)
                } else {
                    class_items(toks, items.push(ClassItem::Range(start, end)), p1 + 2, open_pos)
                },
                _ => class_items(toks, items.push(ClassItem::Char(start)), p1, open_pos),
            }
        },
        Some(Token::Dash) => class_items(toks, items.push(ClassItem::Char('-')), p + 1, open_pos),
        Some(t) => match op_char(t) {
            Some(ch) => class_items(toks, items.push(ClassItem::Char(ch)), p + 1, open_pos),
            None => (Err(ParseError::UnexpectedToken(t)), p + 1),
        },
    }
}

/// A class whose `[` stood at `p - 1`.
pub open spec fn class(toks: Seq<Token>, p: nat) -> (Result<Re, ParseError>, nat) {
    let open_pos = (p - 1) as nat;
    let negated = tok(toks, p) == Some(Token::Caret);
    let start = if negated {
        p + 1
    } else {
        p
    };
    let (r, q) = class_items(toks, Seq::empty(), start, open_pos);
    match r {
        Err(e) => (Err(e), q),
        Ok(items) => if items.len() == 0 {
            (Err(ParseError::EmptyClass { pos: open_pos as usize }), next(toks, q))
        } else {
            (Ok(Re::Class(negated, items)), next(toks, q))
        },
    }
}

/// The whole pattern: an alternation that uses up every token.
pub open spec fn parse(toks: Seq<Token>, p: nat) -> (Result<Re, ParseError>, nat) {
    let (r, q) = alternation(toks, p);
    match r {
        Err(e) => (Err(e), q),
        Ok(n) => match tok(toks, q) {
            Some(t) => (Err(ParseError::UnexpectedToken(t)), q),
            None => (Ok(n), q),
        },
    }
}

pub open spec fn alternation(toks: Seq<Token>, p: nat) -> (Result<Re, ParseError>, nat)
    decreases rem(toks, p), 6nat,
{
    let (r, q) = concatenation(toks, p);
    match r {
        Err(e) => (Err(e), q),
        Ok(left) => if p <= q {
            alternation_rest(toks, left, q)
        } else {
            (Err(ParseError::Unreachable), q)
        },
    }
}

/// The alternation after its first branches, which make up `left`.
pub open spec fn alternation_rest(toks: Seq<Token>, left: Re, p: nat) -> (Result<Re, ParseError>, nat)
    decreases rem(toks, p), 5nat,
{
    if tok(toks, p) == Some(Token::Pipe) {
        let (r, q) = concatenation(toks, p + 1);
        match r {
            Err(e) => (Err(e), q),
            Ok(right) => if p < q {
                alternation_rest(toks, Re::Alt(Box::new(left), Box::new(right)), q)
            } else {
                (Err(ParseError::Unreachable), q)
            },
        }
    } else {
        (Ok(left), p)
    }
}

pub open spec fn concatenation(toks: Seq<Token>, p: nat) -> (Result<Re, ParseError>, nat)
    decreases rem(toks, p), 4nat,
{
    let (r, q) = repetitions(toks, Seq::empty(), p);
    match r {
        Err(e) => (Err(e), q),
        Ok(nodes) => if nodes.len() == 0 {
            (Err(ParseError::UnexpectedEndOfInput), q)
        } else if nodes.len() == 1 {
            (Ok(nodes[0]), q)
        } else {
            (Ok(Re::Concat(nodes)), q)
        },
    }
}

/// The repetitions of a concatenation from `p` on, after `nodes`.
pub open spec fn repetitions(toks: Seq<Token>, nodes: Seq<Re>, p: nat) -> (
    Result<Seq<Re>, ParseError>,
    nat,
)
    decreases rem(toks, p), 3nat,
{
    match tok(toks, p) {
        None => (Ok(nodes), p),
        Some(Token::Pipe) => (Ok(nodes), p),
        Some(Token::RParen) => (Ok(nodes), p),
        Some(_) => {
            let (r, q) = repetition(toks, p);
            match r {
                Err(e) => (Err(e), q),
                Ok(n) => if p < q {
                    repetitions(toks, nodes.push(n), q)
                } else {
                    (Err(ParseError::Unreachable), q)
                },
            }
        },
    }
}

pub open spec fn repetition(toks: Seq<Token>, p: nat) -> (Result<Re, ParseError>, nat)
    decreases rem(toks, p), 2nat,
{
    let (r, q) = atom(toks, p);
    match r {
        Err(e) => (Err(e), q),
        Ok(node) => {
            let quantifier = match tok(toks, q) {
                Some(Token::Star) => true,
                Some(Token::Plus) => true,
                Some(Token::Question) => true,
                _ => false,
            };
            if (node is StartAnchor || node is EndAnchor) && quantifier {
                (Err(ParseError::UnexpectedToken(toks[q as int])), q + 1)
            } else {
                match tok(toks, q) {
                    Some(Token::Star) => (Ok(Re::Star(Box::new(node))), q + 1),
                    Some(Token::Plus) => (Ok(Re::Plus(Box::new(node))), q + 1),
                    Some(Token::Question) => (Ok(Re::Optional(Box::new(node))), q + 1),
                    Some(Token::LBrace) => {
                        let (rg, q2) = range(toks, q + 1);
                        match rg {
                            Err(e) => (Err(e), q2),
                            Ok((min, max)) => if tok(toks, q2) == Some(Token::RBrace) {
                                match max {
                                    Some(m) => if m < min {
                                        (
                                            Err(ParseError::InvalidRepeatRange { min, max: m }),
                                            q2 + 1,
                                        )
                                    } else {
                                        (Ok(Re::Repeat(Box::new(node), min, max)), q2 + 1)
                                    },
                                    None => (Ok(Re::Repeat(Box::new(node), min, max)), q2 + 1),
                                }
                            } else {
                                (
                                    Err(ParseError::UnclosedBrace { open_pos: q as usize }),
                                    next(toks, q2),
                                )
                            },
                        }
                    },
                    _ => (Ok(node), q),
                }
            }
        },
    }
}

pub open spec fn atom(toks: Seq<Token>, p: nat) -> (Result<Re, ParseError>, nat)
    decreases rem(toks, p), 1nat,
{
    match tok(toks, p) {
        None => (Err(ParseError::UnexpectedEndOfInput), p),
        Some(t) => {
            let q = p + 1;
            match t {
                Token::Literal(c) => (Ok(Re::Literal(c)), q),
                Token::Dot => (Ok(Re::AnyChar), q),
                Token::Caret => (Ok(Re::StartAnchor), q),
                Token::Dollar => (Ok(Re::EndAnchor), q),
                Token::LParen => if tok(toks, q) == Some(Token::RParen) {
                    (Err(ParseError::EmptyGroup { pos: p as usize }), q)
                } else {
                    let (r, q2) = alternation(toks, q);
                    match r {
                        Err(e) => (Err(e), q2),
                        Ok(inner) => if tok(toks, q2) == Some(Token::RParen) {
                            (Ok(Re::Group(Box::new(inner))), q2 + 1)
                        } else {
                            (Err(ParseError::UnclosedParen { open_pos: p as usize }), next(toks, q2))
                        },
                    }
                },
                Token::LBracket => class(toks, q),
                Token::Escaped(c) => (escape(c), q),
                other => (Err(ParseError::UnexpectedToken(other)), q),
            }
        },
    }
}

/// Is a range item in order (`start <= end`)?  Other items are.
pub open spec fn item_ordered(item: ClassItem) -> bool {
    match item {
        ClassItem::Range(start, end) => start <= end,
        _ => true,
    }
}

/// Is every item of a class in order?
pub open spec fn items_ordered(items: Seq<ClassItem>) -> bool {
    forall|i: int| 0 <= i < items.len() ==> #[trigger] item_ordered(items[i])
}

/// The items of a class come out in order, up to the first `]` from `p`, and an error is
/// one of the class's own: no closing `]`, an unknown escape or a range out of order.
proof fn lemma_class_items_shape(toks: Seq<Token>, items: Seq<ClassItem>, p: nat, open_pos: nat)
    requires
        p <= toks.len(),
        items_ordered(items),
    ensures
        p <= class_items(toks, items, p, open_pos).1 <= toks.len(),
        forall|j: int|
            p <= j < class_items(toks, items, p, open_pos).1 ==> #[trigger] toks[j]
                != Token::RBracket,
        class_items(toks, items, p, open_pos).0 matches Ok(its) ==> tok(
            toks,
            class_items(toks, items, p, open_pos).1,
        ) == Some(Token::RBracket) && items_ordered(its),
        class_items(toks, items, p, open_pos).0 matches Err(e) ==> (e matches ParseError::UnclosedClass {
            open_pos: o,
        } && o == open_pos as usize) || e is UnknownEscape || (e matches ParseError::InvalidRange {
            start,
            end,
        } && end < start),
    decreases rem(toks, p),
{
    match tok(toks, p) {
        None => {},
        Some(Token::RBracket) => {},
        Some(Token::Escaped(c)) => {
            match escape(c) {
                Ok(Re::ClassShorthand(k)) => {
                    let its = items.push(ClassItem::Shorthand(k));
                    assert(items_ordered(its)) by {
                        assert forall|i: int| 0 <= i < its.len() implies #[trigger] item_ordered(
                            its[i],
                        ) by {
                            if i < items.len() {
                                assert(its[i] == items[i]);
                            }
                        }
                    }
                    lemma_class_items_shape(toks, its, p + 1, open_pos);
                },
                Ok(Re::Literal(l)) => {
                    let its = items.push(ClassItem::Char(l));
                    assert(items_ordered(its)) by {
                        assert forall|i: int| 0 <= i < its.len() implies #[trigger] item_ordered(
                            its[i],
                        ) by {
                            if i < items.len() {
                                assert(its[i] == items[i]);
                            }
                        }
                    }
                    lemma_class_items_shape(toks, its, p + 1, open_pos);
                },
                _ => {},
            }
        },
        Some(Token::Literal(start)) => {
            let p1 = p + 1;
            match (tok(toks, p1), tok(toks, p1 + 1)) {
                (Some(Token::Dash), Some(Token::Literal(end))) => {
                    if !(end < start) {
                        let its = items.push(ClassItem::Range(start, end));
                        assert(items_ordered(its)) by {
                            assert forall|i: int| 0 <= i < its.len() implies #[trigger] item_ordered(
                                its[i],
                            ) by {
                                if i < items.len() {
                                    assert(its[i] == items[i]);
                                }
                            }
                        }
                        lemma_class_items_shape(toks, its, p1 + 2, open_pos);
                    }
                },
                _ => {
                    let its = items.push(ClassItem::Char(start));
                    assert(items_ordered(its)) by {
                        assert forall|i: int| 0 <= i < its.len() implies #[trigger] item_ordered(
                            its[i],
                        ) by {
                            if i < items.len() {
                                assert(its[i] == items[i]);
                            }
                        }
                    }
                    lemma_class_items_shape(toks, its, p1, open_pos);
                },
            }
        },
        Some(Token::Dash) => {
            let its = items.push(ClassItem::Char('-'));
            assert(items_ordered(its)) by {
                assert forall|i: int| 0 <= i < its.len() implies #[trigger] item_ordered(its[i]) by {
                    if i < items.len() {
                        assert(its[i] == items[i]);
                    }
                }
            }
            lemma_class_items_shape(toks, its, p + 1, open_pos);
        },
        Some(t) => {
            if let Some(ch) = op_char(t) {
                let its = items.push(ClassItem::Char(ch));
                assert(items_ordered(its)) by {
                    assert forall|i: int| 0 <= i < its.len() implies #[trigger] item_ordered(
                        its[i],
                    ) by {
                        if i < items.len() {
                            assert(its[i] == items[i]);
                        }
                    }
                }
                lemma_class_items_shape(toks, its, p + 1, open_pos);
            }
        },
    }
}

/// A class whose `[` stood at `p - 1` is non-empty, has its ranges in order and is negated
/// exactly when it starts with `^`; it ends just after the first `]` from `p`.  The errors
/// that can come are an empty class, no closing `]` (both reported at the `[`), an unknown
/// escape or a range out of order.
pub proof fn lemma_class_shape(toks: Seq<Token>, p: nat)
    requires
        1 <= p <= toks.len(),
    ensures
        class(toks, p).0 matches Ok(n) ==> {
            &&& n matches Re::Class(negated, items)
            &&& items.len() > 0
            &&& items_ordered(items)
            &&& negated == (tok(toks, p) == Some(Token::Caret))
        },
        class(toks, p).0 is Ok ==> p < class(toks, p).1 <= toks.len() && toks[class(toks, p).1
            - 1] == Token::RBracket && forall|j: int|
            p <= j < class(toks, p).1 - 1 ==> #[trigger] toks[j] != Token::RBracket,
        class(toks, p).0 matches Err(e) ==> (e matches ParseError::EmptyClass { pos } && pos == (p
            - 1) as usize) || (e matches ParseError::UnclosedClass { open_pos } && open_pos == (p
            - 1) as usize) || e is UnknownEscape || (e matches ParseError::InvalidRange {
            start,
            end,
        } && end < start),
{
    let negated = tok(toks, p) == Some(Token::Caret);
    let start = if negated {
        p + 1
    } else {
        p
    };
    lemma_class_items_shape(toks, Seq::empty(), start, (p - 1) as nat);
}

/// At the end of the tokens, or before `|` or `)`, a concatenation has nothing to read: it
/// reports the end of the input and does not move.
pub proof fn lemma_concatenation_at_end(toks: Seq<Token>, p: nat)
    requires
        tok(toks, p) is None || tok(toks, p) == Some(Token::Pipe) || tok(toks, p) == Some(
            Token::RParen,
        ),
    ensures
        concatenation(toks, p) == (Err::<Re, ParseError>(ParseError::UnexpectedEndOfInput), p),
{
    assert(repetitions(toks, Seq::empty(), p) == (Ok::<Seq<Re>, ParseError>(Seq::empty()), p));
}

/// The character that an operator token stands for inside a class is the one that the lexer
/// reads as that token, alone or in a pattern; the tokens without one are literals, escapes,
/// `]` and `-`.
pub proof fn lemma_op_char(t: Token)
    ensures
        op_char(t) matches Some(ch) ==> op_token(ch) == Some(t) && tokenize(seq![ch]) == Ok::<
            Seq<Token>,
            (crate::error::LexError, nat),
        >(seq![t]),
        op_char(t) is None <==> (t is Literal || t is Escaped || t is RBracket || t is Dash),
{
    if let Some(ch) = op_char(t) {
        let s = seq![ch];
        lemma_skip_spaces(s, 0);
        lemma_skip_spaces(s, 1);
        assert(skip_spaces(s, 0) == 0);
        assert(skip_spaces(s, 1) == 1);
        lemma_scan(s, 0);
        assert(scan(s, 0) == Lexeme::Tok(t, 1));
        assert(Seq::<Token>::empty().push(t) =~= seq![t]);
        assert(crate::lexer::lex_from(s, 1, seq![t]) == Ok::<
            Seq<Token>,
            (crate::error::LexError, nat),
        >(seq![t]));
    }
}

/// What an escape `\c` stands for: `\n`, `\t` and `\r` the line feed, the tab and the
/// carriage return; `\d`, `\w` and `\s` their classes; an escaped operator character or
/// backslash the character itself.  Every other escape is refused as unknown.
pub proof fn lemma_escape(c: char)
    ensures
        c == 'n' ==> escape(c) == Ok::<Re, ParseError>(Re::Literal('\n')),
        c == 't' ==> escape(c) == Ok::<Re, ParseError>(Re::Literal('\t')),
        c == 'r' ==> escape(c) == Ok::<Re, ParseError>(Re::Literal('\r')),
        c == 'd' || c == 'w' || c == 's' ==> escape(c) == Ok::<Re, ParseError>(
            Re::ClassShorthand(c),
        ),
        c == '.' || c == '*' || c == '+' || c == '?' || c == '(' || c == ')' || c == '[' || c
            == ']' || c == '^' || c == '$' || c == '-' || c == ',' || c == '{' || c == '}' || c
            == '\\' || c == '|' ==> escape(c) == Ok::<Re, ParseError>(Re::Literal(c)),
        escape(c) is Err ==> escape(c) == Err::<Re, ParseError>(ParseError::UnknownEscape(c)),
        escape(c) is Err <==> !(c == 'n' || c == 't' || c == 'r' || c == 'd' || c == 'w' || c
            == 's' || c == '.' || c == '*' || c == '+' || c == '?' || c == '(' || c == ')' || c
            == '[' || c == ']' || c == '^' || c == '$' || c == '-' || c == ',' || c == '{' || c
            == '}' || c == '\\' || c == '|'),
{
}

/// A pattern that is one escape parses to what the escape stands for, or to its error.
pub proof fn lemma_parse_escape(c: char)
    ensures
        parse(seq![Token::Escaped(c)], 0).0 == escape(c),
{
    let toks = seq![Token::Escaped(c)];
    assert(tok(toks, 0) == Some(Token::Escaped(c)));
    assert(tok(toks, 1) is None);
    assert(atom(toks, 0) == (escape(c), 1nat));
    if let Ok(n) = escape(c) {
        assert(!(n is StartAnchor || n is EndAnchor));
        assert(repetition(toks, 0) == (Ok::<Re, ParseError>(n), 1nat));
        assert(repetitions(toks, seq![n], 1) == (Ok::<Seq<Re>, ParseError>(seq![n]), 1nat));
        assert(repetitions(toks, Seq::empty(), 0) == (Ok::<Seq<Re>, ParseError>(seq![n]), 1nat))
            by {
            assert(Seq::<Re>::empty().push(n) =~= seq![n]);
        }
        assert(concatenation(toks, 0) == (Ok::<Re, ParseError>(n), 1nat));
        assert(alternation_rest(toks, n, 1) == (Ok::<Re, ParseError>(n), 1nat));
        assert(alternation(toks, 0) == (Ok::<Re, ParseError>(n), 1nat));
    } else {
        assert(repetition(toks, 0).0 == escape(c));
        assert(repetitions(toks, Seq::empty(), 0).0 matches Err(e) && Err::<Re, ParseError>(e)
            == escape(c));
        assert(alternation(toks, 0).0 == escape(c));
    }
}

/// Does `c` stand for itself in a pattern: it is no operator (`|*+?.()[]^$-,{}`), no
/// backslash, no space and no tab, carriage return or line feed?
pub open spec fn stands_for_itself(c: char) -> bool {
    !(c == '|' || c == '*' || c == '+' || c == '?' || c == '.' || c == '(' || c == ')' || c
        == '[' || c == ']' || c == '^' || c == '$' || c == '-' || c == ',' || c == '{' || c == '}'
        || c == '\\' || c == ' ' || c == '\t' || c == '\r' || c == '\n')
}

/// One literal token per character of `s`, in order.
pub open spec fn literal_tokens(s: Seq<char>) -> Seq<Token>
    decreases s.len(),
{
    if s.len() == 0 {
        Seq::empty()
    } else {
        seq![Token::Literal(s[0])] + literal_tokens(s.skip(1))
    }
}

/// Lexing from `i` a source whose characters from `i` on all stand for themselves.
proof fn lemma_lex_plain_from(s: Seq<char>, i: nat, acc: Seq<Token>)
    requires
        i <= s.len(),
        forall|k: int| i <= k < s.len() ==> stands_for_itself(#[trigger] s[k]),
    ensures
        lex_from(s, i, acc) == Ok::<Seq<Token>, (LexError, nat)>(
            acc + literal_tokens(s.skip(i as int)),
        ),
    decreases s.len() - i,
{
    lemma_skip_spaces(s, i);
    let rest = literal_tokens(s.skip(i as int));
    if i == s.len() {
        assert(skip_spaces(s, i) == i);
        assert(s.skip(i as int).len() == 0);
        assert(acc + rest =~= acc);
    } else {
        let c = s[i as int];
        assert(stands_for_itself(c));
        assert(skip_spaces(s, i) == i);
        assert(op_token(c) is None);
        assert(scan(s, i) == Lexeme::Tok(Token::Literal(c), i + 1));
        lemma_lex_plain_from(s, i + 1, acc.push(Token::Literal(c)));
        let rest1 = literal_tokens(s.skip((i + 1) as int));
        assert(s.skip(i as int)[0] == c);
        assert(s.skip(i as int).skip(1) =~= s.skip((i + 1) as int));
        assert(rest == seq![Token::Literal(c)] + rest1);
        assert(acc.push(Token::Literal(c)) + rest1 =~= acc + rest);
    }
}

/// A source made only of characters that stand for themselves lexes to one literal per
/// character, in order.
pub proof fn lemma_lex_plain(s: Seq<char>)
    requires
        forall|k: int| 0 <= k < s.len() ==> stands_for_itself(#[trigger] s[k]),
    ensures
        tokenize(s) == Ok::<Seq<Token>, (LexError, nat)>(literal_tokens(s)),
        s.len() == 1 ==> tokenize(s) == Ok::<Seq<Token>, (LexError, nat)>(seq![Token::Literal(s[0])]),
{
    lemma_lex_plain_from(s, 0, Seq::empty());
    assert(s.skip(0) =~= s);
    assert(Seq::<Token>::empty() + literal_tokens(s) =~= literal_tokens(s));
    if s.len() == 1 {
        assert(s.skip(1).len() == 0);
        assert(literal_tokens(s.skip(1)) == Seq::<Token>::empty());
        assert(seq![Token::Literal(s[0])] + Seq::<Token>::empty() =~= seq![Token::Literal(s[0])]);
        assert(literal_tokens(s) =~= seq![Token::Literal(s[0])]);
    }
}

/// An escape `\c`, with `c` any character but a line feed, lexes to one escaped token.
pub proof fn lemma_lex_escape(c: char)
    requires
        c != '\n',
    ensures
        tokenize(seq!['\\', c]) == Ok::<Seq<Token>, (LexError, nat)>(seq![Token::Escaped(c)]),
{
    let s = seq!['\\', c];
    lemma_skip_spaces(s, 0);
    lemma_skip_spaces(s, 2);
    assert(skip_spaces(s, 0) == 0);
    assert(skip_spaces(s, 2) == 2);
    assert(op_token('\\') is None);
    assert(scan(s, 0) == Lexeme::Tok(Token::Escaped(c), 2));
    assert(Seq::<Token>::empty().push(Token::Escaped(c)) =~= seq![Token::Escaped(c)]);
    assert(lex_from(s, 2, seq![Token::Escaped(c)]) == Ok::<Seq<Token>, (LexError, nat)>(
        seq![Token::Escaped(c)],
    ));
}

/// A tab, a carriage return or a line feed is refused where it stands, and so is a backslash
/// that ends the source or comes before a line feed; spaces lex to nothing.
pub proof fn lemma_lex_refused(c: char)
    ensures
        c == '\t' || c == '\r' || c == '\n' ==> tokenize(seq![c]) == Err::<
            Seq<Token>,
            (LexError, nat),
        >((LexError::UnrecognizedToken, 0nat)),
        tokenize(seq!['\\']) == Err::<Seq<Token>, (LexError, nat)>((LexError::DanglingEscape, 0nat)),
        tokenize(seq!['\\', '\n']) == Err::<Seq<Token>, (LexError, nat)>(
            (LexError::UnrecognizedToken, 0nat),
        ),
        tokenize(seq![' ', ' ']) == Ok::<Seq<Token>, (LexError, nat)>(Seq::empty()),
{
    let s = seq![c];
    lemma_skip_spaces(s, 0);
    if c == '\t' || c == '\r' || c == '\n' {
        assert(skip_spaces(s, 0) == 0);
        assert(op_token(c) is None);
    }
    let b = seq!['\\'];
    lemma_skip_spaces(b, 0);
    assert(skip_spaces(b, 0) == 0);
    assert(op_token('\\') is None);
    let bn = seq!['\\', '\n'];
    lemma_skip_spaces(bn, 0);
    assert(skip_spaces(bn, 0) == 0);
    let sp = seq![' ', ' '];
    assert(skip_spaces(sp, 2) == 2);
    assert(skip_spaces(sp, 1) == 2);
    assert(skip_spaces(sp, 0) == 2);
}

/// The value of a decimal digit character.
pub open spec fn decimal(d: char) -> u32 {
    (d as u32 - 48) as u32
}

/// A count of one or two decimal digits is their decimal value.
pub proof fn lemma_number_digits(d: char, e: char)
    requires
        '0' <= d <= '9',
        '0' <= e <= '9',
    ensures
        number(seq![Token::Literal(d)], 0) == (Ok::<u32, ParseError>(decimal(d)), 1nat),
        number(seq![Token::Literal(d), Token::Literal(e)], 0) == (Ok::<u32, ParseError>(
            (10 * decimal(d) + decimal(e)) as u32,
        ), 2nat),
{
    let t1 = seq![Token::Literal(d)];
    assert(is_digit_tok(t1, 0));
    assert(!is_digit_tok(t1, 1));
    assert(digit_end(t1, 1) == 1);
    assert(digit_end(t1, 0) == 1);
    assert(digits_value(t1, 0, 0) == 0);
    assert(digits_value(t1, 0, 1) == decimal(d));
    let t2 = seq![Token::Literal(d), Token::Literal(e)];
    assert(is_digit_tok(t2, 0));
    assert(is_digit_tok(t2, 1));
    assert(!is_digit_tok(t2, 2));
    assert(digit_end(t2, 2) == 2);
    assert(digit_end(t2, 1) == 2);
    assert(digit_end(t2, 0) == 2);
    assert(digits_value(t2, 0, 0) == 0);
    assert(digits_value(t2, 0, 1) == decimal(d));
    assert(digits_value(t2, 0, 2) == 10 * decimal(d) + decimal(e));
}

/// The bounds `{m}`, `{m,}` and `{m,n}` read as exactly `m`, at least `m`, and from `m` to
/// `n` times.
pub proof fn lemma_range_forms(d: char, e: char)
    requires
        '0' <= d <= '9',
        '0' <= e <= '9',
    ensures
        range(seq![Token::Literal(d)], 0).0 == Ok::<(u32, Option<u32>), ParseError>(
            (decimal(d), Some(decimal(d))),
        ),
        range(seq![Token::Literal(d), Token::Comma], 0).0 == Ok::<(u32, Option<u32>), ParseError>(
            (decimal(d), None),
        ),
        range(seq![Token::Literal(d), Token::Comma, Token::Literal(e)], 0).0 == Ok::<
            (u32, Option<u32>),
            ParseError,
        >((decimal(d), Some(decimal(e)))),
{
    lemma_number_digits(d, e);
    let t2 = seq![Token::Literal(d), Token::Comma];
    assert(is_digit_tok(t2, 0));
    assert(!is_digit_tok(t2, 1));
    assert(digit_end(t2, 1) == 1);
    assert(digit_end(t2, 0) == 1);
    assert(digits_value(t2, 0, 0) == 0);
    assert(digits_value(t2, 0, 1) == decimal(d));
    assert(number(t2, 0) == (Ok::<u32, ParseError>(decimal(d)), 1nat));
    assert(!is_digit_tok(t2, 2));
    let t3 = seq![Token::Literal(d), Token::Comma, Token::Literal(e)];
    assert(is_digit_tok(t3, 0));
    assert(!is_digit_tok(t3, 1));
    assert(digit_end(t3, 1) == 1);
    assert(digit_end(t3, 0) == 1);
    assert(digits_value(t3, 0, 0) == 0);
    assert(digits_value(t3, 0, 1) == decimal(d));
    assert(number(t3, 0) == (Ok::<u32, ParseError>(decimal(d)), 1nat));
    assert(is_digit_tok(t3, 2));
    assert(!is_digit_tok(t3, 3));
    assert(digit_end(t3, 3) == 3);
    assert(digit_end(t3, 2) == 3);
    assert(digits_value(t3, 2, 2) == 0);
    assert(digits_value(t3, 2, 3) == decimal(e));
    assert(number(t3, 2) == (Ok::<u32, ParseError>(decimal(e)), 3nat));
}

/// The parser refuses every repetition `{min,max}` with `max < min`: the tree it builds has
/// its repetition bounds in order.
pub proof fn lemma_parse_bounds(toks: Seq<Token>, p: nat)
    ensures
        parse(toks, p).0 matches Ok(r) ==> bounds_ok(r),
{
    lemma_alternation_bounds(toks, p);
}

proof fn lemma_alternation_bounds(toks: Seq<Token>, p: nat)
    ensures
        alternation(toks, p).0 matches Ok(r) ==> bounds_ok(r),
    decreases rem(toks, p), 6nat,
{
    lemma_concatenation_bounds(toks, p);
    let (r, q) = concatenation(toks, p);
    if let Ok(left) = r {
        if p <= q {
            lemma_alternation_rest_bounds(toks, left, q);
        }
    }
}

proof fn lemma_alternation_rest_bounds(toks: Seq<Token>, left: Re, p: nat)
    requires
        bounds_ok(left),
    ensures
        alternation_rest(toks, left, p).0 matches Ok(r) ==> bounds_ok(r),
    decreases rem(toks, p), 5nat,
{
    if tok(toks, p) == Some(Token::Pipe) {
        lemma_concatenation_bounds(toks, p + 1);
        let (r, q) = concatenation(toks, p + 1);
        if let Ok(right) = r {
            if p < q {
                lemma_alternation_rest_bounds(toks, Re::Alt(Box::new(left), Box::new(right)), q);
            }
        }
    }
}

proof fn lemma_concatenation_bounds(toks: Seq<Token>, p: nat)
    ensures
        concatenation(toks, p).0 matches Ok(r) ==> bounds_ok(r),
    decreases rem(toks, p), 4nat,
{
    lemma_repetitions_bounds(toks, Seq::empty(), p);
    let (r, q) = repetitions(toks, Seq::empty(), p);
    if let Ok(nodes) = r {
        lemma_all_bounds_ok(nodes);
    }
}

proof fn lemma_repetitions_bounds(toks: Seq<Token>, nodes: Seq<Re>, p: nat)
    requires
        forall|i: int| 0 <= i < nodes.len() ==> #[trigger] bounds_ok(nodes[i]),
    ensures
        repetitions(toks, nodes, p).0 matches Ok(ns) ==> forall|i: int|
            0 <= i < ns.len() ==> #[trigger] bounds_ok(ns[i]),
    decreases rem(toks, p), 3nat,
{
    match tok(toks, p) {
        None => {},
        Some(Token::Pipe) => {},
        Some(Token::RParen) => {},
        Some(_) => {
            lemma_repetition_bounds(toks, p);
            let (r, q) = repetition(toks, p);
            if let Ok(n) = r {
                if p < q {
                    let ns = nodes.push(n);
                    assert forall|i: int| 0 <= i < ns.len() implies #[trigger] bounds_ok(ns[i]) by {
                        if i < nodes.len() {
                            assert(ns[i] == nodes[i]);
                        }
                    }
                    lemma_repetitions_bounds(toks, ns, q);
                }
            }
        },
    }
}

proof fn lemma_repetition_bounds(toks: Seq<Token>, p: nat)
    ensures
        repetition(toks, p).0 matches Ok(r) ==> bounds_ok(r),
    decreases rem(toks, p), 2nat,
{
    lemma_atom_bounds(toks, p);
}

proof fn lemma_atom_bounds(toks: Seq<Token>, p: nat)
    ensures
        atom(toks, p).0 matches Ok(r) ==> bounds_ok(r),
    decreases rem(toks, p), 1nat,
{
    if let Some(Token::LParen) = tok(toks, p) {
        if tok(toks, p + 1) != Some(Token::RParen) {
            lemma_alternation_bounds(toks, p + 1);
        }
    }
}

/// How a repetition treats what follows its atom: a quantifier after an anchor is refused
/// at the quantifier; `{min,max}` with `max < min` is refused with both numbers; a `{`
/// whose range no `}` closes is refused at the `{`; and what it builds has its bounds in
/// order.
pub proof fn lemma_repetition_rules(toks: Seq<Token>, p: nat)
    ensures
        repetition(toks, p).0 matches Ok(r) ==> bounds_ok(r),
        ({
            let (a, q) = atom(toks, p);
            a matches Ok(n) && (n is StartAnchor || n is EndAnchor) && (tok(toks, q) == Some(
                Token::Star,
            ) || tok(toks, q) == Some(Token::Plus) || tok(toks, q) == Some(Token::Question))
                ==> repetition(toks, p).0 == Err::<Re, ParseError>(
                ParseError::UnexpectedToken(toks[q as int]),
            )
        }),
        ({
            let (a, q) = atom(toks, p);
            let (rg, q2) = range(toks, q + 1);
            a is Ok && tok(toks, q) == Some(Token::LBrace) && tok(toks, q2) == Some(Token::RBrace)
                ==> (rg matches Ok((min, Some(m))) ==> (m < min ==> repetition(toks, p).0 == Err::<
                Re,
                ParseError,
            >(ParseError::InvalidRepeatRange { min, max: m })))
        }),
        ({
            let (a, q) = atom(toks, p);
            let (rg, q2) = range(toks, q + 1);
            a is Ok && tok(toks, q) == Some(Token::LBrace) && rg is Ok && tok(toks, q2) != Some(
                Token::RBrace,
            ) ==> repetition(toks, p).0 == Err::<Re, ParseError>(
                ParseError::UnclosedBrace { open_pos: q as usize },
            )
        }),
{
    lemma_repetition_bounds(toks, p);
}

/// The shape of a tree that the parser builds: no `∅` and no `ε`, concatenations of two
/// parts or more, and classes that are non-empty with their ranges in order.
pub open spec fn shaped(r: Re) -> bool
    decreases r,
{
    match r {
        Re::Empty => false,
        Re::Epsilon => false,
        Re::Concat(parts) => parts.len() >= 2 && all_shaped(parts),
        Re::Alt(a, b) => shaped(*a) && shaped(*b),
        Re::Star(a) => shaped(*a),
        Re::Plus(a) => shaped(*a),
        Re::Optional(a) => shaped(*a),
        Re::Group(a) => shaped(*a),
        Re::Repeat(a, _, _) => shaped(*a),
        Re::Class(_, items) => items.len() > 0 && items_ordered(items),
        _ => true,
    }
}

pub open spec fn all_shaped(parts: Seq<Re>) -> bool
    decreases parts,
{
    if parts.len() == 0 {
        true
    } else {
        shaped(parts[0]) && all_shaped(parts.subrange(1, parts.len() as int))
    }
}

pub proof fn lemma_all_shaped(parts: Seq<Re>)
    ensures
        all_shaped(parts) <==> forall|i: int| 0 <= i < parts.len() ==> #[trigger] shaped(parts[i]),
    decreases parts.len(),
{
    if parts.len() > 0 {
        let rest = parts.subrange(1, parts.len() as int);
        lemma_all_shaped(rest);
        if all_shaped(parts) {
            assert forall|i: int| 0 <= i < parts.len() implies #[trigger] shaped(parts[i]) by {
                if i > 0 {
                    assert(parts[i] == rest[i - 1]);
                }
            }
        }
        if forall|i: int| 0 <= i < parts.len() ==> #[trigger] shaped(parts[i]) {
            assert forall|i: int| 0 <= i < rest.len() implies #[trigger] shaped(rest[i]) by {
                assert(rest[i] == parts[i + 1]);
            }
            assert(shaped(parts[0]));
        }
    }
}

/// The parser builds trees of that shape, and it uses up every token.
pub proof fn lemma_parse_shape(toks: Seq<Token>, p: nat)
    ensures
        parse(toks, p).0 matches Ok(r) ==> shaped(r) && parse(toks, p).1 >= toks.len(),
{
    lemma_alternation_shape(toks, p);
}

proof fn lemma_alternation_shape(toks: Seq<Token>, p: nat)
    ensures
        alternation(toks, p).0 matches Ok(r) ==> shaped(r),
    decreases rem(toks, p), 6nat,
{
    lemma_concatenation_shape(toks, p);
    let (r, q) = concatenation(toks, p);
    if let Ok(left) = r {
        if p <= q {
            lemma_alternation_rest_shape(toks, left, q);
        }
    }
}

proof fn lemma_alternation_rest_shape(toks: Seq<Token>, left: Re, p: nat)
    requires
        shaped(left),
    ensures
        alternation_rest(toks, left, p).0 matches Ok(r) ==> shaped(r),
    decreases rem(toks, p), 5nat,
{
    if tok(toks, p) == Some(Token::Pipe) {
        lemma_concatenation_shape(toks, p + 1);
        let (r, q) = concatenation(toks, p + 1);
        if let Ok(right) = r {
            if p < q {
                lemma_alternation_rest_shape(toks, Re::Alt(Box::new(left), Box::new(right)), q);
            }
        }
    }
}

proof fn lemma_concatenation_shape(toks: Seq<Token>, p: nat)
    ensures
        concatenation(toks, p).0 matches Ok(r) ==> shaped(r),
    decreases rem(toks, p), 4nat,
{
    lemma_repetitions_shape(toks, Seq::empty(), p);
    let (r, q) = repetitions(toks, Seq::empty(), p);
    if let Ok(nodes) = r {
        lemma_all_shaped(nodes);
    }
}

proof fn lemma_repetitions_shape(toks: Seq<Token>, nodes: Seq<Re>, p: nat)
    requires
        forall|i: int| 0 <= i < nodes.len() ==> #[trigger] shaped(nodes[i]),
    ensures
        repetitions(toks, nodes, p).0 matches Ok(ns) ==> forall|i: int|
            0 <= i < ns.len() ==> #[trigger] shaped(ns[i]),
    decreases rem(toks, p), 3nat,
{
    match tok(toks, p) {
        None => {},
        Some(Token::Pipe) => {},
        Some(Token::RParen) => {},
        Some(_) => {
            lemma_repetition_shape(toks, p);
            let (r, q) = repetition(toks, p);
            if let Ok(n) = r {
                if p < q {
                    let ns = nodes.push(n);
                    assert forall|i: int| 0 <= i < ns.len() implies #[trigger] shaped(ns[i]) by {
                        if i < nodes.len() {
                            assert(ns[i] == nodes[i]);
                        }
                    }
                    lemma_repetitions_shape(toks, ns, q);
                }
            }
        },
    }
}

proof fn lemma_repetition_shape(toks: Seq<Token>, p: nat)
    ensures
        repetition(toks, p).0 matches Ok(r) ==> shaped(r),
    decreases rem(toks, p), 2nat,
{
    lemma_atom_shape(toks, p);
}

proof fn lemma_atom_shape(toks: Seq<Token>, p: nat)
    ensures
        atom(toks, p).0 matches Ok(r) ==> shaped(r),
    decreases rem(toks, p), 1nat,
{
    match tok(toks, p) {
        Some(Token::LParen) => {
            if tok(toks, p + 1) != Some(Token::RParen) {
                lemma_alternation_shape(toks, p + 1);
            }
        },
        Some(Token::LBracket) => {
            lemma_class_shape(toks, p + 1);
        },
        _ => {},
    }
}

/// What every rule gives back: a position that moved forward and stays within the tokens,
/// and never the error `Unreachable`.
pub open spec fn sound_step<T>(toks: Seq<Token>, p: nat, out: (Result<T, ParseError>, nat)) -> bool {
    &&& p <= out.1 <= toks.len()
    &&& out.0 != Err::<T, ParseError>(ParseError::Unreachable)
}

proof fn lemma_digit_end(toks: Seq<Token>, p: nat)
    requires
        p <= toks.len(),
    ensures
        p <= digit_end(toks, p) <= toks.len(),
    decreases rem(toks, p),
{
    if is_digit_tok(toks, p) {
        lemma_digit_end(toks, p + 1);
    }
}

proof fn lemma_number_sound(toks: Seq<Token>, p: nat)
    requires
        p <= toks.len(),
    ensures
        sound_step(toks, p, number(toks, p)),
{
    lemma_digit_end(toks, p);
}

proof fn lemma_range_sound(toks: Seq<Token>, p: nat)
    requires
        p <= toks.len(),
    ensures
        sound_step(toks, p, range(toks, p)),
{
    lemma_number_sound(toks, p);
    let (r, q) = number(toks, p);
    if r is Ok && tok(toks, q) == Some(Token::Comma) {
        lemma_number_sound(toks, q + 1);
    }
}

proof fn lemma_class_items_sound(toks: Seq<Token>, items: Seq<ClassItem>, p: nat, open_pos: nat)
    requires
        p <= toks.len(),
    ensures
        sound_step(toks, p, class_items(toks, items, p, open_pos)),
        class_items(toks, items, p, open_pos).0 is Ok ==> tok(
            toks,
            class_items(toks, items, p, open_pos).1,
        ) == Some(Token::RBracket),
    decreases rem(toks, p),
{
    match tok(toks, p) {
        None => {},
        Some(Token::RBracket) => {},
        Some(Token::Escaped(c)) => {
            match escape(c) {
                Err(e) => {},
                Ok(Re::ClassShorthand(k)) => lemma_class_items_sound(
                    toks,
                    items.push(ClassItem::Shorthand(k)),
                    p + 1,
                    open_pos,
                ),
                Ok(Re::Literal(l)) => lemma_class_items_sound(
                    toks,
                    items.push(ClassItem::Char(l)),
                    p + 1,
                    open_pos,
                ),
                Ok(_) => {},
            }
        },
        Some(Token::Literal(start)) => {
            let p1 = p + 1;
            match (tok(toks, p1), tok(toks, p1 + 1)) {
                (Some(Token::Dash), Some(Token::Literal(end))) => if !(end < start) {
                    lemma_class_items_sound(
                        toks,
                        items.push(ClassItem::Range(start, end)),
                        p1 + 2,
                        open_pos,
                    );
                },
                _ => lemma_class_items_sound(toks, items.push(ClassItem::Char(start)), p1, open_pos),
            }
        },
        Some(Token::Dash) => lemma_class_items_sound(
            toks,
            items.push(ClassItem::Char('-')),
            p + 1,
            open_pos,
        ),
        Some(t) => match op_char(t) {
            Some(ch) => lemma_class_items_sound(
                toks,
                items.push(ClassItem::Char(ch)),
                p + 1,
                open_pos,
            ),
            None => {},
        },
    }
}

proof fn lemma_class_sound(toks: Seq<Token>, p: nat)
    requires
        1 <= p <= toks.len(),
    ensures
        sound_step(toks, p, class(toks, p)),
{
    let negated = tok(toks, p) == Some(Token::Caret);
    let start = if negated {
        p + 1
    } else {
        p
    };
    lemma_class_items_sound(toks, Seq::empty(), start, (p - 1) as nat);
}

/// The parser's positions only move forward and stay within the tokens, and it never
/// reports `Unreachable`: the fallback branches of the rules above are never taken.
pub proof fn lemma_parse_sound(toks: Seq<Token>, p: nat)
    requires
        p <= toks.len(),
    ensures
        sound_step(toks, p, parse(toks, p)),
{
    lemma_alternation_sound(toks, p);
}

proof fn lemma_alternation_sound(toks: Seq<Token>, p: nat)
    requires
        p <= toks.len(),
    ensures
        sound_step(toks, p, alternation(toks, p)),
        alternation(toks, p).0 is Ok ==> p < alternation(toks, p).1,
    decreases rem(toks, p), 6nat,
{
    lemma_concatenation_sound(toks, p);
    let (r, q) = concatenation(toks, p);
    if let Ok(left) = r {
        lemma_alternation_rest_sound(toks, left, q);
    }
}

proof fn lemma_alternation_rest_sound(toks: Seq<Token>, left: Re, p: nat)
    requires
        p <= toks.len(),
    ensures
        sound_step(toks, p, alternation_rest(toks, left, p)),
    decreases rem(toks, p), 5nat,
{
    if tok(toks, p) == Some(Token::Pipe) {
        lemma_concatenation_sound(toks, p + 1);
        let (r, q) = concatenation(toks, p + 1);
        if let Ok(right) = r {
            lemma_alternation_rest_sound(toks, Re::Alt(Box::new(left), Box::new(right)), q);
        }
    }
}

proof fn lemma_concatenation_sound(toks: Seq<Token>, p: nat)
    requires
        p <= toks.len(),
    ensures
        sound_step(toks, p, concatenation(toks, p)),
        concatenation(toks, p).0 is Ok ==> p < concatenation(toks, p).1,
    decreases rem(toks, p), 4nat,
{
    lemma_repetitions_sound(toks, Seq::empty(), p);
}

proof fn lemma_repetitions_sound(toks: Seq<Token>, nodes: Seq<Re>, p: nat)
    requires
        p <= toks.len(),
    ensures
        sound_step(toks, p, repetitions(toks, nodes, p)),
        repetitions(toks, nodes, p).0 matches Ok(ns) ==> nodes.len() <= ns.len() && (
        nodes.len() < ns.len() ==> p < repetitions(toks, nodes, p).1),
    decreases rem(toks, p), 3nat,
{
    match tok(toks, p) {
        None => {},
        Some(Token::Pipe) => {},
        Some(Token::RParen) => {},
        Some(_) => {
            lemma_repetition_sound(toks, p);
            let (r, q) = repetition(toks, p);
            if let Ok(n) = r {
                lemma_repetitions_sound(toks, nodes.push(n), q);
            }
        },
    }
}

proof fn lemma_repetition_sound(toks: Seq<Token>, p: nat)
    requires
        p <= toks.len(),
    ensures
        sound_step(toks, p, repetition(toks, p)),
        repetition(toks, p).0 is Ok ==> p < repetition(toks, p).1,
    decreases rem(toks, p), 2nat,
{
    lemma_atom_sound(toks, p);
    let (r, q) = atom(toks, p);
    if r is Ok && tok(toks, q) == Some(Token::LBrace) {
        lemma_range_sound(toks, q + 1);
    }
}

proof fn lemma_atom_sound(toks: Seq<Token>, p: nat)
    requires
        p <= toks.len(),
    ensures
        sound_step(toks, p, atom(toks, p)),
        atom(toks, p).0 is Ok ==> p < atom(toks, p).1,
    decreases rem(toks, p), 1nat,
{
    match tok(toks, p) {
        Some(Token::LParen) => {
            if tok(toks, p + 1) != Some(Token::RParen) {
                lemma_alternation_sound(toks, p + 1);
            }
        },
        Some(Token::LBracket) => {
            lemma_class_sound(toks, p + 1);
        },
        _ => {},
    }
}

} // verus!
