use crate::error::ParseError;
use crate::grammar;
use crate::grammar::{is_digit_tok, next, op_char, rem, tok};
use crate::language::bounds_ok;
use crate::lexer::Token;
use crate::model::{is_digit, lemma_models, lemma_models_append, lemma_models_ext, models, Re};
use std::rc::Rc;
use vstd::prelude::*;

verus! {

/// A parsed regular expression.
#[derive(Debug, PartialEq)]
pub enum Node {
    Empty,
    Epsilon,
    /// character literal
    Literal(char),
    /// `.` any character wildcard
    AnyChar,
    /// concat of nodes
    Concat(Vec<Node>),
    /// `a|b`
    Alt(Rc<Node>, Rc<Node>),
    /// `a*`
    Star(Rc<Node>),
    /// `a+`
    Plus(Rc<Node>),
    /// `a?`
    Optional(Rc<Node>),
    /// `a{m,n}`; `None` means unbounded (`{m,}`)
    Repeat { node: Rc<Node>, min: u32, max: Option<u32> },
    /// `(...)` capturing group
    Group(Rc<Node>),
    /// `[abc]`, `[^abc]`, `[a-z]`
    Class { negated: bool, items: Vec<ClassItem> },
    /// `^`
    StartAnchor,
    /// `$`
    EndAnchor,
    /// escaped shorthand `\d`, `\w`, `\s`
    ClassShorthand(char),
}

/// One member of a character class.
#[derive(Debug, Clone, Copy, PartialEq, Eq, Structural)]
pub enum ClassItem {
    Char(char),
    Range(char, char),
    /// `\d`, `\w`, `\s` inside a class
    Shorthand(char),
}

/// A parse result with the tree taken to its model.
pub open spec fn res_model(r: Result<Node, ParseError>) -> Result<Re, ParseError> {
    match r {
        Ok(n) => Ok(n@),
        Err(e) => Err(e),
    }
}

/// Is `c` an ASCII decimal digit?
pub(crate) fn is_ascii_digit(c: char) -> (r: bool)
    ensures
        r == is_digit(c),
{
    '0' <= c && c <= '9'
}

/// A recursive-descent parser over a token sequence.
pub struct Parser {
    tokens: Vec<Token>,
    pos: usize,
}

impl Parser {
    /// The tokens being parsed.
    pub closed spec fn token_seq(&self) -> Seq<Token> {
        self.tokens@
    }

    /// The position of the next token to read.
    pub closed spec fn position(&self) -> nat {
        self.pos as nat
    }

    /// The position never passes the end.
    pub closed spec fn inv(&self) -> bool {
        self.pos <= self.tokens@.len()
    }

    pub fn new(tokens: Vec<Token>) -> (r: Self)
        ensures
            r.token_seq() == tokens@,
            r.position() == 0,
            r.inv(),
    {
        Self { tokens, pos: 0 }
    }

    fn peek(&self) -> (r: Option<&Token>)
        ensures
            match r {
                Some(t) => tok(self.tokens@, self.pos as nat) == Some(*t),
                None => tok(self.tokens@, self.pos as nat) is None,
            },
    {
        self.tokens.get(self.pos)
    }

    fn advance(&mut self) -> (r: Option<Token>)
        requires
            old(self).inv(),
        ensures
            final(self).inv(),
            final(self).tokens@ == old(self).tokens@,
            r == tok(old(self).tokens@, old(self).pos as nat),
            final(self).pos as nat == next(old(self).tokens@, old(self).pos as nat),
    {
        let token = match self.tokens.get(self.pos) {
            Some(t) => Some(*t),
            None => None,
        };
        if token.is_some() {
            self.pos += 1;
        }
        token
    }

    fn escape_to_node(c: char) -> (r: Result<Node, ParseError>)
        ensures
            res_model(r) == grammar::escape(c),
    {
        match c {
            'd' | 's' | 'w' => Ok(Node::ClassShorthand(c)),
            'n' => Ok(Node::Literal('\n')),
            't' => Ok(Node::Literal('\t')),
            'r' => Ok(Node::Literal('\r')),
            // any punctuation/operator char escaped -> literal
            '.' | '*' | '+' | '?' | '(' | ')' | '[' | ']' | '^' | '$' | '-' | ',' | '{' | '}'
            | '\\' | '|' => Ok(Node::Literal(c)),
            other => Err(ParseError::UnknownEscape(other)),
        }
    }

    fn operator_token_to_char(tok: &Token) -> (r: Option<char>)
        ensures
            r == op_char(*tok),
    {
        match tok {
            Token::Pipe => Some('|'),
            Token::Star => Some('*'),
            Token::Plus => Some('+'),
            Token::Question => Some('?'),
            Token::Dot => Some('.'),
            Token::LParen => Some('('),
            Token::RParen => Some(')'),
            Token::Caret => Some('^'),
            Token::Dollar => Some('$'),
            Token::Comma => Some(','),
            Token::LBrace => Some('{'),
            Token::RBrace => Some('}'),
            Token::LBracket => Some('['),
            _ => None,
        }
    }
}

impl Parser {
    // convert a run of digit literals to a u32
    fn parse_number(&mut self) -> (r: Result<u32, ParseError>)
        requires
            old(self).inv(),
        ensures
            final(self).inv(),
            final(self).tokens@ == old(self).tokens@,
            old(self).pos <= final(self).pos,
            (r, final(self).pos as nat) == grammar::number(old(self).tokens@, old(self).pos as nat),
    {
        let ghost toks = self.tokens@;
        let ghost p0 = self.pos as nat;
        let start = self.pos;
        let mut value: u32 = 0;
        let mut overflow = false;
        loop
            invariant
                self.inv(),
                self.tokens@ == toks,
                p0 <= self.pos,
                grammar::digit_end(toks, p0) == grammar::digit_end(toks, self.pos as nat),
                !overflow ==> value == grammar::digits_value(toks, p0, self.pos as nat),
                overflow ==> grammar::digits_value(toks, p0, self.pos as nat) > u32::MAX,
            ensures
                self.inv(),
                self.tokens@ == toks,
                p0 <= self.pos,
                grammar::digit_end(toks, p0) == self.pos as nat,
                !overflow ==> value == grammar::digits_value(toks, p0, self.pos as nat),
                overflow ==> grammar::digits_value(toks, p0, self.pos as nat) > u32::MAX,
            decreases rem(toks, self.pos as nat),
        {
            let digit = match self.peek() {
                Some(Token::Literal(c)) => {
                    if is_ascii_digit(*c) {
                        Some(*c)
                    } else {
                        None
                    }
                },
                _ => None,
            };
            let c = match digit {
                Some(c) => c,
                None => {
                    assert(!is_digit_tok(toks, self.pos as nat));
                    break;
                },
            };
            let ghost q = self.pos as nat;
            assert(is_digit_tok(toks, q));
            assert(grammar::digits_value(toks, p0, q + 1) == grammar::digits_value(toks, p0, q) * 10
                + grammar::digit_value(c));
            let d: u32 = (c as u32) - ('0' as u32);
            if !overflow {
                if value > 429496729 || (value == 429496729 && d > 5) {
                    overflow = true;
                } else {
                    value = value * 10 + d;
                }
            }
            self.advance();
        }
        if self.pos == start {
            return match self.advance() {
                Some(tok) => Err(ParseError::UnexpectedToken(tok)),
                None => Err(ParseError::UnexpectedEndOfInput),
            };
        }
        if overflow {
            Err(ParseError::NumberOverflow)
        } else {
            Ok(value)
        }
    }

    // parses a repeat range
    fn parse_range(&mut self) -> (r: Result<(u32, Option<u32>), ParseError>)
        requires
            old(self).inv(),
        ensures
            final(self).inv(),
            final(self).tokens@ == old(self).tokens@,
            old(self).pos <= final(self).pos,
            (r, final(self).pos as nat) == grammar::range(old(self).tokens@, old(self).pos as nat),
    {
        let min = match self.parse_number() {
            Ok(n) => n,
            Err(e) => return Err(e),
        };
        let mut max = Some(min);

        // if the next token is a comma, check if a max number exists
        if let Some(Token::Comma) = self.peek() {
            self.advance();
            max = None;
            let digit_next = match self.peek() {
                Some(Token::Literal(c)) => is_ascii_digit(*c),
                _ => false,
            };
            if digit_next {
                max = match self.parse_number() {
                    Ok(n) => Some(n),
                    Err(e) => return Err(e),
                };
            }
        }
        Ok((min, max))
    }
}

impl Parser {
    // parse a class when the parser reaches a LBracket [
    // [a-z]
    fn class(&mut self) -> (r: Result<Node, ParseError>)
        requires
            old(self).inv(),
            old(self).pos >= 1,
        ensures
            final(self).inv(),
            final(self).tokens@ == old(self).tokens@,
            old(self).pos <= final(self).pos,
            (res_model(r), final(self).pos as nat) == grammar::class(
                old(self).tokens@,
                old(self).pos as nat,
            ),
    {
        let ghost toks = self.tokens@;
        let ghost p0 = self.pos as nat;
        let open_pos = self.pos - 1;
        let mut negated = false;

        // classes starting with a Caret are negated
        if let Some(Token::Caret) = self.peek() {
            negated = true;
            self.advance();
        }
        let ghost start = self.pos as nat;
        assert(negated == (tok(toks, p0) == Some(Token::Caret)));
        let mut items: Vec<ClassItem> = Vec::new();

        loop
            invariant
                self.inv(),
                self.tokens@ == toks,
                toks == old(self).tokens@,
                p0 == old(self).pos as nat,
                p0 <= self.pos,
                open_pos as nat == (p0 - 1) as nat,
                negated == (tok(toks, p0) == Some(Token::Caret)),
                start == if negated {
                    p0 + 1
                } else {
                    p0
                },
                grammar::class_items(toks, Seq::empty(), start, open_pos as nat)
                    == grammar::class_items(toks, items@, self.pos as nat, open_pos as nat),
            ensures
                self.inv(),
                self.tokens@ == toks,
                p0 <= self.pos,
                grammar::class_items(toks, Seq::empty(), start, open_pos as nat) == (
                    Ok::<Seq<ClassItem>, ParseError>(items@),
                    self.pos as nat,
                ),
            decreases rem(toks, self.pos as nat),
        {
            match self.peek() {
                None => return Err(ParseError::UnclosedClass { open_pos }),
                Some(Token::RBracket) => break,
                Some(Token::Escaped(c)) => {
                    let c = *c;
                    self.advance();
                    match Self::escape_to_node(c) {
                        Ok(Node::ClassShorthand(k)) => items.push(ClassItem::Shorthand(k)),
                        Ok(Node::Literal(l)) => items.push(ClassItem::Char(l)),
                        Ok(_) => return Err(ParseError::Unreachable),
                        Err(e) => return Err(e),
                    }
                },
                Some(Token::Literal(c)) => {
                    // get the start character
                    // ex: [a-z] -> a
                    let start = *c;
                    self.advance();

                    // checks if there is a dash and a next character to form the end of the class-range.
                    // Otherwise just push a single character
                    let mut range_end: Option<char> = None;
                    if let Some(Token::Dash) = self.peek() {
                        assert(self.pos < self.tokens.len());
                        if let Some(Token::Literal(end)) = self.tokens.get(self.pos + 1) {
                            range_end = Some(*end);
                        }
                    }
                    match range_end {
                        Some(end) => {
                            if end < start {
                                return Err(ParseError::InvalidRange { start, end });
                            }
                            self.advance();  // consume -
                            self.advance();  // consume end char
                            items.push(ClassItem::Range(start, end));
                        },
                        None => items.push(ClassItem::Char(start)),
                    }
                },
                Some(Token::Dash) => {
                    self.advance();
                    items.push(ClassItem::Char('-'));
                },
                Some(tok) => {
                    if let Some(c) = Self::operator_token_to_char(tok) {
                        self.advance();
                        items.push(ClassItem::Char(c));
                    } else {
                        return Err(ParseError::UnexpectedToken(self.advance().unwrap()));
                    }
                },
            }
        }

        self.advance();

        if items.len() == 0 {
            return Err(ParseError::EmptyClass { pos: open_pos });
        }

        Ok(Node::Class { negated, items })
    }
}

impl Parser {
    pub fn parse(&mut self) -> (r: Result<Node, ParseError>)
        requires
            old(self).inv(),
        ensures
            final(self).inv(),
            final(self).token_seq() == old(self).token_seq(),
            (res_model(r), final(self).position()) == grammar::parse(
                old(self).token_seq(),
                old(self).position(),
            ),
            !(r matches Err(ParseError::Unreachable)),
            r matches Ok(n) ==> bounds_ok(n@) && grammar::shaped(n@),
    {
        proof {
            grammar::lemma_parse_sound(self.tokens@, self.pos as nat);
            grammar::lemma_parse_bounds(self.tokens@, self.pos as nat);
            grammar::lemma_parse_shape(self.tokens@, self.pos as nat);
        }
        let node = match self.alternation() {
            Ok(n) => n,
            Err(e) => return Err(e),
        };
        if let Some(tok) = self.peek() {
            return Err(ParseError::UnexpectedToken(*tok));
        }
        Ok(node)
    }

    // alternation = concat ('|' concat)
    fn alternation(&mut self) -> (r: Result<Node, ParseError>)
        requires
            old(self).inv(),
        ensures
            final(self).inv(),
            final(self).tokens@ == old(self).tokens@,
            old(self).pos <= final(self).pos,
            r is Ok ==> old(self).pos < final(self).pos,
            (res_model(r), final(self).pos as nat) == grammar::alternation(
                old(self).tokens@,
                old(self).pos as nat,
            ),
        decreases rem(old(self).tokens@, old(self).pos as nat), 6nat,
    {
        let ghost toks = self.tokens@;
        let ghost p0 = self.pos as nat;
        let mut left = match self.concatenation() {
            Ok(n) => n,
            Err(e) => return Err(e),
        };

        loop
            invariant
                self.inv(),
                self.tokens@ == toks,
                toks == old(self).tokens@,
                p0 == old(self).pos as nat,
                p0 < self.pos,
                grammar::alternation(toks, p0) == grammar::alternation_rest(
                    toks,
                    left@,
                    self.pos as nat,
                ),
            ensures
                self.inv(),
                self.tokens@ == toks,
                p0 < self.pos,
                grammar::alternation(toks, p0) == (
                    Ok::<Re, ParseError>(left@),
                    self.pos as nat,
                ),
            decreases rem(toks, self.pos as nat),
        {
            match self.peek() {
                Some(Token::Pipe) => {},
                _ => break,
            }
            self.advance();  // consume |
            let right = match self.concatenation() {
                Ok(n) => n,
                Err(e) => return Err(e),
            };
            left = Node::Alt(Rc::new(left), Rc::new(right));
        }

        Ok(left)
    }

    // Concatenation = Repetition*
    fn concatenation(&mut self) -> (r: Result<Node, ParseError>)
        requires
            old(self).inv(),
        ensures
            final(self).inv(),
            final(self).tokens@ == old(self).tokens@,
            old(self).pos <= final(self).pos,
            r is Ok ==> old(self).pos < final(self).pos,
            (res_model(r), final(self).pos as nat) == grammar::concatenation(
                old(self).tokens@,
                old(self).pos as nat,
            ),
        decreases rem(old(self).tokens@, old(self).pos as nat), 4nat,
    {
        let ghost toks = self.tokens@;
        let ghost p0 = self.pos as nat;
        let mut nodes: Vec<Node> = Vec::new();
        proof {
            lemma_models(nodes@);
            assert(models(nodes@) =~= Seq::<Re>::empty());
        }

        loop
            invariant
                self.inv(),
                self.tokens@ == toks,
                toks == old(self).tokens@,
                p0 == old(self).pos as nat,
                p0 <= self.pos,
                nodes@.len() > 0 ==> p0 < self.pos,
                grammar::repetitions(toks, Seq::empty(), p0) == grammar::repetitions(
                    toks,
                    models(nodes@),
                    self.pos as nat,
                ),
            ensures
                self.inv(),
                self.tokens@ == toks,
                p0 <= self.pos,
                nodes@.len() > 0 ==> p0 < self.pos,
                grammar::repetitions(toks, Seq::empty(), p0) == (
                    Ok::<Seq<Re>, ParseError>(models(nodes@)),
                    self.pos as nat,
                ),
            decreases rem(toks, self.pos as nat),
        {
            match self.peek() {
                None => break,
                Some(Token::Pipe) => break,  // ends a concat
                Some(Token::RParen) => break,
                Some(_) => {},
            }
            let ghost q = self.pos as nat;
            let node = match self.repetition() {
                Ok(n) => n,
                Err(e) => return Err(e),
            };
            let ghost before = nodes@;
            nodes.push(node);
            proof {
                assert(nodes@ =~= before + seq![node]);
                lemma_models_append(before, seq![node]);
                lemma_models_ext(seq![node], seq![node@]);
                assert(models(nodes@) =~= models(before).push(node@));
                assert(grammar::repetitions(toks, models(before), q) == grammar::repetitions(
                    toks,
                    models(before).push(node@),
                    self.pos as nat,
                ));
            }
        }

        proof {
            lemma_models(nodes@);
        }
        if nodes.len() == 0 {
            Err(ParseError::UnexpectedEndOfInput)
        } else if nodes.len() == 1 {
            Ok(nodes.pop().unwrap())
        } else {
            Ok(Node::Concat(nodes))
        }
    }

    // Repetition = Atom ('*' | '+' | '?' | '{' range '}')?
    fn repetition(&mut self) -> (r: Result<Node, ParseError>)
        requires
            old(self).inv(),
        ensures
            final(self).inv(),
            final(self).tokens@ == old(self).tokens@,
            old(self).pos <= final(self).pos,
            r is Ok ==> old(self).pos < final(self).pos,
            (res_model(r), final(self).pos as nat) == grammar::repetition(
                old(self).tokens@,
                old(self).pos as nat,
            ),
        decreases rem(old(self).tokens@, old(self).pos as nat), 2nat,
    {
        let node = match self.atom() {
            Ok(n) => n,
            Err(e) => return Err(e),
        };

        if matches!(node, Node::StartAnchor | Node::EndAnchor) {
            if let Some(Token::Star | Token::Plus | Token::Question) = self.peek() {
                return Err(ParseError::UnexpectedToken(self.advance().unwrap()));
            }
        }

        match self.peek() {
            Some(Token::Star) => {
                self.advance();
                Ok(Node::Star(Rc::new(node)))
            },
            Some(Token::Plus) => {
                self.advance();
                Ok(Node::Plus(Rc::new(node)))
            },
            Some(Token::Question) => {
                self.advance();
                Ok(Node::Optional(Rc::new(node)))
            },
            Some(Token::LBrace) => {
                self.advance();  // consume {
                let open_pos = self.pos - 1;
                let (min, max) = match self.parse_range() {
                    Ok(range) => range,
                    Err(e) => return Err(e),
                };

                match self.advance() {
                    Some(Token::RBrace) => {
                        if let Some(max) = max {
                            if max < min {
                                return Err(ParseError::InvalidRepeatRange { min, max });
                            }
                        }
                        Ok(Node::Repeat { node: Rc::new(node), min, max })
                    },
                    _ => Err(ParseError::UnclosedBrace { open_pos }),
                }
            },
            _ => Ok(node),
        }
    }

    // Atom = Literal | '.' | '^' | '$' | '(' Alternation ')' | '[' class ']' | escape
    fn atom(&mut self) -> (r: Result<Node, ParseError>)
        requires
            old(self).inv(),
        ensures
            final(self).inv(),
            final(self).tokens@ == old(self).tokens@,
            old(self).pos <= final(self).pos,
            r is Ok ==> old(self).pos < final(self).pos,
            (res_model(r), final(self).pos as nat) == grammar::atom(
                old(self).tokens@,
                old(self).pos as nat,
            ),
        decreases rem(old(self).tokens@, old(self).pos as nat), 1nat,
    {
        match self.advance() {
            Some(Token::Literal(c)) => Ok(Node::Literal(c)),
            Some(Token::Dot) => Ok(Node::AnyChar),
            Some(Token::Caret) => Ok(Node::StartAnchor),
            Some(Token::Dollar) => Ok(Node::EndAnchor),
            Some(Token::LParen) => {
                let open_pos = self.pos - 1;

                if let Some(Token::RParen) = self.peek() {
                    return Err(ParseError::EmptyGroup { pos: open_pos });
                }

                let inner = match self.alternation() {
                    Ok(n) => n,
                    Err(e) => return Err(e),
                };
                match self.advance() {
                    Some(Token::RParen) => Ok(Node::Group(Rc::new(inner))),
                    _ => Err(ParseError::UnclosedParen { open_pos }),
                }
            },
            Some(Token::LBracket) => self.class(),
            Some(Token::Escaped(c)) => Self::escape_to_node(c),
            Some(other) => Err(ParseError::UnexpectedToken(other)),
            None => Err(ParseError::UnexpectedEndOfInput),
        }
    }
}

} // verus!
