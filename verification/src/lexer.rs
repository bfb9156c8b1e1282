use crate::error::LexError;
use vstd::prelude::*;
use vstd::utf8::{char_is_scalar, encode_scalar, encode_utf8};

verus! {

/// Tokens
/// - `|`            alternation
/// - `*` `+` `?`    quantifiers (star, plus, optional)
/// - `.`             any-char wildcard
/// - `(` `)`         grouping
/// - `[` `]`         character class delimiters
/// - `^` `$`         anchors (also negation inside `[...]`)
/// - `{` `}` `,`     bounded repetition, e.g. `{2,5}`
/// - `-`              range separator inside `[...]`, e.g. `[a-z]`
/// - `\x`             escaped literal / class shorthand, e.g. `\d`, `\.`, `\n`
#[derive(Debug, Clone, Copy, PartialEq, Eq, Structural)]
pub enum Token {
    Pipe,
    Star,
    Plus,
    Question,
    Dot,
    LParen,
    RParen,
    LBracket,
    RBracket,
    Caret,
    Dollar,
    Dash,
    Comma,
    LBrace,
    RBrace,
    /// `\` followed by exactly one character, e.g. `\d`, `\.`, `\\`, `\n`.
    Escaped(char),
    /// A literal character including numbers/letters/other
    Literal(char),
}

impl Token {
    /// Is the token an operator, that is, neither a literal nor an escape?
    pub fn is_operator(&self) -> (r: bool)
        ensures
            r == !(*self is Literal || *self is Escaped),
    {
        !matches!(self, Token::Literal(_) | Token::Escaped(_))
    }
}

// ---------------------------------------------------------------------------
// The token grammar, over the characters of the source.
/// The token that an operator character stands for.
pub open spec fn op_token(c: char) -> Option<Token> {
    if c == '|' {
        Some(Token::Pipe)
    } else if c == '*' {
        Some(Token::Star)
    } else if c == '+' {
        Some(Token::Plus)
    } else if c == '?' {
        Some(Token::Question)
    } else if c == '.' {
        Some(Token::Dot)
    } else if c == '(' {
        Some(Token::LParen)
    } else if c == ')' {
        Some(Token::RParen)
    } else if c == '[' {
        Some(Token::LBracket)
    } else if c == ']' {
        Some(Token::RBracket)
    } else if c == '^' {
        Some(Token::Caret)
    } else if c == '$' {
        Some(Token::Dollar)
    } else if c == '-' {
        Some(Token::Dash)
    } else if c == ',' {
        Some(Token::Comma)
    } else if c == '{' {
        Some(Token::LBrace)
    } else if c == '}' {
        Some(Token::RBrace)
    } else {
        None
    }
}

/// The position after the spaces that start at `i`.
pub open spec fn skip_spaces(s: Seq<char>, i: nat) -> nat
    decreases s.len() - i,
{
    if i < s.len() && s[i as int] == ' ' {
        skip_spaces(s, i + 1)
    } else {
        i
    }
}

/// What one token that starts at `j` comes to.
pub enum Lexeme {
    /// a token that ends at the given position
    Tok(Token, nat),
    /// an error whose span ends at the given position
    Fail(LexError, nat),
}

/// The token that starts at `j < s.len()`.
pub open spec fn scan(s: Seq<char>, j: nat) -> Lexeme {
    let c = s[j as int];
    match op_token(c) {
        Some(t) => Lexeme::Tok(t, j + 1),
        None => if c == '\\' {
            if j + 1 < s.len() && s[(j + 1) as int] != '\n' {
                Lexeme::Tok(Token::Escaped(s[(j + 1) as int]), j + 2)
            } else if j + 1 == s.len() {
                Lexeme::Fail(LexError::DanglingEscape, j + 1)
            } else {
                Lexeme::Fail(LexError::UnrecognizedToken, j + 1)
            }
        } else if c == '\t' || c == '\r' || c == '\n' {
            Lexeme::Fail(LexError::UnrecognizedToken, j + 1)
        } else {
            Lexeme::Tok(Token::Literal(c), j + 1)
        },
    }
}

pub proof fn lemma_skip_spaces(s: Seq<char>, i: nat)
    requires
        i <= s.len(),
    ensures
        i <= skip_spaces(s, i) <= s.len(),
        forall|k: int| i <= k < skip_spaces(s, i) ==> s[k] == ' ',
        skip_spaces(s, i) < s.len() ==> s[skip_spaces(s, i) as int] != ' ',
    decreases s.len() - i,
{
    if i < s.len() && s[i as int] == ' ' {
        lemma_skip_spaces(s, i + 1);
    }
}

pub proof fn lemma_scan(s: Seq<char>, j: nat)
    requires
        j < s.len(),
    ensures
        match scan(s, j) {
            Lexeme::Tok(_, n) => j < n <= s.len(),
            Lexeme::Fail(_, n) => n == j + 1,
        },
{
}

/// Lexing from `i` on, after the tokens `acc`: all the tokens, or the first error and the
/// position of the character where it starts.
pub open spec fn lex_from(s: Seq<char>, i: nat, acc: Seq<Token>) -> Result<Seq<Token>, (LexError, nat)>
    decreases s.len() - i,
{
    if i > s.len() {
        Ok(acc)
    } else {
        let j = skip_spaces(s, i);
        proof {
            lemma_skip_spaces(s, i);
        }
        if j >= s.len() {
            Ok(acc)
        } else {
            proof {
                lemma_scan(s, j);
            }
            match scan(s, j) {
                Lexeme::Tok(t, n) => lex_from(s, n, acc.push(t)),
                Lexeme::Fail(e, _) => Err((e, j)),
            }
        }
    }
}

/// The tokens of the whole source, or its first error and where it starts.
pub open spec fn tokenize(s: Seq<char>) -> Result<Seq<Token>, (LexError, nat)> {
    lex_from(s, 0, Seq::empty())
}

/// The byte offset of the character at `k`: the length of the UTF-8 encoding before it.
pub open spec fn byte_offset(s: Seq<char>, k: int) -> nat {
    encode_utf8(s.take(k)).len()
}

pub proof fn lemma_encode_utf8_append(a: Seq<char>, b: Seq<char>)
    ensures
        encode_utf8(a + b) == encode_utf8(a) + encode_utf8(b),
    decreases a.len(),
{
    if a.len() == 0 {
        assert(a + b =~= b);
        assert(encode_utf8(a) =~= Seq::<u8>::empty());
        assert(encode_utf8(a) + encode_utf8(b) =~= encode_utf8(b));
    } else {
        lemma_encode_utf8_append(a.drop_first(), b);
        assert((a + b).drop_first() =~= a.drop_first() + b);
        assert((a + b)[0] == a[0]);
        assert(encode_utf8(a + b) =~= encode_utf8(a) + encode_utf8(b));
    }
}

pub proof fn lemma_byte_offset_step(s: Seq<char>, k: int)
    requires
        0 <= k < s.len(),
    ensures
        byte_offset(s, k + 1) == byte_offset(s, k) + encode_scalar(s[k] as u32).len(),
        byte_offset(s, k + 1) <= byte_offset(s, s.len() as int),
{
    assert(s.take(k + 1) =~= s.take(k) + seq![s[k]]);
    lemma_encode_utf8_append(s.take(k), seq![s[k]]);
    let one = seq![s[k]];
    assert(one.drop_first() =~= Seq::<char>::empty());
    assert(encode_utf8(one.drop_first()) =~= Seq::<u8>::empty());
    assert(encode_utf8(one) == encode_scalar(one[0] as u32) + encode_utf8(one.drop_first()));
    assert(encode_utf8(one) =~= encode_scalar(s[k] as u32));
    assert(s.take(s.len() as int) =~= s.take(k + 1) + s.skip(k + 1));
    lemma_encode_utf8_append(s.take(k + 1), s.skip(k + 1));
}

/// The number of bytes in the UTF-8 encoding of `c`.
fn utf8_width(c: char) -> (r: usize)
    ensures
        r == encode_scalar(c as u32).len(),
{
    proof {
        char_is_scalar(c);
    }
    let v = c as u32;
    if v < 0x80 {
        1
    } else if v < 0x800 {
        2
    } else if v < 0x10000 {
        3
    } else {
        4
    }
}

/// Splits a source into tokens, one at a time.
pub struct Lexer {
    chars: Vec<char>,
    /// index of the next character to read
    pos: usize,
    /// byte offset of that character
    byte_pos: usize,
    /// byte length of the source
    source_len: usize,
    /// index of the character where the last token or error started
    token_start: usize,
    span_start: usize,
    span_end: usize,
}

impl Lexer {
    /// The characters of the source.
    pub closed spec fn source(&self) -> Seq<char> {
        self.chars@
    }

    /// The index of the next character to read.
    pub closed spec fn position(&self) -> nat {
        self.pos as nat
    }

    /// The index of the character where the last token or error started.
    pub closed spec fn last_start(&self) -> nat {
        self.token_start as nat
    }

    /// The byte range of the last token or error.
    pub closed spec fn span_view(&self) -> (nat, nat) {
        (self.span_start as nat, self.span_end as nat)
    }

    pub closed spec fn inv(&self) -> bool {
        &&& self.pos <= self.chars@.len()
        &&& self.token_start <= self.pos
        &&& self.byte_pos == byte_offset(self.chars@, self.pos as int)
        &&& self.source_len == byte_offset(self.chars@, self.chars@.len() as int)
    }

    pub fn new(source: &str) -> (r: Self)
        ensures
            r.inv(),
            r.source() == source@,
            r.position() == 0,
            r.last_start() == 0,
            r.span_view() == (0nat, 0nat),
    {
        let source_len = source.as_bytes().len();
        let mut chars: Vec<char> = Vec::new();
        for c in it: source.chars()
            invariant
                it.seq() == source@,
                chars@ == source@.take(it.index() as int),
        {
            chars.push(c);
            assert(chars@ =~= source@.take(it.index() as int + 1));
        }
        assert(chars@ =~= source@);
        assert(chars@.take(chars@.len() as int) =~= chars@);
        assert(chars@.take(0) =~= Seq::<char>::empty());
        Self { chars, pos: 0, byte_pos: 0, source_len, token_start: 0, span_start: 0, span_end: 0 }
    }

    /// The byte range of the last token or error.
    pub fn span(&self) -> (r: std::ops::Range<usize>)
        ensures
            r.start == self.span_view().0,
            r.end == self.span_view().1,
    {
        self.span_start..self.span_end
    }

    /// The index of the character where the last token or error started.
    pub(crate) fn token_start_char(&self) -> (r: usize)
        ensures
            r == self.last_start(),
    {
        self.token_start
    }

    /// The number of characters in the source.
    pub(crate) fn char_count(&self) -> (r: usize)
        ensures
            r == self.source().len(),
    {
        self.chars.len()
    }

    /// Moves past one character.
    fn bump(&mut self)
        requires
            old(self).inv(),
            old(self).pos < old(self).chars@.len(),
        ensures
            final(self).inv(),
            final(self).chars@ == old(self).chars@,
            final(self).pos == old(self).pos + 1,
            final(self).token_start == old(self).token_start,
            final(self).span_start == old(self).span_start,
            final(self).span_end == old(self).span_end,
    {
        proof {
            lemma_byte_offset_step(self.chars@, self.pos as int);
        }
        let len = self.chars.len();
        let w = utf8_width(self.chars[self.pos]);
        self.byte_pos = self.byte_pos + w;
        self.pos = self.pos + 1;
    }

    /// The next token, an error, or `None` at the end of the source.
    pub fn next(&mut self) -> (r: Option<Result<Token, LexError>>)
        requires
            old(self).inv(),
        ensures
            final(self).inv(),
            final(self).source() == old(self).source(),
            ({
                let s = old(self).source();
                let j = skip_spaces(s, old(self).position());
                if j >= s.len() {
                    &&& r is None
                    &&& final(self).position() == j
                    &&& final(self).span_view() == (byte_offset(s, j as int), byte_offset(s, j as int))
                } else {
                    &&& final(self).last_start() == j
                    &&& final(self).span_view() == (
                        byte_offset(s, j as int),
                        byte_offset(s, final(self).position() as int),
                    )
                    &&& match scan(s, j) {
                        Lexeme::Tok(t, n) => r == Some(Ok::<Token, LexError>(t))
                            && final(self).position() == n,
                        Lexeme::Fail(e, n) => r == Some(Err::<Token, LexError>(e))
                            && final(self).position() == n,
                    }
                }
            }),
    {
        let ghost s = self.chars@;
        let ghost p0 = self.pos as nat;
        proof {
            lemma_skip_spaces(s, p0);
        }
        loop
            invariant
                self.inv(),
                self.chars@ == s,
                p0 <= self.pos <= skip_spaces(s, p0),
                skip_spaces(s, p0) == skip_spaces(s, self.pos as nat),
            ensures
                self.inv(),
                self.chars@ == s,
                self.pos == skip_spaces(s, p0),
            decreases s.len() - self.pos,
        {
            if self.pos >= self.chars.len() {
                break;
            }
            if self.chars[self.pos] != ' ' {
                break;
            }
            proof {
                lemma_skip_spaces(s, (self.pos + 1) as nat);
            }
            self.bump();
        }
        let start = self.pos;
        let start_byte = self.byte_pos;
        if start >= self.chars.len() {
            self.span_start = start_byte;
            self.span_end = start_byte;
            self.token_start = start;
            return None;
        }
        self.token_start = start;
        let c = self.chars[start];
        self.bump();
        let result = match c {
            '|' => Ok(Token::Pipe),
            '*' => Ok(Token::Star),
            '+' => Ok(Token::Plus),
            '?' => Ok(Token::Question),
            '.' => Ok(Token::Dot),
            '(' => Ok(Token::LParen),
            ')' => Ok(Token::RParen),
            '[' => Ok(Token::LBracket),
            ']' => Ok(Token::RBracket),
            '^' => Ok(Token::Caret),
            '$' => Ok(Token::Dollar),
            '-' => Ok(Token::Dash),
            ',' => Ok(Token::Comma),
            '{' => Ok(Token::LBrace),
            '}' => Ok(Token::RBrace),
            '\\' => {
                if self.pos < self.chars.len() && self.chars[self.pos] != '\n' {
                    let escaped = self.chars[self.pos];
                    self.bump();
                    Ok(Token::Escaped(escaped))
                } else if self.pos == self.chars.len() {
                    Err(LexError::DanglingEscape)
                } else {
                    Err(LexError::UnrecognizedToken)
                }
            },
            '\t' | '\r' | '\n' => Err(LexError::UnrecognizedToken),
            other => Ok(Token::Literal(other)),
        };
        self.span_start = start_byte;
        self.span_end = self.byte_pos;
        Some(result)
    }
}

/// Lexes a string into a vector of tokens, returns an error for any unrecognized tokens.
pub fn lex(source: &str) -> (r: Result<Vec<Token>, LexError>)
    ensures
        match tokenize(source@) {
            Ok(tokens) => r is Ok && r->Ok_0@ == tokens,
            Err((e, _)) => r == Err::<Vec<Token>, LexError>(e),
        },
{
    let mut lexer = Lexer::new(source);
    let mut tokens: Vec<Token> = Vec::new();
    loop
        invariant
            lexer.inv(),
            lexer.source() == source@,
            lexer.position() <= source@.len(),
            tokenize(source@) == lex_from(source@, lexer.position(), tokens@),
        decreases source@.len() - lexer.position(),
    {
        let ghost before = tokens@;
        proof {
            lemma_skip_spaces(source@, lexer.position());
            if skip_spaces(source@, lexer.position()) < source@.len() {
                lemma_scan(source@, skip_spaces(source@, lexer.position()));
            }
        }
        match lexer.next() {
            None => return Ok(tokens),
            Some(Ok(token)) => tokens.push(token),
            Some(Err(e)) => return Err(e),
        }
    }
}

} // verus!
