use crate::derivative;
use crate::error::ParseError;
use crate::grammar;
use crate::language::{bounds_ok, in_language};
use crate::lexer::{byte_offset, lex_from, tokenize, Lexer, Token};
use crate::model::Re;
use crate::parser::{Node, Parser};
use vstd::prelude::*;

verus! {

/// A compiled regular expression: the pattern and its parsed tree.
#[derive(Debug, PartialEq)]
pub struct Regex {
    pattern: String,
    root: Node,
}

/// The characters that a lexing error at character `k` of `s` reports: up to ten from there.
pub open spec fn error_slice(s: Seq<char>, k: nat) -> Seq<char> {
    if k + 10 < s.len() {
        s.subrange(k as int, (k + 10) as int)
    } else {
        s.subrange(k as int, s.len() as int)
    }
}

/// The slice that a lexing error reports is the ten characters from where the error starts,
/// or all of them to the end of the pattern if fewer are left.
pub proof fn lemma_error_slice(s: Seq<char>, k: nat)
    requires
        k <= s.len(),
    ensures
        error_slice(s, k).len() == (if s.len() - k > 10 {
            10
        } else {
            s.len() - k
        }),
        forall|i: int| 0 <= i < error_slice(s, k).len() ==> #[trigger] error_slice(s, k)[i] == s[k + i],
{
}

/// What compiling the pattern `s` comes to: the first lexing error with its byte position
/// and up to ten characters from there; else the parser's error; else a regex with the
/// parsed tree and the pattern.
pub open spec fn compiles_to(s: Seq<char>, r: Result<Regex, ParseError>) -> bool {
    match tokenize(s) {
        Err((_, k)) => r matches Err(ParseError::LexError { pos, slice }) && pos == byte_offset(
            s,
            k as int,
        ) && slice@ == error_slice(s, k),
        Ok(tokens) => match grammar::parse(tokens, 0).0 {
            Err(e) => r == Err::<Regex, ParseError>(e),
            Ok(tree) => r is Ok && r->Ok_0.tree() == tree && r->Ok_0.pattern_chars() == s,
        },
    }
}

impl Regex {
    /// The parser refuses repetitions whose bounds are out of order.
    #[verifier::type_invariant]
    spec fn bounds_in_order(self) -> bool {
        bounds_ok(self.root@)
    }

    /// The characters of the pattern.
    pub closed spec fn pattern_chars(&self) -> Seq<char> {
        self.pattern@
    }

    /// The parsed tree.
    pub closed spec fn tree(&self) -> Re {
        self.root@
    }

    /// Lexes and parses `pattern`, producing a `Regex` ready to match
    /// against input strings.
    ///
    /// Returns a [`ParseError`] if `pattern` isn't a valid regex (unclosed
    /// groups/classes, invalid escapes, malformed `{m,n}` ranges, etc).
    pub fn new(pattern: &str) -> (r: Result<Self, ParseError>)
        ensures
            compiles_to(pattern@, r),
            r is Ok ==> bounds_ok(r->Ok_0.tree()) && grammar::shaped(r->Ok_0.tree()),
    {
        let mut tokens: Vec<Token> = Vec::new();
        let mut lexer = Lexer::new(pattern);

        loop
            invariant
                lexer.inv(),
                lexer.source() == pattern@,
                lexer.position() <= pattern@.len(),
                tokenize(pattern@) == lex_from(pattern@, lexer.position(), tokens@),
            ensures
                tokenize(pattern@) == Ok::<Seq<Token>, (crate::error::LexError, nat)>(tokens@),
            decreases pattern@.len() - lexer.position(),
        {
            proof {
                crate::lexer::lemma_skip_spaces(pattern@, lexer.position());
                if crate::lexer::skip_spaces(pattern@, lexer.position()) < pattern@.len() {
                    crate::lexer::lemma_scan(
                        pattern@,
                        crate::lexer::skip_spaces(pattern@, lexer.position()),
                    );
                }
            }
            match lexer.next() {
                None => break,
                Some(Ok(token)) => tokens.push(token),
                Some(Err(_err)) => {
                    let pos = lexer.span().start;
                    let k = lexer.token_start_char();
                    let len = lexer.char_count();
                    let end = if len > 10 && k < len - 10 {
                        k + 10
                    } else {
                        len
                    };
                    let slice = pattern.substring_char(k, end).to_string();
                    return Err(ParseError::LexError { pos, slice });
                },
            }
        }

        proof {
            grammar::lemma_parse_bounds(tokens@, 0);
        }
        let mut parser = Parser::new(tokens);
        let root = match parser.parse() {
            Ok(n) => n,
            Err(e) => return Err(e),
        };
        Ok(Self { pattern: pattern.to_string(), root })
    }

    /// Returns `true` if `input` matches this regex in its entirety.
    pub fn is_match(&self, input: &str) -> (r: bool)
        ensures
            r == in_language(self.tree(), input@),
    {
        proof {
            use_type_invariant(self);
        }
        derivative::is_match(&self.root, input)
    }

    /// The original pattern string this regex was compiled from.
    pub fn as_str(&self) -> (r: &str)
        ensures
            r@ == self.pattern_chars(),
    {
        self.pattern.as_str()
    }

    /// The pattern as an owned string, as a regex is displayed.
    pub fn to_string(&self) -> (r: String)
        ensures
            r@ == self.pattern_chars(),
    {
        self.pattern.clone()
    }
}

impl Clone for Regex {
    fn clone(&self) -> (r: Self)
        ensures
            r.pattern_chars() == self.pattern_chars(),
            r.tree() == self.tree(),
    {
        proof {
            use_type_invariant(self);
        }
        Regex { pattern: self.pattern.clone(), root: self.root.clone() }
    }
}

/// `"a*b".parse::<Regex>()` as an alternative to `Regex::new`.
impl std::str::FromStr for Regex {
    type Err = ParseError;

    fn from_str(pattern: &str) -> (r: Result<Self, Self::Err>)
        ensures
            compiles_to(pattern@, r),
    {
        Regex::new(pattern)
    }
}

} // verus!
