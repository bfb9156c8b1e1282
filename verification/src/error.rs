use crate::lexer::Token;
use vstd::prelude::*;

verus! {

/// Why the lexer stopped.
#[derive(Debug, Clone, Copy, PartialEq, Eq, Structural, Default)]
pub enum LexError {
    /// unrecognized token
    #[default]
    UnrecognizedToken,
    /// dangling escape character `\` at end of input
    DanglingEscape,
    /// invalid character encoding in input
    InvalidChar,
}

/// Why a pattern was refused.
#[derive(Debug, Clone, PartialEq, Default)]
pub enum ParseError {
    /// unrecognized token at byte `pos`; `slice` holds up to ten characters from there
    LexError { pos: usize, slice: String },
    /// unexpected token
    UnexpectedToken(Token),
    /// unexpected end of input
    UnexpectedEndOfInput,
    /// unclosed parenthesis; `open_pos` is the token index of `(`
    UnclosedParen { open_pos: usize },
    /// empty group; `pos` is the token index of `(`
    EmptyGroup { pos: usize },
    /// unclosed character class; `open_pos` is the token index of `[`
    UnclosedClass { open_pos: usize },
    /// empty character class; `pos` is the token index of `[`
    EmptyClass { pos: usize },
    /// invalid range in character class: `start..end` with `end < start`
    InvalidRange { start: char, end: char },
    /// invalid range in repeat: `{min,max}` with `max < min`
    InvalidRepeatRange { min: u32, max: u32 },
    /// unclosed brace; `open_pos` is the token index of `{`
    UnclosedBrace { open_pos: usize },
    /// unknown escape sequence
    UnknownEscape(char),
    /// a repetition count does not fit in 32 bits
    NumberOverflow,
    /// a case that the parser never reaches
    Unreachable,
    /// generic parse error
    #[default]
    Generic,
}

} // verus!
