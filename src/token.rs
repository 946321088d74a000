use vstd::prelude::*;

use crate::expression::Expression;
use crate::operator::Operator;

verus! {

/// Units per whole number in the fixed-point representation of a [`Number`].
pub const UNITS_PER_ONE: i64 = 100_000_000;

/// Largest magnitude a numeric literal can have, in units.
pub const MAX_UNITS: i64 = 20_000_000_000_000_000;

/// Value of a numeric literal, as an exact decimal with eight fractional
/// digits: the number is `units / 10^8`.
#[derive(Debug, PartialEq, Eq, Structural, Clone, Copy)]
pub struct Number {
    pub units: i64,
}

impl Number {
    /// The whole number `n`.
    pub fn from_int(n: i32) -> (r: Number)
        ensures
            r.units == n * UNITS_PER_ONE,
    {
        Number { units: (n as i64) * UNITS_PER_ONE }
    }

    /// Whether the value has no fractional part.
    pub open spec fn is_whole(self) -> bool {
        (self.units as int) % (UNITS_PER_ONE as int) == 0
    }

    /// The value with its fractional part dropped, rounding toward zero.
    pub open spec fn whole_part(self) -> int {
        if self.units >= 0 {
            (self.units as int) / (UNITS_PER_ONE as int)
        } else {
            -((-(self.units as int)) / (UNITS_PER_ONE as int))
        }
    }

    /// Integer part of the value, rounding toward zero.
    pub fn truncate(&self) -> (r: i32)
        requires
            -MAX_UNITS <= self.units <= MAX_UNITS,
        ensures
            r == self.whole_part(),
            -200_000_000 <= r <= 200_000_000,
    {
        if self.units >= 0 {
            (self.units / UNITS_PER_ONE) as i32
        } else {
            let m: i64 = -self.units;
            -((m / UNITS_PER_ONE) as i32)
        }
    }
}

/// A token of assembly source.
#[derive(Debug, PartialEq)]
pub enum Token {
    Newline,
    Whitespace,
    Comment(String),
    String(String),
    Directive(String),
    Instruction(String),
    Expression(Expression),
    Name(String),
    Number(Number),
    Operator(Operator),
    GlobalLabelDef(String),
    LocalLabelDef(String),
    LocalLabelRef(String),
    Offset(i32),
    Error(String),
    Macro(String),
    MacroArg(String),
    MacroDef,
    MacroEnd,
    NegativeOffset,
    PositiveOffset,
    LParen,
    RParen,
    LBrace,
    RBrace,
    Comma,
    Eof,
}

/// The kind of a token, without its payload. `Begin` stands for "no token
/// read yet".
#[derive(Debug, PartialEq, Eq, Structural, Clone, Copy)]
pub enum TokenType {
    Newline,
    Whitespace,
    Comment,
    String,
    Directive,
    Instruction,
    Expression,
    Name,
    Number,
    Operator,
    GlobalLabelDef,
    LocalLabelDef,
    LocalLabelRef,
    Offset,
    Error,
    Macro,
    MacroArg,
    MacroDef,
    MacroEnd,
    NegativeOffset,
    PositiveOffset,
    LParen,
    RParen,
    LBrace,
    RBrace,
    Comma,
    Begin,
    Eof,
}

/// The kind of a token.
pub open spec fn type_of(t: Token) -> TokenType {
    match t {
        Token::Newline => TokenType::Newline,
        Token::Whitespace => TokenType::Whitespace,
        Token::Comment(_) => TokenType::Comment,
        Token::String(_) => TokenType::String,
        Token::Directive(_) => TokenType::Directive,
        Token::Instruction(_) => TokenType::Instruction,
        Token::Expression(_) => TokenType::Expression,
        Token::Name(_) => TokenType::Name,
        Token::Number(_) => TokenType::Number,
        Token::Operator(_) => TokenType::Operator,
        Token::GlobalLabelDef(_) => TokenType::GlobalLabelDef,
        Token::LocalLabelDef(_) => TokenType::LocalLabelDef,
        Token::LocalLabelRef(_) => TokenType::LocalLabelRef,
        Token::Offset(_) => TokenType::Offset,
        Token::Error(_) => TokenType::Error,
        Token::Macro(_) => TokenType::Macro,
        Token::MacroArg(_) => TokenType::MacroArg,
        Token::MacroDef => TokenType::MacroDef,
        Token::MacroEnd => TokenType::MacroEnd,
        Token::NegativeOffset => TokenType::NegativeOffset,
        Token::PositiveOffset => TokenType::PositiveOffset,
        Token::LParen => TokenType::LParen,
        Token::RParen => TokenType::RParen,
        Token::LBrace => TokenType::LBrace,
        Token::RBrace => TokenType::RBrace,
        Token::Comma => TokenType::Comma,
        Token::Eof => TokenType::Eof,
    }
}

/// Text carried by a token, empty for tokens without text.
pub open spec fn text_payload(t: Token) -> Seq<char> {
    match t {
        Token::Comment(s) | Token::String(s) | Token::Directive(s) | Token::Instruction(s)
        | Token::Name(s) | Token::GlobalLabelDef(s) | Token::LocalLabelDef(s)
        | Token::LocalLabelRef(s) | Token::Error(s) | Token::Macro(s) | Token::MacroArg(s) => s@,
        _ => Seq::empty(),
    }
}

impl Token {
    /// The kind of this token.
    pub fn to_type(&self) -> (r: TokenType)
        ensures
            r == type_of(*self),
            r != TokenType::Begin,
    {
        match self {
            Token::Newline => TokenType::Newline,
            Token::Whitespace => TokenType::Whitespace,
            Token::Comment(_) => TokenType::Comment,
            Token::String(_) => TokenType::String,
            Token::Directive(_) => TokenType::Directive,
            Token::Instruction(_) => TokenType::Instruction,
            Token::Expression(_) => TokenType::Expression,
            Token::Name(_) => TokenType::Name,
            Token::Number(_) => TokenType::Number,
            Token::Operator(_) => TokenType::Operator,
            Token::GlobalLabelDef(_) => TokenType::GlobalLabelDef,
            Token::LocalLabelDef(_) => TokenType::LocalLabelDef,
            Token::LocalLabelRef(_) => TokenType::LocalLabelRef,
            Token::Offset(_) => TokenType::Offset,
            Token::Error(_) => TokenType::Error,
            Token::Macro(_) => TokenType::Macro,
            Token::MacroArg(_) => TokenType::MacroArg,
            Token::MacroDef => TokenType::MacroDef,
            Token::MacroEnd => TokenType::MacroEnd,
            Token::NegativeOffset => TokenType::NegativeOffset,
            Token::PositiveOffset => TokenType::PositiveOffset,
            Token::LParen => TokenType::LParen,
            Token::RParen => TokenType::RParen,
            Token::LBrace => TokenType::LBrace,
            Token::RBrace => TokenType::RBrace,
            Token::Comma => TokenType::Comma,
            Token::Eof => TokenType::Eof,
        }
    }
}

} // verus!
