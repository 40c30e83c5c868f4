use vstd::prelude::*;

use crate::ast::Operator;
use crate::rational::Rational;

verus! {

/// One lexical unit of an expression.  `Number` carries the exact rational
/// value of the literal it was scanned from.
#[derive(Clone, Copy, Debug, PartialEq, Eq, Structural)]
pub enum Token {
    Plus,
    Minus,
    Times,
    Divide,
    LParen,
    RParen,
    Number(Rational),
}

/// A token that stands for a binary arithmetic operator.
pub open spec fn spec_is_operator(t: Token) -> bool {
    t == Token::Plus || t == Token::Minus || t == Token::Times || t == Token::Divide
}

/// The operator a token stands for.  Meaningful only for operator tokens.
pub open spec fn spec_operator(t: Token) -> Operator {
    match t {
        Token::Plus => Operator::Add,
        Token::Minus => Operator::Subtract,
        Token::Times => Operator::Multiply,
        Token::Divide => Operator::Divide,
        _ => Operator::Add,
    }
}

/// Binding strength of an operator token: additive operators bind loosest,
/// multiplicative ones tighter.  Meaningful only for operator tokens.
pub open spec fn spec_precedence(t: Token) -> int {
    match t {
        Token::Times | Token::Divide => 1,
        _ => 0,
    }
}

/// A number token is well-formed when its rational value is.
pub open spec fn token_wf(t: Token) -> bool {
    match t {
        Token::Number(v) => v.wf(),
        _ => true,
    }
}

/// All number tokens of a sequence are well-formed.
pub open spec fn tokens_wf(ts: Seq<Token>) -> bool {
    forall|i: int| 0 <= i < ts.len() ==> #[trigger] token_wf(ts[i])
}

impl Token {
    /// Returns `true` if the token is a `Number`.
    pub fn is_number(&self) -> (r: bool)
        ensures
            r == (self matches Token::Number(_)),
    {
        matches!(self, Token::Number(..))
    }

    /// The rational value of a number token.
    pub fn value(&self) -> (r: Rational)
        requires
            *self matches Token::Number(_),
        ensures
            *self == Token::Number(r),
    {
        match self {
            Token::Number(n) => *n,
            _ => vstd::pervasive::unreached(),
        }
    }

    /// Returns `true` if the token is `Plus`, `Minus`, `Times` or `Divide`.
    pub fn is_operator(&self) -> (r: bool)
        ensures
            r == spec_is_operator(*self),
    {
        matches!(self, Token::Plus | Token::Minus | Token::Times | Token::Divide)
    }

    /// The `Operator` an operator token stands for.
    pub fn operator(&self) -> (r: Operator)
        requires
            spec_is_operator(*self),
        ensures
            r == spec_operator(*self),
    {
        match self {
            Token::Plus => Operator::Add,
            Token::Minus => Operator::Subtract,
            Token::Times => Operator::Multiply,
            Token::Divide => Operator::Divide,
            _ => vstd::pervasive::unreached(),
        }
    }

    /// Binding strength of an operator token.
    pub fn precedence(&self) -> (r: u8)
        requires
            spec_is_operator(*self),
        ensures
            r as int == spec_precedence(*self),
    {
        match self {
            Token::Plus | Token::Minus => 0,
            Token::Times | Token::Divide => 1,
            _ => vstd::pervasive::unreached(),
        }
    }

    /// Returns `true` if the token is `LParen`.
    pub fn is_lparen(&self) -> (r: bool)
        ensures
            r == (self matches Token::LParen),
    {
        matches!(self, Token::LParen)
    }

    /// Returns `true` if the token is `RParen`.
    pub fn is_rparen(&self) -> (r: bool)
        ensures
            r == (self matches Token::RParen),
    {
        matches!(self, Token::RParen)
    }
}

} // verus!
