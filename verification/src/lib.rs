use vstd::prelude::*;

pub mod ast;
pub mod parser;
pub mod rational;
pub mod token;
pub mod tokenizer;

use crate::ast::{spec_eval, EvalError};
use crate::parser::{spec_parse, ParseError, Parser};
use crate::rational::{RatVal, Rational};
use crate::tokenizer::{spec_lex, LexError, Tokenizer};

verus! {

/// Any failure of the pipeline, tagged by the stage that found it.
#[derive(Debug, Clone, Copy, PartialEq, Eq, Structural)]
pub enum ExprError {
    Lex(LexError),
    Parse(ParseError),
    Eval(EvalError),
}

/// The value of a whole expression text: lex, then parse, then evaluate; the
/// first failure aborts the pipeline.
pub open spec fn spec_evaluate(s: Seq<char>) -> Result<RatVal, ExprError> {
    match spec_lex(s) {
        Err(e) => Err(ExprError::Lex(e)),
        Ok(ts) => match spec_parse(ts) {
            Err(e) => Err(ExprError::Parse(e)),
            Ok(tree) => match spec_eval(tree) {
                Err(e) => Err(ExprError::Eval(e)),
                Ok(v) => Ok(v),
            },
        },
    }
}

/// Runs the whole pipeline on one expression text; see `spec_evaluate`.
pub fn evaluate_expression(s: &str) -> (r: Result<Rational, ExprError>)
    ensures
        match r {
            Ok(v) => spec_evaluate(s@) == Ok::<RatVal, ExprError>(v@) && v.wf(),
            Err(e) => spec_evaluate(s@) == Err::<RatVal, ExprError>(e),
        },
{
    let mut tokenizer = match Tokenizer::new(s) {
        Ok(t) => t,
        Err(e) => {
            return Err(ExprError::Lex(e));
        },
    };
    let tokens = match tokenizer.tokens() {
        Ok(v) => v,
        Err(e) => {
            return Err(ExprError::Lex(e));
        },
    };
    let mut parser = Parser::new(tokens);
    let tree = match parser.parse() {
        Ok(a) => a,
        Err(e) => {
            return Err(ExprError::Parse(e));
        },
    };
    match tree.eval() {
        Ok(v) => Ok(v),
        Err(e) => Err(ExprError::Eval(e)),
    }
}

} // verus!
