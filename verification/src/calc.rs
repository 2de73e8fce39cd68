//! The calculator: tokenizer, parser and evaluator in a row.

use vstd::prelude::*;
use crate::eval::{eval, value, EvalError};
use crate::parser::{parse_tokens, ParseError, Parser};
use crate::tokenize::{lex, tokenize, LexError};

verus! {

/// Why a line of text has no value: the stage that failed and its reason.
#[derive(Debug, Clone, Copy, PartialEq, Eq, Structural)]
pub enum CalcError {
    /// The text holds a character outside the accepted alphabet.
    Lex(LexError),
    /// The tokens do not start with an expression.
    Parse(ParseError),
    /// The expression has no value.
    Eval(EvalError),
}

/// The value of the expression written in `text`: the tokens of the text,
/// parsed from the front, evaluated. The first stage that fails decides the
/// error. Tokens behind the expression are ignored.
pub open spec fn calculation(text: Seq<char>) -> Result<i32, CalcError> {
    match lex(text) {
        Err(e) => Err(CalcError::Lex(e)),
        Ok(tokens) => match parse_tokens(tokens) {
            Err(e) => Err(CalcError::Parse(e)),
            Ok((ast, _)) => match value(ast) {
                Err(e) => Err(CalcError::Eval(e)),
                Ok(v) => Ok(v),
            },
        },
    }
}

/// The calculator keeps no state: texts with the same characters have the
/// same outcome, at every stage.
pub proof fn lemma_calculation_is_deterministic(first: Seq<char>, second: Seq<char>)
    requires
        first.len() == second.len(),
        forall|i: int| 0 <= i < first.len() ==> first[i] == second[i],
    ensures
        lex(first) == lex(second),
        calculation(first) == calculation(second),
{
    assert(first =~= second);
}

/// Computes the value of the expression written in `s`.
pub fn calculate(s: String) -> (r: Result<i32, CalcError>)
    ensures
        r == calculation(s@),
{
    let tokens = match tokenize(s) {
        Ok(tokens) => tokens,
        Err(e) => {
            return Err(CalcError::Lex(e));
        },
    };
    let mut parser = Parser::new(tokens);
    let ast = match parser.parse() {
        Ok(ast) => ast,
        Err(e) => {
            return Err(CalcError::Parse(e));
        },
    };
    match eval(ast) {
        Ok(v) => Ok(v),
        Err(e) => Err(CalcError::Eval(e)),
    }
}

} // verus!
