pub mod components;
pub mod error;
pub mod laws;
pub mod lexer;
pub mod precedence;
pub mod regex;
pub mod states;
pub mod text;
pub mod token;

use vstd::prelude::*;

use crate::error::Error;
use crate::lexer::lexemes;
use crate::states::input::{sanitized, Input};
use crate::states::sanitized_input::structure_result;
use crate::states::tokens::evaluation;
use crate::states::validated_input::{denotes_all, first_invalid_at, token_check};
use crate::token::{Expr, Token};

verus! {

/// What a token sequence that the lexemes of a text name comes to: its order checked,
/// then reduced to one expression.
pub open spec fn outcome(ts: Seq<Token>) -> Result<Expr, Error> {
    match token_check(ts) {
        Err(e) => Err(e),
        Ok(_) => match evaluation(ts) {
            Some(x) => Ok(x),
            None => Err(Error::Internal),
        },
    }
}

/// Evaluates an arithmetic expression to the expression tree that its operators build,
/// by precedence, left to right.
pub fn eval(input: &str) -> (r: Result<Expr, Error>)
    ensures
        ({
            let t = sanitized(input@);
            let ls = lexemes(t, true);
            match structure_result(t) {
                Err(e) => r == Err::<Expr, Error>(e),
                Ok(_) => (exists|k: int|
                    first_invalid_at(ls, k, true) && (r matches Err(Error::InvalidToken(x)) && x@
                        == ls[k])) || (exists|ts: Seq<Token>|
                    denotes_all(ts, ls, true) && r == outcome(ts)),
            }
        }),
{
    let input = Input(input.to_owned());
    let sanitized_input = input.sanitize();
    let validated_input = match sanitized_input.validate() {
        Ok(v) => v,
        Err(e) => {
            return Err(e);
        },
    };
    let ghost text = validated_input.0@;
    let tokens = match validated_input.tokenize() {
        Ok(t) => t,
        Err(e) => {
            proof {
                let ls = lexemes(text, true);
                if exists|ts: Seq<Token>|
                    denotes_all(ts, ls, true) && token_check(ts) == Err::<(), Error>(e) {
                    let ts = choose|ts: Seq<Token>|
                        denotes_all(ts, ls, true) && token_check(ts) == Err::<(), Error>(e);
                    assert(outcome(ts) == Err::<Expr, Error>(e));
                }
            }
            return Err(e);
        },
    };
    let ghost ts = tokens.0@;
    let r = tokens.evaluate();
    assert(denotes_all(ts, lexemes(text, true), true) && r == outcome(ts));
    r
}

} // verus!
