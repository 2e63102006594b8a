pub mod converter;
pub mod evaluator;
pub mod laws;
pub mod notation;
pub mod token;

use vstd::prelude::*;

use crate::converter::{convert, rpn_of};
use crate::evaluator::{evaluate, evaluation};

pub use notation::convert_to_rpn;
pub use token::{Expr, ShuntingYardError, Term, Token};

verus! {

/// What an infix expression reads as: the tree of its postfix form, or the
/// first error met while converting or evaluating it.
pub open spec fn solution(cs: Seq<char>) -> Result<Term, ShuntingYardError> {
    match rpn_of(cs) {
        Err(e) => Err(e),
        Ok(items) => evaluation(items),
    }
}

/// Reads an infix expression: converts it to postfix form and evaluates that
/// on a value stack. The result is the expression tree whose arithmetic gives
/// the expression's value; its numeric literals use `.` as the separator.
pub fn solve(equation: String) -> (r: Result<Expr, ShuntingYardError>)
    ensures
        match solution(equation@) {
            Ok(t) => r matches Ok(e) && e.term() == t,
            Err(e) => r == Err::<Expr, ShuntingYardError>(e),
        },
{
    match convert(equation.as_str()) {
        Err(e) => Err(e),
        Ok(tokens) => evaluate(&tokens),
    }
}

} // verus!
