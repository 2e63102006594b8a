use vstd::prelude::*;

use crate::converter::items_of;
use crate::token::{is_binary_op, Expr, RpnItem, ShuntingYardError, Term, Token};

verus! {

/// One token of postfix input against the value stack: a number is pushed;
/// an operator takes the two top values (the upper one as its right operand)
/// and pushes its application to them.
pub open spec fn apply_item(values: Seq<Term>, t: RpnItem) -> Result<Seq<Term>, ShuntingYardError> {
    match t {
        RpnItem::Number(digits) => Ok(values.push(Term::Num(digits))),
        RpnItem::Op(c) => if values.len() < 2 {
            Err(ShuntingYardError::StackUnderflow)
        } else if !is_binary_op(c) {
            Err(ShuntingYardError::UnknownOperatorError(c))
        } else {
            Ok(
                values.drop_last().drop_last().push(
                    Term::Apply(c, Box::new(values[values.len() - 2]), Box::new(values.last())),
                ),
            )
        },
    }
}

/// The value stack after all of `items`, left to right.
pub open spec fn run(items: Seq<RpnItem>) -> Result<Seq<Term>, ShuntingYardError>
    decreases items.len(),
{
    if items.len() == 0 {
        Ok(seq![])
    } else {
        match run(items.drop_last()) {
            Err(e) => Err(e),
            Ok(values) => apply_item(values, items.last()),
        }
    }
}

/// The expression that a postfix sequence stands for: the top of the value
/// stack at the end.
pub open spec fn evaluation(items: Seq<RpnItem>) -> Result<Term, ShuntingYardError> {
    match run(items) {
        Err(e) => Err(e),
        Ok(values) => if values.len() == 0 {
            Err(ShuntingYardError::StackUnderflow)
        } else {
            Ok(values.last())
        },
    }
}

pub open spec fn terms_of(values: Seq<Expr>) -> Seq<Term> {
    values.map_values(|e: Expr| e.term())
}

proof fn lemma_run_error_sticks(items: Seq<RpnItem>, i: int, j: int)
    requires
        0 <= i <= j <= items.len(),
        run(items.take(i)) is Err,
    ensures
        run(items.take(j)) == run(items.take(i)),
    decreases j - i,
{
    if j > i {
        lemma_run_error_sticks(items, i, j - 1);
        assert(items.take(j).drop_last() =~= items.take(j - 1));
    }
}

fn copy_digits(digits: &Vec<char>) -> (r: Vec<char>)
    ensures
        r@ == digits@,
{
    let mut r: Vec<char> = Vec::new();
    let mut i: usize = 0;
    while i < digits.len()
        invariant
            i <= digits@.len(),
            r@ == digits@.take(i as int),
        decreases digits.len() - i,
    {
        assert(digits@.take(i + 1) =~= r@.push(digits@[i as int]));
        r.push(digits[i]);
        i = i + 1;
    }
    assert(digits@.take(i as int) =~= digits@);
    r
}

/// Evaluates a postfix sequence on a stack of expression trees.
pub fn evaluate(tokens: &Vec<Token>) -> (r: Result<Expr, ShuntingYardError>)
    ensures
        match evaluation(items_of(tokens@)) {
            Ok(t) => r matches Ok(e) && e.term() == t,
            Err(e) => r == Err::<Expr, ShuntingYardError>(e),
        },
{
    let ghost items = items_of(tokens@);
    let mut values: Vec<Expr> = Vec::new();
    let mut i: usize = 0;
    assert(items.take(0) =~= Seq::<RpnItem>::empty());
    assert(terms_of(values@) =~= Seq::<Term>::empty());
    while i < tokens.len()
        invariant
            items == items_of(tokens@),
            i <= tokens@.len(),
            run(items.take(i as int)) == Ok::<Seq<Term>, ShuntingYardError>(terms_of(values@)),
        decreases tokens.len() - i,
    {
        let ghost before = terms_of(values@);
        assert(items.take(i + 1).drop_last() =~= items.take(i as int));
        assert(items.take(i + 1).last() == tokens@[i as int]@);
        match &tokens[i] {
            Token::Operand(digits) => {
                let e = Expr::Number(copy_digits(digits));
                values.push(e);
                assert(terms_of(values@) =~= before.push(e.term()));
            },
            Token::Operator(c) => {
                let c = *c;
                if values.len() < 2 {
                    proof {
                        lemma_run_error_sticks(items, i + 1, tokens@.len() as int);
                        assert(items.take(tokens@.len() as int) =~= items);
                    }
                    return Err(ShuntingYardError::StackUnderflow);
                }
                if !(c == '+' || c == '-' || c == '*' || c == '/' || c == '^') {
                    proof {
                        lemma_run_error_sticks(items, i + 1, tokens@.len() as int);
                        assert(items.take(tokens@.len() as int) =~= items);
                    }
                    return Err(ShuntingYardError::UnknownOperatorError(c));
                }
                let ghost vs = values@;
                let b = values.pop().unwrap();
                let a = values.pop().unwrap();
                assert(a == vs[vs.len() - 2] && b == vs[vs.len() - 1]);
                let e = Expr::Apply(c, Box::new(a), Box::new(b));
                values.push(e);
                assert(terms_of(values@) =~= before.drop_last().drop_last().push(e.term()));
            },
        }
        i = i + 1;
    }
    assert(items.take(tokens@.len() as int) =~= items);
    match values.pop() {
        Some(e) => Ok(e),
        None => Err(ShuntingYardError::StackUnderflow),
    }
}

} // verus!
