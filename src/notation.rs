use vstd::prelude::*;

use crate::converter::{convert, items_of, rpn_of};
use crate::token::{push_char, RpnItem, ShuntingYardError, Token};

verus! {

/// The text of one postfix token.
pub open spec fn item_text(t: RpnItem) -> Seq<char> {
    match t {
        RpnItem::Number(digits) => digits,
        RpnItem::Op(c) => seq![c],
    }
}

/// The tokens' texts, separated by single spaces.
pub open spec fn render(items: Seq<RpnItem>) -> Seq<char>
    decreases items.len(),
{
    if items.len() == 0 {
        seq![]
    } else if items.len() == 1 {
        item_text(items[0])
    } else {
        render(items.drop_last()) + seq![' '] + item_text(items.last())
    }
}

/// Writes a postfix sequence as text, tokens separated by single spaces.
pub fn render_tokens(tokens: &Vec<Token>) -> (r: String)
    ensures
        r@ == render(items_of(tokens@)),
{
    let ghost items = items_of(tokens@);
    let mut s = String::new();
    let mut i: usize = 0;
    assert(items.take(0) =~= Seq::<RpnItem>::empty());
    while i < tokens.len()
        invariant
            items == items_of(tokens@),
            i <= tokens@.len(),
            s@ == render(items.take(i as int)),
        decreases tokens.len() - i,
    {
        let ghost start = s@;
        let ghost prefix = items.take(i + 1);
        assert(prefix.drop_last() =~= items.take(i as int));
        assert(prefix.last() == tokens@[i as int]@);
        if i > 0 {
            push_char(&mut s, ' ');
        }
        let ghost sep = s@;
        match &tokens[i] {
            Token::Operand(digits) => {
                let mut j: usize = 0;
                while j < digits.len()
                    invariant
                        j <= digits@.len(),
                        s@ == sep + digits@.take(j as int),
                    decreases digits.len() - j,
                {
                    assert(digits@.take(j + 1) =~= digits@.take(j as int).push(digits@[j as int]));
                    push_char(&mut s, digits[j]);
                    j = j + 1;
                }
                assert(digits@.take(j as int) =~= digits@);
            },
            Token::Operator(c) => {
                push_char(&mut s, *c);
            },
        }
        assert(s@ =~= render(prefix));
        i = i + 1;
    }
    assert(items.take(tokens@.len() as int) =~= items);
    s
}

/// Converts an infix expression to its postfix form, written as text.
pub fn convert_to_rpn(equation: String) -> (r: Result<String, ShuntingYardError>)
    ensures
        match rpn_of(equation@) {
            Ok(items) => r matches Ok(s) && s@ == render(items),
            Err(e) => r == Err::<String, ShuntingYardError>(e),
        },
{
    match convert(equation.as_str()) {
        Ok(tokens) => Ok(render_tokens(&tokens)),
        Err(e) => Err(e),
    }
}

} // verus!
