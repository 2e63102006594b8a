use vstd::prelude::*;

verus! {

/// What can go wrong while reading or evaluating an expression.
#[derive(Debug, Clone, Copy, PartialEq, Eq, Structural)]
pub enum ShuntingYardError {
    /// A numeric literal is not a valid decimal number.
    ParseNumberError,
    /// A character that is neither part of a literal nor one of the
    /// recognized operator symbols, or an unknown operator in RPN.
    UnknownOperatorError(char),
    /// A `)` without a matching `(`, or a `(` left open at the end.
    MismatchedParenthesis,
    /// An operator found fewer than two values to work on.
    StackUnderflow,
}

/// Relies on `String::push`: appends one character at the end.
#[verifier::external_body]
pub(crate) fn push_char(s: &mut String, c: char)
    ensures
        final(s)@ == old(s)@.push(c),
{
    s.push(c);
}

impl ShuntingYardError {
    /// The human-readable message of the error.
    pub fn message(&self) -> (r: String)
        ensures
            *self == ShuntingYardError::ParseNumberError ==> r@ == "ParseFloatError: invalid float literal"@,
            *self matches ShuntingYardError::UnknownOperatorError(c) ==> r@ == "Unknown operator: "@.push(c),
            *self == ShuntingYardError::MismatchedParenthesis ==> r@ == "Mismatched Parenthesis"@,
            *self == ShuntingYardError::StackUnderflow ==> r@ == "Stack Underflow"@,
    {
        match self {
            ShuntingYardError::ParseNumberError => String::from_str("ParseFloatError: invalid float literal"),
            ShuntingYardError::UnknownOperatorError(c) => {
                let mut r = String::from_str("Unknown operator: ");
                push_char(&mut r, *c);
                r
            },
            ShuntingYardError::MismatchedParenthesis => String::from_str("Mismatched Parenthesis"),
            ShuntingYardError::StackUnderflow => String::from_str("Stack Underflow"),
        }
    }
}

#[derive(Debug, Clone, Copy, PartialEq, Eq, Structural)]
pub enum Associativity {
    Left,
    Right,
}

/// Precedence and associativity of an operator symbol.
#[derive(Debug, Clone, Copy, PartialEq, Eq, Structural)]
pub struct Operator {
    pub precedence: u8,
    pub associativity: Associativity,
}

/// The binary operators `+ - * / ^`.
pub open spec fn is_binary_op(c: char) -> bool {
    c == '+' || c == '-' || c == '*' || c == '/' || c == '^'
}

/// The six symbols of the operator table: the binary operators and the parentheses.
pub open spec fn is_operator_symbol(c: char) -> bool {
    is_binary_op(c) || c == '(' || c == ')'
}

pub open spec fn precedence_of(c: char) -> nat {
    if c == '+' || c == '-' {
        2
    } else if c == '*' || c == '/' {
        3
    } else if c == '^' {
        4
    } else {
        1
    }
}

/// Only `^` groups to the right.
pub open spec fn is_left_assoc(c: char) -> bool {
    c != '^'
}

/// Looks up an operator symbol in the operator table.
pub fn get_operator(c: char) -> (r: Result<Operator, ShuntingYardError>)
    ensures
        is_operator_symbol(c) ==> (r matches Ok(op) && op.precedence == precedence_of(c) && (
        op.associativity == Associativity::Left) == is_left_assoc(c)),
        !is_operator_symbol(c) ==> r == Err::<Operator, _>(ShuntingYardError::UnknownOperatorError(c)),
{
    match c {
        '(' | ')' => Ok(Operator { precedence: 1, associativity: Associativity::Left }),
        '+' | '-' => Ok(Operator { precedence: 2, associativity: Associativity::Left }),
        '*' | '/' => Ok(Operator { precedence: 3, associativity: Associativity::Left }),
        '^' => Ok(Operator { precedence: 4, associativity: Associativity::Right }),
        _ => Err(ShuntingYardError::UnknownOperatorError(c)),
    }
}

/// A token of the postfix form, as the specifications see it.
pub enum RpnItem {
    Number(Seq<char>),
    Op(char),
}

/// A token of the postfix form: a numeric literal (with `.` as its decimal
/// separator) or an operator symbol.
#[derive(Debug)]
pub enum Token {
    Operand(Vec<char>),
    Operator(char),
}

impl View for Token {
    type V = RpnItem;

    open spec fn view(&self) -> RpnItem {
        match self {
            Token::Operand(digits) => RpnItem::Number(digits@),
            Token::Operator(c) => RpnItem::Op(*c),
        }
    }
}

/// An expression tree, as the specifications see it.
pub enum Term {
    Num(Seq<char>),
    Apply(char, Box<Term>, Box<Term>),
}

/// An expression tree: a numeric literal, or a binary operator applied to two
/// subexpressions. This is what evaluating the postfix form yields before any
/// arithmetic is done.
#[derive(Debug)]
pub enum Expr {
    Number(Vec<char>),
    Apply(char, Box<Expr>, Box<Expr>),
}

impl Expr {
    pub open spec fn term(&self) -> Term
        decreases self,
    {
        match self {
            Expr::Number(digits) => Term::Num(digits@),
            Expr::Apply(c, a, b) => Term::Apply(*c, Box::new(a.term()), Box::new(b.term())),
        }
    }
}

} // verus!
