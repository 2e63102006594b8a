use vstd::prelude::*;
use vstd::string::StrSliceExecFns;

use crate::token::{
    get_operator, is_binary_op, is_left_assoc, precedence_of, Associativity, Operator, RpnItem,
    ShuntingYardError, Token,
};

verus! {

/// Whitespace, which is dropped before the expression is read.
pub open spec fn is_blank(c: char) -> bool {
    c == ' ' || c == '\t' || c == '\n' || c == '\r' || c == '\x0c'
}

/// A character of a numeric literal: a digit or a decimal separator.
pub open spec fn is_literal_char(c: char) -> bool {
    ('0' <= c && c <= '9') || c == '.' || c == ','
}

/// `,` and `.` both separate the decimals.
pub open spec fn normalize_separator(c: char) -> char {
    if c == ',' {
        '.'
    } else {
        c
    }
}

pub open spec fn count_points(s: Seq<char>) -> nat
    decreases s.len(),
{
    if s.len() == 0 {
        0
    } else {
        count_points(s.drop_last()) + if s.last() == '.' {
            1nat
        } else {
            0nat
        }
    }
}

/// A literal of digits and `.` reads as a decimal number when it has at most
/// one point and at least one digit (`1.`, `.5` and `1.5` do; `.` and `1.2.3`
/// do not).
pub open spec fn is_valid_literal(s: Seq<char>) -> bool {
    count_points(s) <= 1 && count_points(s) < s.len()
}

/// The state of the conversion after a prefix of the input: the pending
/// operators, the postfix output so far, and the literal being read.
pub struct Scan {
    pub stack: Seq<char>,
    pub out: Seq<RpnItem>,
    pub literal: Seq<char>,
}

/// Ends the literal being read, if any, and emits it.
pub open spec fn flush(s: Scan) -> Result<Scan, ShuntingYardError> {
    if s.literal.len() == 0 {
        Ok(s)
    } else if is_valid_literal(s.literal) {
        Ok(Scan { stack: s.stack, out: s.out.push(RpnItem::Number(s.literal)), literal: seq![] })
    } else {
        Err(ShuntingYardError::ParseNumberError)
    }
}

/// Whether an incoming operator `op` makes the operator `top` on the stack
/// be emitted first: `top` binds tighter, or as tight and groups to the left.
pub open spec fn yields_to(op: char, top: char) -> bool {
    precedence_of(op) < precedence_of(top) || (precedence_of(op) == precedence_of(top)
        && is_left_assoc(top))
}

/// Emits the operators that `op` yields to, from the top of the stack down.
pub open spec fn reduce(stack: Seq<char>, out: Seq<RpnItem>, op: char) -> (Seq<char>, Seq<RpnItem>)
    decreases stack.len(),
{
    if stack.len() > 0 && yields_to(op, stack.last()) {
        reduce(stack.drop_last(), out.push(RpnItem::Op(stack.last())), op)
    } else {
        (stack, out)
    }
}

/// At a `)`: emits the operators down to the matching `(`, which is dropped.
pub open spec fn close_paren(stack: Seq<char>, out: Seq<RpnItem>) -> Result<
    (Seq<char>, Seq<RpnItem>),
    ShuntingYardError,
>
    decreases stack.len(),
{
    if stack.len() == 0 {
        Err(ShuntingYardError::MismatchedParenthesis)
    } else if stack.last() == '(' {
        Ok((stack.drop_last(), out))
    } else {
        close_paren(stack.drop_last(), out.push(RpnItem::Op(stack.last())))
    }
}

/// At the end of the input: emits the pending operators, top first.
pub open spec fn drain_pending(stack: Seq<char>, out: Seq<RpnItem>) -> Result<
    Seq<RpnItem>,
    ShuntingYardError,
>
    decreases stack.len(),
{
    if stack.len() == 0 {
        Ok(out)
    } else if stack.last() == '(' {
        Err(ShuntingYardError::MismatchedParenthesis)
    } else {
        drain_pending(stack.drop_last(), out.push(RpnItem::Op(stack.last())))
    }
}

/// One character of input.
pub open spec fn step(s: Scan, c: char) -> Result<Scan, ShuntingYardError> {
    if is_blank(c) {
        Ok(s)
    } else if is_literal_char(c) {
        Ok(Scan { stack: s.stack, out: s.out, literal: s.literal.push(normalize_separator(c)) })
    } else {
        match flush(s) {
            Err(e) => Err(e),
            Ok(t) => if c == '(' {
                Ok(Scan { stack: t.stack.push('('), out: t.out, literal: t.literal })
            } else if c == ')' {
                match close_paren(t.stack, t.out) {
                    Ok(p) => Ok(Scan { stack: p.0, out: p.1, literal: t.literal }),
                    Err(e) => Err(e),
                }
            } else if is_binary_op(c) {
                let p = reduce(t.stack, t.out, c);
                Ok(Scan { stack: p.0.push(c), out: p.1, literal: t.literal })
            } else {
                Err(ShuntingYardError::UnknownOperatorError(c))
            },
        }
    }
}

pub open spec fn initial_scan() -> Scan {
    Scan { stack: seq![], out: seq![], literal: seq![] }
}

/// The state after reading all of `cs`, left to right.
pub open spec fn scan(cs: Seq<char>) -> Result<Scan, ShuntingYardError>
    decreases cs.len(),
{
    if cs.len() == 0 {
        Ok(initial_scan())
    } else {
        match scan(cs.drop_last()) {
            Err(e) => Err(e),
            Ok(s) => step(s, cs.last()),
        }
    }
}

/// The postfix form of the expression `cs`, or the first error met in it.
pub open spec fn rpn_of(cs: Seq<char>) -> Result<Seq<RpnItem>, ShuntingYardError> {
    match scan(cs) {
        Err(e) => Err(e),
        Ok(s) => match flush(s) {
            Err(e) => Err(e),
            Ok(t) => drain_pending(t.stack, t.out),
        },
    }
}

pub open spec fn items_of(tokens: Seq<Token>) -> Seq<RpnItem> {
    tokens.map_values(|t: Token| t@)
}

/// Only `(` and binary operators are ever pending.
pub open spec fn stack_ok(stack: Seq<char>) -> bool {
    forall|i: int| 0 <= i < stack.len() ==> stack[i] == '(' || is_binary_op(#[trigger] stack[i])
}

proof fn lemma_items_push(tokens: Seq<Token>, t: Token)
    ensures
        items_of(tokens.push(t)) == items_of(tokens).push(t@),
{
    assert(items_of(tokens.push(t)) =~= items_of(tokens).push(t@));
}

/// Once an error is met, it is the outcome of every longer input.
proof fn lemma_scan_error_sticks(cs: Seq<char>, i: int, j: int)
    requires
        0 <= i <= j <= cs.len(),
        scan(cs.take(i)) is Err,
    ensures
        scan(cs.take(j)) == scan(cs.take(i)),
    decreases j - i,
{
    if j > i {
        lemma_scan_error_sticks(cs, i, j - 1);
        assert(cs.take(j).drop_last() =~= cs.take(j - 1));
    }
}

fn is_blank_char(c: char) -> (r: bool)
    ensures
        r == is_blank(c),
{
    c == ' ' || c == '\t' || c == '\n' || c == '\r' || c == '\x0c'
}

fn is_literal_character(c: char) -> (r: bool)
    ensures
        r == is_literal_char(c),
{
    ('0' <= c && c <= '9') || c == '.' || c == ','
}

fn literal_is_valid(literal: &Vec<char>) -> (r: bool)
    ensures
        r == is_valid_literal(literal@),
{
    let mut points: usize = 0;
    let mut i: usize = 0;
    while i < literal.len()
        invariant
            i <= literal@.len(),
            points as nat == count_points(literal@.take(i as int)),
            points <= i,
        decreases literal.len() - i,
    {
        assert(literal@.take(i + 1).drop_last() =~= literal@.take(i as int));
        if literal[i] == '.' {
            points = points + 1;
        }
        i = i + 1;
    }
    assert(literal@.take(i as int) =~= literal@);
    points <= 1 && points < literal.len()
}

/// Emits the literal being read; `literal` is left empty.
fn flush_literal(literal: &mut Vec<char>, out: &mut Vec<Token>) -> (r: Result<(), ShuntingYardError>)
    ensures
        ({
            let s = Scan { stack: seq![], out: items_of(old(out)@), literal: old(literal)@ };
            match flush(s) {
                Ok(t) => r is Ok && items_of(final(out)@) == t.out && final(literal)@ == t.literal,
                Err(e) => r == Err::<(), ShuntingYardError>(e),
            }
        }),
{
    if literal.len() == 0 {
        return Ok(());
    }
    if !literal_is_valid(literal) {
        return Err(ShuntingYardError::ParseNumberError);
    }
    let mut digits: Vec<char> = Vec::new();
    core::mem::swap(literal, &mut digits);
    proof {
        lemma_items_push(out@, Token::Operand(digits));
    }
    out.push(Token::Operand(digits));
    Ok(())
}

fn yields(op: Operator, top: Operator) -> (r: bool)
    ensures
        r == (op.precedence < top.precedence || (op.precedence == top.precedence
            && top.associativity == Associativity::Left)),
{
    op.precedence < top.precedence || (op.precedence == top.precedence && top.associativity
        == Associativity::Left)
}

/// Emits the operators on the stack that the incoming binary operator `c` yields to.
fn reduce_stack(stack: &mut Vec<char>, out: &mut Vec<Token>, c: char)
    requires
        is_binary_op(c),
        stack_ok(old(stack)@),
    ensures
        (final(stack)@, items_of(final(out)@)) == reduce(old(stack)@, items_of(old(out)@), c),
        stack_ok(final(stack)@),
{
    let ghost goal = reduce(stack@, items_of(out@), c);
    let op = match get_operator(c) {
        Ok(op) => op,
        Err(_) => {
            return;
        },
    };
    while stack.len() > 0
        invariant
            reduce(stack@, items_of(out@), c) == goal,
            goal == reduce(old(stack)@, items_of(old(out)@), c),
            stack_ok(stack@),
            op.precedence == precedence_of(c),
            (op.associativity == Associativity::Left) == is_left_assoc(c),
        decreases stack.len(),
    {
        let t = stack[stack.len() - 1];
        assert(stack@[stack@.len() - 1] == '(' || is_binary_op(stack@[stack@.len() - 1]));
        let top = match get_operator(t) {
            Ok(top) => top,
            Err(_) => {
                return;
            },
        };
        if !yields(op, top) {
            return;
        }
        stack.pop();
        proof {
            lemma_items_push(out@, Token::Operator(t));
        }
        out.push(Token::Operator(t));
    }
}

/// At a `)`: emits the operators down to the matching `(`.
fn close_parenthesis(stack: &mut Vec<char>, out: &mut Vec<Token>) -> (r: Result<(), ShuntingYardError>)
    requires
        stack_ok(old(stack)@),
    ensures
        match close_paren(old(stack)@, items_of(old(out)@)) {
            Ok(p) => r is Ok && final(stack)@ == p.0 && items_of(final(out)@) == p.1,
            Err(e) => r == Err::<(), ShuntingYardError>(e),
        },
        stack_ok(final(stack)@),
{
    let ghost goal = close_paren(stack@, items_of(out@));
    while stack.len() > 0
        invariant
            close_paren(stack@, items_of(out@)) == goal,
            goal == close_paren(old(stack)@, items_of(old(out)@)),
            stack_ok(stack@),
        decreases stack.len(),
    {
        let ghost before = stack@;
        let t = stack[stack.len() - 1];
        stack.pop();
        assert(stack@ =~= before.drop_last());
        if t == '(' {
            return Ok(());
        }
        proof {
            lemma_items_push(out@, Token::Operator(t));
        }
        out.push(Token::Operator(t));
    }
    Err(ShuntingYardError::MismatchedParenthesis)
}

/// At the end of the input: emits the pending operators.
fn drain_stack(stack: &mut Vec<char>, out: &mut Vec<Token>) -> (r: Result<(), ShuntingYardError>)
    requires
        stack_ok(old(stack)@),
    ensures
        match drain_pending(old(stack)@, items_of(old(out)@)) {
            Ok(o) => r is Ok && items_of(final(out)@) == o,
            Err(e) => r == Err::<(), ShuntingYardError>(e),
        },
{
    let ghost goal = drain_pending(stack@, items_of(out@));
    while stack.len() > 0
        invariant
            drain_pending(stack@, items_of(out@)) == goal,
            goal == drain_pending(old(stack)@, items_of(old(out)@)),
            stack_ok(stack@),
        decreases stack.len(),
    {
        let ghost before = stack@;
        let t = stack[stack.len() - 1];
        stack.pop();
        assert(stack@ =~= before.drop_last());
        if t == '(' {
            return Err(ShuntingYardError::MismatchedParenthesis);
        }
        proof {
            lemma_items_push(out@, Token::Operator(t));
        }
        out.push(Token::Operator(t));
    }
    Ok(())
}


/// Converts an infix expression to its postfix form (shunting yard): one pass
/// over the characters, left to right.
pub fn convert(equation: &str) -> (r: Result<Vec<Token>, ShuntingYardError>)
    ensures
        match rpn_of(equation@) {
            Ok(items) => r matches Ok(tokens) && items_of(tokens@) == items,
            Err(e) => r == Err::<Vec<Token>, ShuntingYardError>(e),
        },
{
    let n = equation.unicode_len();
    let mut stack: Vec<char> = Vec::new();
    let mut out: Vec<Token> = Vec::new();
    let mut literal: Vec<char> = Vec::new();
    let mut i: usize = 0;
    assert(equation@.take(0) =~= Seq::<char>::empty());
    assert(items_of(out@) =~= Seq::<RpnItem>::empty());
    while i < n
        invariant
            n == equation@.len(),
            i <= n,
            stack_ok(stack@),
            scan(equation@.take(i as int)) == Ok::<Scan, ShuntingYardError>(
                Scan { stack: stack@, out: items_of(out@), literal: literal@ },
            ),
        decreases n - i,
    {
        let c = equation.get_char(i);
        let ghost cs = equation@.take(i + 1);
        assert(cs.drop_last() =~= equation@.take(i as int));
        assert(cs.last() == c);
        if is_blank_char(c) {
        } else if is_literal_character(c) {
            literal.push(if c == ',' { '.' } else { c });
        } else {
            match flush_literal(&mut literal, &mut out) {
                Err(e) => {
                    proof {
                        lemma_scan_error_sticks(equation@, i + 1, n as int);
                        assert(equation@.take(n as int) =~= equation@);
                    }
                    return Err(e);
                },
                Ok(()) => {},
            }
            if c == '(' {
                stack.push(c);
            } else if c == ')' {
                match close_parenthesis(&mut stack, &mut out) {
                    Err(e) => {
                        proof {
                            lemma_scan_error_sticks(equation@, i + 1, n as int);
                            assert(equation@.take(n as int) =~= equation@);
                        }
                        return Err(e);
                    },
                    Ok(()) => {},
                }
            } else {
                match get_operator(c) {
                    Err(e) => {
                        proof {
                            lemma_scan_error_sticks(equation@, i + 1, n as int);
                            assert(equation@.take(n as int) =~= equation@);
                        }
                        return Err(e);
                    },
                    Ok(_) => {},
                }
                reduce_stack(&mut stack, &mut out, c);
                stack.push(c);
            }
        }
        i = i + 1;
    }
    assert(equation@.take(n as int) =~= equation@);
    match flush_literal(&mut literal, &mut out) {
        Err(e) => {
            return Err(e);
        },
        Ok(()) => {},
    }
    match drain_stack(&mut stack, &mut out) {
        Err(e) => Err(e),
        Ok(()) => Ok(out),
    }
}

} // verus!
