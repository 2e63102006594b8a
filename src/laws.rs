use vstd::prelude::*;

use crate::converter::{
    close_paren, drain_pending, flush, is_blank, is_literal_char, normalize_separator, reduce,
    rpn_of, scan, stack_ok, step, yields_to, Scan,
};
use crate::evaluator::{apply_item, evaluation, run};
use crate::solution;
use crate::token::{is_binary_op, RpnItem, ShuntingYardError, Term};

verus! {

/// Every `,` written as `.`.
pub open spec fn with_points(cs: Seq<char>) -> Seq<char> {
    cs.map_values(|c: char| normalize_separator(c))
}

proof fn lemma_step_normalized(s: Scan, c: char)
    ensures
        step(s, c) == step(s, normalize_separator(c)),
{
}

proof fn lemma_scan_with_points(cs: Seq<char>)
    ensures
        scan(cs) == scan(with_points(cs)),
    decreases cs.len(),
{
    if cs.len() > 0 {
        lemma_scan_with_points(cs.drop_last());
        assert(with_points(cs).drop_last() =~= with_points(cs.drop_last()));
        lemma_step_normalized(scan(cs.drop_last())->Ok_0, cs.last());
    }
}

/// Solving the same text twice gives the same outcome: the result depends on
/// the characters of the input alone.
pub proof fn solve_is_deterministic(a: Seq<char>, b: Seq<char>)
    requires
        a == b,
    ensures
        solution(a) == solution(b),
        rpn_of(a) == rpn_of(b),
{
}

/// `,` and `.` are the same decimal separator: writing every `,` as `.`
/// changes neither the postfix form nor the outcome of solving.
pub proof fn comma_is_a_decimal_point(cs: Seq<char>)
    ensures
        rpn_of(cs) == rpn_of(with_points(cs)),
        solution(cs) == solution(with_points(cs)),
{
    lemma_scan_with_points(cs);
}

/// How many `(` are open after reading `cs`: each `(` opens one, each `)`
/// closes one.
pub open spec fn depth(cs: Seq<char>) -> int
    decreases cs.len(),
{
    if cs.len() == 0 {
        0
    } else {
        depth(cs.drop_last()) + if cs.last() == '(' {
            1int
        } else if cs.last() == ')' {
            -1int
        } else {
            0int
        }
    }
}

/// No prefix of `cs` closes more parentheses than it opened.
pub open spec fn never_overclosed(cs: Seq<char>) -> bool
    decreases cs.len(),
{
    cs.len() == 0 || (never_overclosed(cs.drop_last()) && depth(cs) >= 0)
}

/// Every `)` closes an earlier `(`, and every `(` is closed.
pub open spec fn balanced(cs: Seq<char>) -> bool {
    never_overclosed(cs) && depth(cs) == 0
}

/// The number of `(` on an operator stack.
pub open spec fn opens(stack: Seq<char>) -> int
    decreases stack.len(),
{
    if stack.len() == 0 {
        0
    } else {
        opens(stack.drop_last()) + if stack.last() == '(' {
            1int
        } else {
            0int
        }
    }
}

proof fn lemma_opens_push(stack: Seq<char>, c: char)
    ensures
        opens(stack.push(c)) == opens(stack) + if c == '(' {
            1int
        } else {
            0int
        },
{
    assert(stack.push(c).drop_last() =~= stack);
}

proof fn lemma_reduce_keeps_opens(stack: Seq<char>, out: Seq<RpnItem>, op: char)
    requires
        is_binary_op(op),
    ensures
        opens(reduce(stack, out, op).0) == opens(stack),
    decreases stack.len(),
{
    if stack.len() > 0 && yields_to(op, stack.last()) {
        assert(stack.last() != '(');
        lemma_reduce_keeps_opens(stack.drop_last(), out.push(RpnItem::Op(stack.last())), op);
    }
}

proof fn lemma_close_paren_step(st: Seq<char>, c: char, out: Seq<RpnItem>, out2: Seq<RpnItem>)
    requires
        c != '(',
        out2 == out.push(RpnItem::Op(c)),
    ensures
        close_paren(st.push(c), out) == close_paren(st, out2),
        out2.len() == out.len() + 1,
{
    assert(st.push(c).drop_last() =~= st);
}

proof fn lemma_drain_step(st: Seq<char>, c: char, out: Seq<RpnItem>, out2: Seq<RpnItem>)
    requires
        c != '(',
        out2 == out.push(RpnItem::Op(c)),
    ensures
        drain_pending(st.push(c), out) == drain_pending(st, out2),
        out2.len() == out.len() + 1,
{
    assert(st.push(c).drop_last() =~= st);
}

proof fn lemma_close_paren_at_open(st: Seq<char>, out: Seq<RpnItem>)
    ensures
        close_paren(st.push('('), out) == Ok::<(Seq<char>, Seq<RpnItem>), ShuntingYardError>((st, out)),
{
    assert(st.push('(').drop_last() =~= st);
}

proof fn lemma_drain_at_open(st: Seq<char>, out: Seq<RpnItem>)
    ensures
        drain_pending(st.push('('), out) == Err::<Seq<RpnItem>, ShuntingYardError>(
            ShuntingYardError::MismatchedParenthesis,
        ),
{
}

proof fn lemma_close_paren_opens(stack: Seq<char>, out: Seq<RpnItem>)
    ensures
        (close_paren(stack, out) is Ok) ==> opens(close_paren(stack, out)->Ok_0.0) + 1 == opens(stack),
        opens(stack) == 0 ==> (close_paren(stack, out) is Err),
    decreases stack.len(),
{
    if stack.len() == 0 {
        assert(stack =~= Seq::<char>::empty());
    } else {
        lemma_opens_nonneg(stack.drop_last());
        let st = stack.drop_last();
        let c = stack.last();
        assert(stack =~= st.push(c));
        lemma_opens_push(st, c);
        if c == '(' {
            lemma_close_paren_at_open(st, out);
        } else {
            let out2 = out.push(RpnItem::Op(c));
            lemma_close_paren_opens(st, out2);
            lemma_close_paren_step(st, c, out, out2);
        }
    }
}

proof fn lemma_opens_nonneg(stack: Seq<char>)
    ensures
        opens(stack) >= 0,
    decreases stack.len(),
{
    if stack.len() > 0 {
        lemma_opens_nonneg(stack.drop_last());
    }
}

proof fn lemma_drain_opens(stack: Seq<char>, out: Seq<RpnItem>)
    ensures
        (drain_pending(stack, out) is Ok) ==> opens(stack) == 0,
    decreases stack.len(),
{
    if stack.len() == 0 {
        assert(stack =~= Seq::<char>::empty());
    } else {
        let st = stack.drop_last();
        let c = stack.last();
        assert(stack =~= st.push(c));
        lemma_opens_push(st, c);
        if c == '(' {
            lemma_drain_at_open(st, out);
        } else {
            let out2 = out.push(RpnItem::Op(c));
            lemma_drain_opens(st, out2);
            lemma_drain_step(st, c, out, out2);
        }
    }
}

proof fn lemma_scan_depth(cs: Seq<char>)
    ensures
        (scan(cs) is Ok) ==> never_overclosed(cs) && opens(scan(cs)->Ok_0.stack) == depth(cs),
    decreases cs.len(),
{
    if cs.len() > 0 {
        let prev = cs.drop_last();
        let c = cs.last();
        lemma_scan_depth(prev);
        if let Ok(s) = scan(prev) {
            if let Ok(t) = flush(s) {
                lemma_opens_push(t.stack, c);
                lemma_opens_nonneg(t.stack);
                lemma_close_paren_opens(t.stack, t.out);
                if is_binary_op(c) {
                    lemma_reduce_keeps_opens(t.stack, t.out, c);
                    lemma_opens_push(reduce(t.stack, t.out, c).0, c);
                }
            }
        }
    }
}

/// A result is never produced from unbalanced parentheses: whenever the
/// conversion succeeds, every `)` closed an earlier `(` and none is left open.
pub proof fn converted_input_is_balanced(cs: Seq<char>)
    ensures
        (rpn_of(cs) is Ok) ==> balanced(cs),
        (solution(cs) is Ok) ==> balanced(cs),
{
    lemma_scan_depth(cs);
    if let Ok(s) = scan(cs) {
        if let Ok(t) = flush(s) {
            lemma_drain_opens(t.stack, t.out);
        }
    }
}

/// The number of binary operators in `cs`.
pub open spec fn operator_count(cs: Seq<char>) -> nat
    decreases cs.len(),
{
    if cs.len() == 0 {
        0
    } else {
        operator_count(cs.drop_last()) + if is_binary_op(cs.last()) {
            1nat
        } else {
            0nat
        }
    }
}

/// Whether the last character of `cs` that is not whitespace belongs to a
/// numeric literal.
pub open spec fn ends_in_literal(cs: Seq<char>) -> bool
    decreases cs.len(),
{
    if cs.len() == 0 {
        false
    } else if is_blank(cs.last()) {
        ends_in_literal(cs.drop_last())
    } else {
        is_literal_char(cs.last())
    }
}

/// The number of numeric literals in `cs`: runs of digits and separators,
/// which whitespace does not break.
pub open spec fn operand_count(cs: Seq<char>) -> nat
    decreases cs.len(),
{
    if cs.len() == 0 {
        0
    } else {
        operand_count(cs.drop_last()) + if is_literal_char(cs.last()) && !ends_in_literal(
            cs.drop_last(),
        ) {
            1nat
        } else {
            0nat
        }
    }
}

proof fn lemma_reduce_moves(stack: Seq<char>, out: Seq<RpnItem>, op: char)
    requires
        is_binary_op(op),
    ensures
        reduce(stack, out, op).0.len() + reduce(stack, out, op).1.len() == stack.len() + out.len(),
    decreases stack.len(),
{
    if stack.len() > 0 && yields_to(op, stack.last()) {
        let out2 = out.push(RpnItem::Op(stack.last()));
        lemma_reduce_moves(stack.drop_last(), out2, op);
    }
}

proof fn lemma_close_paren_moves(stack: Seq<char>, out: Seq<RpnItem>)
    ensures
        (close_paren(stack, out) is Ok) ==> close_paren(stack, out)->Ok_0.0.len() + close_paren(
            stack,
            out,
        )->Ok_0.1.len() + 1 == stack.len() + out.len(),
    decreases stack.len(),
{
    if stack.len() > 0 {
        let st = stack.drop_last();
        let c = stack.last();
        assert(stack =~= st.push(c));
        if c == '(' {
            lemma_close_paren_at_open(st, out);
        } else {
            let out2 = out.push(RpnItem::Op(c));
            lemma_close_paren_moves(st, out2);
            lemma_close_paren_step(st, c, out, out2);
        }
    }
}

proof fn lemma_drain_moves(stack: Seq<char>, out: Seq<RpnItem>)
    ensures
        (drain_pending(stack, out) is Ok) ==> drain_pending(stack, out)->Ok_0.len() == stack.len()
            + out.len(),
    decreases stack.len(),
{
    if stack.len() == 0 {
        assert(stack =~= Seq::<char>::empty());
    } else {
        let st = stack.drop_last();
        let c = stack.last();
        assert(stack =~= st.push(c));
        if c == '(' {
            lemma_drain_at_open(st, out);
        } else {
            let out2 = out.push(RpnItem::Op(c));
            lemma_drain_moves(st, out2);
            lemma_drain_step(st, c, out, out2);

        }
    }
}

/// What a successful scan of `cs` has accounted for: the tokens emitted, the
/// operators still pending and the literal being read make up the literals
/// and operators of `cs`.
pub open spec fn accounted(s: Scan, cs: Seq<char>) -> bool {
    &&& s.out.len() + s.stack.len() - opens(s.stack) + (if s.literal.len() > 0 {
        1int
    } else {
        0int
    }) == operand_count(cs) + operator_count(cs)
    &&& (s.literal.len() > 0) == ends_in_literal(cs)
}

proof fn lemma_scan_counts(cs: Seq<char>)
    ensures
        (scan(cs) is Ok) ==> accounted(scan(cs)->Ok_0, cs),
    decreases cs.len(),
{
    if cs.len() > 0 {
        let prev = cs.drop_last();
        let c = cs.last();
        lemma_scan_counts(prev);
        if let Ok(s) = scan(prev) {
            if let Ok(t) = flush(s) {
                lemma_opens_push(t.stack, c);
                lemma_close_paren_opens(t.stack, t.out);
                lemma_close_paren_moves(t.stack, t.out);
                if is_binary_op(c) {
                    lemma_reduce_keeps_opens(t.stack, t.out, c);
                    lemma_reduce_moves(t.stack, t.out, c);
                    lemma_opens_push(reduce(t.stack, t.out, c).0, c);
                }
            }
        }
    }
}

/// One token per literal and per operator: a successful conversion emits
/// exactly the numeric literals and the binary operators of the input, and
/// no parenthesis.
pub proof fn token_count_is_operands_plus_operators(cs: Seq<char>)
    ensures
        (rpn_of(cs) is Ok) ==> rpn_of(cs)->Ok_0.len() == operand_count(cs) + operator_count(cs),
{
    lemma_scan_counts(cs);
    if let Ok(s) = scan(cs) {
        if let Ok(t) = flush(s) {
            lemma_drain_opens(t.stack, t.out);
            lemma_drain_moves(t.stack, t.out);
        }
    }
}

/// Whether the last character of `cs` that is not whitespace ends an operand:
/// a literal or a `)`.
pub open spec fn after_operand(cs: Seq<char>) -> bool
    decreases cs.len(),
{
    if cs.len() == 0 {
        false
    } else if is_blank(cs.last()) {
        after_operand(cs.drop_last())
    } else {
        is_literal_char(cs.last()) || cs.last() == ')'
    }
}

/// Whether `c` may follow `prev` in an infix expression: whitespace anywhere;
/// a literal where an operand is due or to go on with a literal; `(` where an
/// operand is due; `)` and binary operators after an operand.
pub open spec fn may_follow(prev: Seq<char>, c: char) -> bool {
    ||| is_blank(c)
    ||| is_literal_char(c) && (!after_operand(prev) || ends_in_literal(prev))
    ||| c == '(' && !after_operand(prev)
    ||| (c == ')' || is_binary_op(c)) && after_operand(prev)
}

/// Every character of `cs` may follow the ones before it.
pub open spec fn well_formed_prefix(cs: Seq<char>) -> bool
    decreases cs.len(),
{
    cs.len() == 0 || (well_formed_prefix(cs.drop_last()) && may_follow(cs.drop_last(), cs.last()))
}

/// An infix expression: operands and binary operators alternate, it ends with
/// an operand, and its parentheses are balanced.
pub open spec fn well_formed(cs: Seq<char>) -> bool {
    well_formed_prefix(cs) && after_operand(cs) && balanced(cs)
}

proof fn lemma_run_push(items: Seq<RpnItem>, x: RpnItem)
    ensures
        run(items.push(x)) == match run(items) {
            Err(e) => Err(e),
            Ok(values) => apply_item(values, x),
        },
{
    assert(items.push(x).drop_last() =~= items);
}

proof fn lemma_opens_at_most_len(stack: Seq<char>)
    ensures
        0 <= opens(stack) <= stack.len(),
    decreases stack.len(),
{
    if stack.len() > 0 {
        lemma_opens_at_most_len(stack.drop_last());
    }
}

/// The number of values that `out` leaves on the evaluation stack.
pub open spec fn height(out: Seq<RpnItem>) -> int {
    run(out)->Ok_0.len() as int
}

/// The operators pending on `stack`.
pub open spec fn pending(stack: Seq<char>) -> int {
    stack.len() - opens(stack)
}

proof fn lemma_emit_op(out: Seq<RpnItem>, c: char, out2: Seq<RpnItem>)
    requires
        run(out) is Ok,
        height(out) >= 2,
        is_binary_op(c),
        out2 == out.push(RpnItem::Op(c)),
    ensures
        run(out2) is Ok,
        height(out2) == height(out) - 1,
{
    lemma_run_push(out, RpnItem::Op(c));
}

proof fn lemma_reduce_evaluates(stack: Seq<char>, out: Seq<RpnItem>, op: char)
    requires
        is_binary_op(op),
        stack_ok(stack),
        run(out) is Ok,
        height(out) == pending(stack) + 1,
    ensures
        stack_ok(reduce(stack, out, op).0),
        run(reduce(stack, out, op).1) is Ok,
        height(reduce(stack, out, op).1) == pending(reduce(stack, out, op).0) + 1,
    decreases stack.len(),
{
    if stack.len() > 0 && yields_to(op, stack.last()) {
        let st = stack.drop_last();
        let c = stack.last();
        assert(stack =~= st.push(c));
        assert(c == '(' || is_binary_op(c));
        assert(c != '(');
        lemma_opens_push(st, c);
        lemma_opens_at_most_len(st);
        let out2 = out.push(RpnItem::Op(c));
        lemma_emit_op(out, c, out2);
        assert(stack_ok(st)) by {
            assert forall|i: int| 0 <= i < st.len() implies st[i] == '(' || is_binary_op(
                #[trigger] st[i],
            ) by {
                assert(st[i] == stack[i]);
            }
        }
        lemma_reduce_evaluates(st, out2, op);
    }
}

proof fn lemma_close_paren_evaluates(stack: Seq<char>, out: Seq<RpnItem>)
    requires
        stack_ok(stack),
        run(out) is Ok,
        height(out) == pending(stack) + 1,
    ensures
        (close_paren(stack, out) is Ok) ==> {
            let p = close_paren(stack, out)->Ok_0;
            stack_ok(p.0) && run(p.1) is Ok && height(p.1) == pending(p.0) + 1
        },
    decreases stack.len(),
{
    if stack.len() > 0 {
        let st = stack.drop_last();
        let c = stack.last();
        assert(stack =~= st.push(c));
        lemma_opens_push(st, c);
        lemma_opens_at_most_len(st);
        assert(stack_ok(st)) by {
            assert forall|i: int| 0 <= i < st.len() implies st[i] == '(' || is_binary_op(
                #[trigger] st[i],
            ) by {
                assert(st[i] == stack[i]);
            }
        }
        if c == '(' {
            lemma_close_paren_at_open(st, out);
        } else {
            assert(is_binary_op(c));
            let out2 = out.push(RpnItem::Op(c));
            lemma_emit_op(out, c, out2);
            lemma_close_paren_evaluates(st, out2);
            lemma_close_paren_step(st, c, out, out2);
        }
    }
}

proof fn lemma_drain_evaluates(stack: Seq<char>, out: Seq<RpnItem>)
    requires
        stack_ok(stack),
        run(out) is Ok,
        height(out) == pending(stack) + 1,
    ensures
        (drain_pending(stack, out) is Ok) ==> {
            let o = drain_pending(stack, out)->Ok_0;
            run(o) is Ok && height(o) == 1
        },
    decreases stack.len(),
{
    if stack.len() == 0 {
        assert(stack =~= Seq::<char>::empty());
    } else {
        let st = stack.drop_last();
        let c = stack.last();
        assert(stack =~= st.push(c));
        lemma_opens_push(st, c);
        lemma_opens_at_most_len(st);
        assert(stack_ok(st)) by {
            assert forall|i: int| 0 <= i < st.len() implies st[i] == '(' || is_binary_op(
                #[trigger] st[i],
            ) by {
                assert(st[i] == stack[i]);
            }
        }
        if c == '(' {
            lemma_drain_at_open(st, out);
        } else {
            assert(is_binary_op(c));
            let out2 = out.push(RpnItem::Op(c));
            lemma_emit_op(out, c, out2);
            lemma_drain_evaluates(st, out2);
            lemma_drain_step(st, c, out, out2);
        }
    }
}

proof fn lemma_literal_ends_operand(cs: Seq<char>)
    ensures
        ends_in_literal(cs) ==> after_operand(cs),
    decreases cs.len(),
{
    if cs.len() > 0 {
        lemma_literal_ends_operand(cs.drop_last());
    }
}

/// What holds after a well-formed prefix `cs`: the values that the output
/// leaves, with the literal being read, match the pending operators, plus one
/// once an operand has been read.
pub open spec fn evaluable(s: Scan, cs: Seq<char>) -> bool {
    &&& stack_ok(s.stack)
    &&& run(s.out) is Ok
    &&& height(s.out) + (if s.literal.len() > 0 {
        1int
    } else {
        0int
    }) == pending(s.stack) + if after_operand(cs) {
        1int
    } else {
        0int
    }
    &&& (s.literal.len() > 0) == ends_in_literal(cs)
}

proof fn lemma_flush_evaluates(s: Scan)
    requires
        run(s.out) is Ok,
    ensures
        (flush(s) is Ok) ==> {
            let t = flush(s)->Ok_0;
            &&& t.stack == s.stack
            &&& t.literal.len() == 0
            &&& run(t.out) is Ok
            &&& height(t.out) == height(s.out) + if s.literal.len() > 0 {
                1int
            } else {
                0int
            }
        },
{
    lemma_run_push(s.out, RpnItem::Number(s.literal));
}

proof fn lemma_push_keeps_stack_ok(stack: Seq<char>, c: char)
    requires
        stack_ok(stack),
        c == '(' || is_binary_op(c),
    ensures
        stack_ok(stack.push(c)),
{
    assert forall|i: int| 0 <= i < stack.push(c).len() implies stack.push(c)[i] == '('
        || is_binary_op(#[trigger] stack.push(c)[i]) by {
        if i < stack.len() {
            assert(stack.push(c)[i] == stack[i]);
        }
    }
}

proof fn lemma_scan_evaluates(cs: Seq<char>)
    ensures
        (scan(cs) is Ok && well_formed_prefix(cs)) ==> evaluable(scan(cs)->Ok_0, cs),
    decreases cs.len(),
{
    if cs.len() == 0 {
        assert(run(Seq::<RpnItem>::empty()) == Ok::<Seq<Term>, ShuntingYardError>(seq![]));
        assert(opens(Seq::<char>::empty()) == 0);
    } else {
        let prev = cs.drop_last();
        let c = cs.last();
        lemma_scan_evaluates(prev);
        lemma_literal_ends_operand(prev);
        if let Ok(s) = scan(prev) {
            if well_formed_prefix(cs) {
                assert(evaluable(s, prev));
                lemma_flush_evaluates(s);
                if let Ok(t) = flush(s) {
                    if c == '(' {
                        lemma_opens_push(t.stack, c);
                        lemma_push_keeps_stack_ok(t.stack, c);
                    } else if c == ')' {
                        lemma_close_paren_evaluates(t.stack, t.out);
                    } else if is_binary_op(c) {
                        lemma_reduce_evaluates(t.stack, t.out, c);
                        let r = reduce(t.stack, t.out, c);
                        lemma_opens_push(r.0, c);
                        lemma_push_keeps_stack_ok(r.0, c);
                    }
                }
            }
        }
    }
}

/// Evaluation never underflows on a well-formed expression: whenever such an
/// expression converts, its postfix form evaluates to a single tree, and
/// solving it succeeds.
pub proof fn well_formed_input_evaluates(cs: Seq<char>)
    ensures
        (well_formed(cs) && rpn_of(cs) is Ok) ==> evaluation(rpn_of(cs)->Ok_0) is Ok,
        (well_formed(cs) && rpn_of(cs) is Ok) ==> solution(cs) is Ok,
{
    lemma_scan_evaluates(cs);
    lemma_literal_ends_operand(cs);
    if let Ok(s) = scan(cs) {
        if well_formed(cs) {
            lemma_flush_evaluates(s);
            if let Ok(t) = flush(s) {
                lemma_drain_evaluates(t.stack, t.out);
            }
        }
    }
}

} // verus!
