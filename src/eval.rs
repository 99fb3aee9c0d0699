use vstd::prelude::*;
use crate::error::CalcError;
use crate::num::{Num, Op, apply_spec};
use crate::token::Token;

verus! {

/// Binding strength: `+ -` bind less tightly than `* / %`.
pub open spec fn prec(op: Op) -> u8 {
    match op {
        Op::Add | Op::Sub => 1,
        _ => 2,
    }
}

/// Moves the operators on top of the stack whose precedence is at least `p`
/// to the output, stopping at a parenthesis.
pub open spec fn pop_ge(out: Seq<Token>, st: Seq<Token>, p: u8) -> (Seq<Token>, Seq<Token>)
    decreases st.len(),
{
    if st.len() > 0 && st.last() is Operator && prec(st.last()->Operator_0) >= p {
        pop_ge(out.push(st.last()), st.drop_last(), p)
    } else {
        (out, st)
    }
}

/// Moves operators to the output down to the nearest `(`, which is dropped.
pub open spec fn pop_to_paren(out: Seq<Token>, st: Seq<Token>) -> (Seq<Token>, Seq<Token>)
    decreases st.len(),
{
    if st.len() == 0 {
        (out, st)
    } else if st.last() is LeftParen {
        (out, st.drop_last())
    } else {
        pop_to_paren(out.push(st.last()), st.drop_last())
    }
}

/// Moves every operator left on the stack to the output, in pop order;
/// unmatched `(` are dropped.
pub open spec fn pop_rest(out: Seq<Token>, st: Seq<Token>) -> Seq<Token>
    decreases st.len(),
{
    if st.len() == 0 {
        out
    } else if st.last() is LeftParen {
        pop_rest(out, st.drop_last())
    } else {
        pop_rest(out.push(st.last()), st.drop_last())
    }
}

/// One token of the shunting-yard transform on (output, operator stack).
pub open spec fn shunt_step(state: (Seq<Token>, Seq<Token>), t: Token) -> (Seq<Token>, Seq<Token>) {
    let (out, st) = state;
    match t {
        Token::Number(_) => (out.push(t), st),
        Token::Operator(o) => {
            let (o2, s2) = pop_ge(out, st, prec(o));
            (o2, s2.push(t))
        },
        Token::LeftParen => (out, st.push(t)),
        Token::RightParen => pop_to_paren(out, st),
    }
}

/// The shunting-yard state after all of `ts`.
pub open spec fn shunt(ts: Seq<Token>) -> (Seq<Token>, Seq<Token>)
    decreases ts.len(),
{
    if ts.len() == 0 {
        (seq![], seq![])
    } else {
        shunt_step(shunt(ts.drop_last()), ts.last())
    }
}

/// The postfix form of an infix token sequence.
pub open spec fn to_postfix_spec(ts: Seq<Token>) -> Seq<Token> {
    pop_rest(shunt(ts).0, shunt(ts).1)
}

/// One token of postfix reduction on a stack of values: a number is pushed,
/// an operator replaces the top two values `a`, `b` by `a op b`.
pub open spec fn reduce_step(st: Result<Seq<Num>, CalcError>, t: Token) -> Result<Seq<Num>, CalcError> {
    match st {
        Err(e) => Err(e),
        Ok(s) => match t {
            Token::Number(q) => if q.wf() {
                Ok(s.push(q))
            } else {
                Err(CalcError::InvalidNumber)
            },
            Token::Operator(o) => if s.len() < 2 {
                Err(CalcError::InvalidExpression)
            } else {
                match apply_spec(o, s[s.len() - 2], s[s.len() - 1]) {
                    Ok(v) => Ok(s.drop_last().drop_last().push(v)),
                    Err(e) => Err(e),
                }
            },
            _ => Err(CalcError::InvalidExpression),
        },
    }
}

/// The value stack after reducing all of `ts`.
pub open spec fn reduce(ts: Seq<Token>) -> Result<Seq<Num>, CalcError>
    decreases ts.len(),
{
    if ts.len() == 0 {
        Ok(seq![])
    } else {
        reduce_step(reduce(ts.drop_last()), ts.last())
    }
}

/// The value of a postfix sequence: exactly one value must remain.
pub open spec fn evaluate_postfix_spec(ts: Seq<Token>) -> Result<Num, CalcError> {
    match reduce(ts) {
        Ok(s) => if s.len() == 1 {
            Ok(s[0])
        } else {
            Err(CalcError::InvalidExpression)
        },
        Err(e) => Err(e),
    }
}

/// The value of an infix token sequence.
pub open spec fn evaluate_spec(ts: Seq<Token>) -> Result<Num, CalcError> {
    evaluate_postfix_spec(to_postfix_spec(ts))
}

/// Only operators and `(` are ever on the operator stack.
pub open spec fn stack_ok(st: Seq<Token>) -> bool {
    forall|i: int| 0 <= i < st.len() ==> (#[trigger] st[i] is Operator || st[i] is LeftParen)
}

/// The binding strength of an operator.
pub fn precedence(op: Op) -> (r: u8)
    ensures
        r == prec(op),
{
    match op {
        Op::Add | Op::Sub => 1,
        _ => 2,
    }
}

/// Rewrites infix tokens in postfix order by the shunting-yard method.
/// Operators of equal precedence leave left to right; unmatched parentheses
/// are dropped.
pub fn to_postfix(tokens: Vec<Token>) -> (r: Vec<Token>)
    ensures
        r@ == to_postfix_spec(tokens@),
{
    let mut output: Vec<Token> = Vec::new();
    let mut operators: Vec<Token> = Vec::new();
    let mut i: usize = 0;
    proof {
        assert(tokens@.take(0) =~= Seq::<Token>::empty());
    }
    while i < tokens.len()
        invariant
            i <= tokens@.len(),
            shunt(tokens@.take(i as int)) == (output@, operators@),
            stack_ok(operators@),
        decreases tokens@.len() - i,
    {
        let token = tokens[i];
        proof {
            assert(tokens@.take(i + 1).drop_last() =~= tokens@.take(i as int));
            assert(tokens@.take(i + 1).last() == token);
        }
        match token {
            Token::Number(_) => output.push(token),
            Token::Operator(op) => {
                let p = precedence(op);
                let ghost target = pop_ge(output@, operators@, p);
                loop
                    invariant
                        pop_ge(output@, operators@, p) == target,
                        stack_ok(operators@),
                    ensures
                        (output@, operators@) == target,
                        stack_ok(operators@),
                    decreases operators@.len(),
                {
                    let n = operators.len();
                    if n == 0 {
                        break;
                    }
                    let top = operators[n - 1];
                    match top {
                        Token::Operator(t) => {
                            if precedence(t) >= p {
                                operators.pop();
                                output.push(top);
                            } else {
                                break;
                            }
                        },
                        _ => break,
                    }
                }
                operators.push(token);
            },
            Token::LeftParen => operators.push(token),
            Token::RightParen => {
                let ghost target = pop_to_paren(output@, operators@);
                loop
                    invariant_except_break
                        pop_to_paren(output@, operators@) == target,
                    invariant
                        stack_ok(operators@),
                    ensures
                        (output@, operators@) == target,
                        stack_ok(operators@),
                    decreases operators@.len(),
                {
                    match operators.pop() {
                        None => break,
                        Some(t) => {
                            if t == Token::LeftParen {
                                break;
                            }
                            output.push(t);
                        },
                    }
                }
            },
        }
        i = i + 1;
    }
    proof {
        assert(tokens@.take(i as int) =~= tokens@);
    }
    let ghost target = pop_rest(output@, operators@);
    loop
        invariant
            pop_rest(output@, operators@) == target,
        ensures
            output@ == target,
        decreases operators@.len(),
    {
        match operators.pop() {
            None => break,
            Some(t) => {
                if t != Token::LeftParen {
                    output.push(t);
                }
            },
        }
    }
    output
}

/// Reduces a postfix sequence on a stack of values. A number is pushed; an
/// operator pops `b`, then `a`, and pushes `a op b`. Fails with
/// `InvalidExpression` on an operator with fewer than two values, on a
/// parenthesis, or when other than one value is left at the end.
pub fn evaluate_postfix(tokens: Vec<Token>) -> (r: Result<Num, CalcError>)
    ensures
        r == evaluate_postfix_spec(tokens@),
        r matches Ok(v) ==> v.wf(),
{
    let mut stack: Vec<Num> = Vec::new();
    let mut i: usize = 0;
    proof {
        assert(tokens@.take(0) =~= Seq::<Token>::empty());
    }
    while i < tokens.len()
        invariant
            i <= tokens@.len(),
            reduce(tokens@.take(i as int)) == Ok::<Seq<Num>, CalcError>(stack@),
            forall|k: int| 0 <= k < stack@.len() ==> (#[trigger] stack@[k]).wf(),
        decreases tokens@.len() - i,
    {
        let token = tokens[i];
        proof {
            assert(tokens@.take(i + 1).drop_last() =~= tokens@.take(i as int));
            assert(tokens@.take(i + 1).last() == token);
        }
        match token {
            Token::Number(q) => {
                if !q.is_valid() {
                    proof {
                        lemma_reduce_err_persists(tokens@, i + 1, CalcError::InvalidNumber);
                    }
                    return Err(CalcError::InvalidNumber);
                }
                stack.push(q);
            },
            Token::Operator(op) => {
                if stack.len() < 2 {
                    proof {
                        lemma_reduce_err_persists(tokens@, i + 1, CalcError::InvalidExpression);
                    }
                    return Err(CalcError::InvalidExpression);
                }
                let ghost s0 = stack@;
                let b = stack.pop().unwrap();
                let a = stack.pop().unwrap();
                proof {
                    assert(a == s0[s0.len() - 2]);
                    assert(b == s0[s0.len() - 1]);
                    assert(stack@ =~= s0.drop_last().drop_last());
                }
                match Num::apply(op, a, b) {
                    Ok(v) => stack.push(v),
                    Err(e) => {
                        proof {
                            lemma_reduce_err_persists(tokens@, i + 1, e);
                        }
                        return Err(e);
                    },
                }
            },
            _ => {
                proof {
                    lemma_reduce_err_persists(tokens@, i + 1, CalcError::InvalidExpression);
                }
                return Err(CalcError::InvalidExpression);
            },
        }
        i = i + 1;
    }
    proof {
        assert(tokens@.take(i as int) =~= tokens@);
    }
    if stack.len() == 1 {
        Ok(stack[0])
    } else {
        Err(CalcError::InvalidExpression)
    }
}

/// Once reduction fails on a prefix, it fails the same way on the whole sequence.
proof fn lemma_reduce_err_persists(ts: Seq<Token>, k: int, e: CalcError)
    requires
        0 <= k <= ts.len(),
        reduce(ts.take(k)) == Err::<Seq<Num>, CalcError>(e),
    ensures
        reduce(ts) == Err::<Seq<Num>, CalcError>(e),
        evaluate_postfix_spec(ts) == Err::<Num, CalcError>(e),
    decreases ts.len(),
{
    if k == ts.len() {
        assert(ts.take(k) =~= ts);
    } else {
        let p = ts.drop_last();
        assert(p.take(k) =~= ts.take(k));
        lemma_reduce_err_persists(p, k, e);
    }
}

/// Evaluates infix tokens with the usual precedence, `* / %` before `+ -`,
/// left to right within a tier.
pub fn evaluate(tokens: Vec<Token>) -> (r: Result<Num, CalcError>)
    ensures
        r == evaluate_spec(tokens@),
        r matches Ok(v) ==> v.wf(),
{
    let postfix = to_postfix(tokens);
    evaluate_postfix(postfix)
}

} // verus!
