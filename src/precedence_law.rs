use vstd::prelude::*;
use crate::error::CalcError;
use crate::num::{Num, Op, apply_spec};
use crate::token::Token;
use crate::eval::{
    prec, pop_ge, pop_rest, shunt, shunt_step, reduce, reduce_step, evaluate_spec,
    evaluate_postfix_spec,
};

verus! {

/// A flat infix sequence: well-formed numbers at even positions, operators
/// between them, no parentheses.
pub open spec fn is_flat(ts: Seq<Token>) -> bool {
    &&& ts.len() % 2 == 1
    &&& forall|i: int| 0 <= i < ts.len() && i % 2 == 0 ==> (#[trigger] ts[i] is Number && ts[i]->Number_0.wf())
    &&& forall|i: int| 0 <= i < ts.len() && i % 2 == 1 ==> #[trigger] ts[i] is Operator
}

/// Folds a finished term into the running sum, if there is one.
pub open spec fn combine(acc: Option<(Num, Op)>, term: Num) -> Result<Num, CalcError> {
    match acc {
        None => Ok(term),
        Some((a, lo)) => apply_spec(lo, a, term),
    }
}

/// Reads a flat sequence left to right, keeping the running sum with its
/// pending `+` or `-`, and the term being built. A `* / %` is applied at once
/// to the term; a `+ -` first folds the term into the sum and starts a new term.
pub open spec fn fold_flat(ts: Seq<Token>) -> Result<(Option<(Num, Op)>, Num), CalcError>
    decreases ts.len(),
{
    if ts.len() <= 1 {
        Ok((None, ts[0]->Number_0))
    } else {
        let op = ts[ts.len() - 2]->Operator_0;
        let n = ts[ts.len() - 1]->Number_0;
        match fold_flat(ts.take(ts.len() - 2)) {
            Err(e) => Err(e),
            Ok((acc, term)) => if prec(op) == 2 {
                match apply_spec(op, term, n) {
                    Ok(t) => Ok((acc, t)),
                    Err(e) => Err(e),
                }
            } else {
                match combine(acc, term) {
                    Ok(c) => Ok((Some((c, op)), n)),
                    Err(e) => Err(e),
                }
            },
        }
    }
}

/// The value of a flat sequence by the usual precedence: `* / %` before
/// `+ -`, left to right within a tier, applied in reading order.
pub open spec fn precedence_value(ts: Seq<Token>) -> Result<Num, CalcError> {
    match fold_flat(ts) {
        Ok((acc, term)) => combine(acc, term),
        Err(e) => Err(e),
    }
}

/// How the shunting-yard state after the operator `op` stands to the fold of
/// what precedes that operator.
pub open spec fn agrees(
    out: Seq<Token>,
    st: Seq<Token>,
    f: Result<(Option<(Num, Op)>, Num), CalcError>,
    op: Op,
) -> bool {
    match f {
        Err(e) => reduce(out) == Err::<Seq<Num>, CalcError>(e),
        Ok((acc, term)) => {
            &&& (acc matches Some((_, lo)) ==> prec(lo) == 1)
            &&& if prec(op) == 1 {
                match combine(acc, term) {
                    Err(e) => reduce(out) == Err::<Seq<Num>, CalcError>(e),
                    Ok(c) => reduce(out) == Ok::<Seq<Num>, CalcError>(seq![c]) && st == seq![Token::Operator(op)],
                }
            } else {
                match acc {
                    None => reduce(out) == Ok::<Seq<Num>, CalcError>(seq![term]) && st == seq![Token::Operator(op)],
                    Some((a, lo)) => reduce(out) == Ok::<Seq<Num>, CalcError>(seq![a, term])
                        && st == seq![Token::Operator(lo), Token::Operator(op)],
                }
            }
        },
    }
}

proof fn lemma_reduce_push(out: Seq<Token>, t: Token)
    ensures
        reduce(out.push(t)) == reduce_step(reduce(out), t),
{
    assert(out.push(t).drop_last() =~= out);
}

proof fn lemma_shunt_push(ts: Seq<Token>, i: int)
    requires
        0 <= i < ts.len(),
    ensures
        shunt(ts.take(i + 1)) == shunt_step(shunt(ts.take(i)), ts[i]),
{
    assert(ts.take(i + 1).drop_last() =~= ts.take(i));
}

proof fn lemma_fold_take(ts: Seq<Token>, k: int)
    requires
        is_flat(ts),
        1 <= k,
        2 * k + 1 <= ts.len(),
    ensures
        fold_flat(ts.take(2 * k + 1)) == ({
            let op = ts[2 * k - 1]->Operator_0;
            let n = ts[2 * k]->Number_0;
            match fold_flat(ts.take(2 * k - 1)) {
                Err(e) => Err(e),
                Ok((acc, term)) => if prec(op) == 2 {
                    match apply_spec(op, term, n) {
                        Ok(t) => Ok((acc, t)),
                        Err(e) => Err(e),
                    }
                } else {
                    match combine(acc, term) {
                        Ok(c) => Ok((Some((c, op)), n)),
                        Err(e) => Err(e),
                    }
                },
            }
        }),
{
    assert(ts.take(2 * k + 1).take(2 * k - 1) =~= ts.take(2 * k - 1));
}

/// An error in the reduction stays as operators are moved to the output.
proof fn lemma_err_pop_ge(out: Seq<Token>, st: Seq<Token>, p: u8, e: CalcError)
    requires
        reduce(out) == Err::<Seq<Num>, CalcError>(e),
    ensures
        reduce(pop_ge(out, st, p).0) == Err::<Seq<Num>, CalcError>(e),
    decreases st.len(),
{
    if st.len() > 0 && st.last() is Operator && prec(st.last()->Operator_0) >= p {
        lemma_reduce_push(out, st.last());
        lemma_err_pop_ge(out.push(st.last()), st.drop_last(), p, e);
    }
}

proof fn lemma_err_pop_rest(out: Seq<Token>, st: Seq<Token>, e: CalcError)
    requires
        reduce(out) == Err::<Seq<Num>, CalcError>(e),
    ensures
        reduce(pop_rest(out, st)) == Err::<Seq<Num>, CalcError>(e),
    decreases st.len(),
{
    if st.len() > 0 {
        if st.last() is LeftParen {
            lemma_err_pop_rest(out, st.drop_last(), e);
        } else {
            lemma_reduce_push(out, st.last());
            lemma_err_pop_rest(out.push(st.last()), st.drop_last(), e);
        }
    }
}

/// The fold after one more operator and number.
pub open spec fn fold_next(
    f: Result<(Option<(Num, Op)>, Num), CalcError>,
    op: Op,
    n: Num,
) -> Result<(Option<(Num, Op)>, Num), CalcError> {
    match f {
        Err(e) => Err(e),
        Ok((acc, term)) => if prec(op) == 2 {
            match apply_spec(op, term, n) {
                Ok(t) => Ok((acc, t)),
                Err(e) => Err(e),
            }
        } else {
            match combine(acc, term) {
                Ok(c) => Ok((Some((c, op)), n)),
                Err(e) => Err(e),
            }
        },
    }
}

/// The shunting-yard state after one more number and operator.
pub open spec fn shunt_next(out: Seq<Token>, st: Seq<Token>, n: Num, o: Op) -> (Seq<Token>, Seq<Token>) {
    shunt_step(shunt_step((out, st), Token::Number(n)), Token::Operator(o))
}

proof fn lemma_one_op(out: Seq<Token>, a: Num, b: Num, op: Op)
    requires
        reduce(out) == Ok::<Seq<Num>, CalcError>(seq![a, b]),
    ensures
        reduce(out.push(Token::Operator(op))) == match apply_spec(op, a, b) {
            Ok(v) => Ok::<Seq<Num>, CalcError>(seq![v]),
            Err(e) => Err(e),
        },
{
    lemma_reduce_push(out, Token::Operator(op));
    match apply_spec(op, a, b) {
        Ok(v) => {
            assert(seq![a, b].drop_last().drop_last().push(v) =~= seq![v]);
        },
        Err(e) => {},
    }
}

proof fn lemma_one_op3(out: Seq<Token>, a: Num, b: Num, c: Num, op: Op)
    requires
        reduce(out) == Ok::<Seq<Num>, CalcError>(seq![a, b, c]),
    ensures
        reduce(out.push(Token::Operator(op))) == match apply_spec(op, b, c) {
            Ok(v) => Ok::<Seq<Num>, CalcError>(seq![a, v]),
            Err(e) => Err(e),
        },
{
    lemma_reduce_push(out, Token::Operator(op));
    match apply_spec(op, b, c) {
        Ok(v) => {
            assert(seq![a, b, c].drop_last().drop_last().push(v) =~= seq![a, v]);
        },
        Err(e) => {},
    }
}

proof fn lemma_push_number(out: Seq<Token>, vals: Seq<Num>, q: Num)
    requires
        reduce(out) == Ok::<Seq<Num>, CalcError>(vals),
        q.wf(),
    ensures
        reduce(out.push(Token::Number(q))) == Ok::<Seq<Num>, CalcError>(vals.push(q)),
{
    lemma_reduce_push(out, Token::Number(q));
}

/// The step after a `+` or `-`.
#[verifier::spinoff_prover]
proof fn lemma_step_low(out: Seq<Token>, st: Seq<Token>, acc: Option<(Num, Op)>, term: Num, op: Op, q: Num, o1: Op)
    requires
        prec(op) == 1,
        q.wf(),
        agrees(out, st, Ok((acc, term)), op),
    ensures
        agrees(shunt_next(out, st, q, o1).0, shunt_next(out, st, q, o1).1,
            fold_next(Ok((acc, term)), op, q), o1),
{
    reveal_with_fuel(pop_ge, 3);
    let n = Token::Number(q);
    let out1 = out.push(n);
    let p = prec(o1);
    match combine(acc, term) {
        Err(e) => {
            lemma_reduce_push(out, n);
            lemma_err_pop_ge(out1, st, p, e);
        },
        Ok(c) => {
            lemma_push_number(out, seq![c], q);
            assert(seq![c].push(q) =~= seq![c, q]);
            if p == 1 {
                lemma_one_op(out1, c, q, op);
                assert(st.drop_last() =~= Seq::<Token>::empty());
                assert(Seq::<Token>::empty().push(Token::Operator(o1)) =~= seq![Token::Operator(o1)]);
                let out2 = out1.push(Token::Operator(op));
                match apply_spec(op, c, q) {
                    Ok(v) => {},
                    Err(e) => {
                        lemma_err_pop_ge(out2, Seq::<Token>::empty(), p, e);
                    },
                }
            } else {
                assert(st.push(Token::Operator(o1)) =~= seq![Token::Operator(op), Token::Operator(o1)]);
            }
        },
    }
}

/// The step after a `*`, `/` or `%`.
#[verifier::spinoff_prover]
proof fn lemma_step_high(out: Seq<Token>, st: Seq<Token>, acc: Option<(Num, Op)>, term: Num, op: Op, q: Num, o1: Op)
    requires
        prec(op) == 2,
        q.wf(),
        agrees(out, st, Ok((acc, term)), op),
    ensures
        agrees(shunt_next(out, st, q, o1).0, shunt_next(out, st, q, o1).1,
            fold_next(Ok((acc, term)), op, q), o1),
{
    reveal_with_fuel(pop_ge, 3);
    let n = Token::Number(q);
    let out1 = out.push(n);
    let out2 = out1.push(Token::Operator(op));
    let p = prec(o1);
    let st1 = st.drop_last();
    match acc {
        None => {
            lemma_push_number(out, seq![term], q);
            assert(seq![term].push(q) =~= seq![term, q]);
            lemma_one_op(out1, term, q, op);
            assert(st1 =~= Seq::<Token>::empty());
            assert(Seq::<Token>::empty().push(Token::Operator(o1)) =~= seq![Token::Operator(o1)]);
            match apply_spec(op, term, q) {
                Ok(t) => {},
                Err(e) => {
                    lemma_err_pop_ge(out2, st1, p, e);
                },
            }
        },
        Some((a, lo)) => {
            lemma_push_number(out, seq![a, term], q);
            assert(seq![a, term].push(q) =~= seq![a, term, q]);
            lemma_one_op3(out1, a, term, q, op);
            assert(st1 =~= seq![Token::Operator(lo)]);
            match apply_spec(op, term, q) {
                Err(e) => {
                    lemma_err_pop_ge(out2, st1, p, e);
                },
                Ok(t) => {
                    if p == 1 {
                        lemma_one_op(out2, a, t, lo);
                        assert(st1.drop_last() =~= Seq::<Token>::empty());
                        assert(Seq::<Token>::empty().push(Token::Operator(o1)) =~= seq![Token::Operator(o1)]);
                        let out3 = out2.push(Token::Operator(lo));
                        match apply_spec(lo, a, t) {
                            Ok(v) => {},
                            Err(e) => {
                                lemma_err_pop_ge(out3, Seq::<Token>::empty(), p, e);
                            },
                        }
                    } else {
                        assert(st1.push(Token::Operator(o1)) =~= seq![Token::Operator(lo), Token::Operator(o1)]);
                    }
                },
            }
        },
    }
}

proof fn lemma_step(out: Seq<Token>, st: Seq<Token>, f: Result<(Option<(Num, Op)>, Num), CalcError>, op: Op, q: Num, o1: Op)
    requires
        q.wf(),
        agrees(out, st, f, op),
    ensures
        agrees(shunt_next(out, st, q, o1).0, shunt_next(out, st, q, o1).1, fold_next(f, op, q), o1),
{
    match f {
        Err(e) => {
            lemma_reduce_push(out, Token::Number(q));
            lemma_err_pop_ge(out.push(Token::Number(q)), st, prec(o1), e);
        },
        Ok((acc, term)) => {
            if prec(op) == 1 {
                lemma_step_low(out, st, acc, term, op, q, o1);
            } else {
                lemma_step_high(out, st, acc, term, op, q, o1);
            }
        },
    }
}

proof fn lemma_agrees(ts: Seq<Token>, k: int)
    requires
        is_flat(ts),
        1 <= k,
        2 * k < ts.len(),
    ensures
        agrees(shunt(ts.take(2 * k)).0, shunt(ts.take(2 * k)).1, fold_flat(ts.take(2 * k - 1)),
            ts[2 * k - 1]->Operator_0),
    decreases k,
{
    let o1 = ts[2 * k - 1]->Operator_0;
    assert(ts[2 * k - 1] is Operator);
    assert(ts[2 * k - 2] is Number && ts[2 * k - 2]->Number_0.wf());
    let q = ts[2 * k - 2]->Number_0;
    lemma_shunt_push(ts, 2 * k - 2);
    lemma_shunt_push(ts, 2 * k - 1);
    if k == 1 {
        assert(ts.take(0) =~= Seq::<Token>::empty());
        let e = Seq::<Token>::empty();
        lemma_push_number(e, Seq::<Num>::empty(), q);
        assert(e.push(Token::Number(q)) =~= seq![Token::Number(q)]);
        assert(Seq::<Num>::empty().push(q) =~= seq![q]);
        assert(ts.take(1).len() == 1 && ts.take(1)[0] == ts[0]);
        assert(Seq::<Token>::empty().push(Token::Operator(o1)) =~= seq![Token::Operator(o1)]);
    } else {
        let j = k - 1;
        lemma_agrees(ts, j);
        lemma_fold_take(ts, j);
        let (out, st) = shunt(ts.take(2 * j));
        lemma_step(out, st, fold_flat(ts.take(2 * j - 1)), ts[2 * j - 1]->Operator_0, q, o1);
    }
}

proof fn lemma_single(out: Seq<Token>, r: Result<Num, CalcError>)
    requires
        reduce(out) == match r {
            Ok(v) => Ok::<Seq<Num>, CalcError>(seq![v]),
            Err(e) => Err(e),
        },
    ensures
        evaluate_postfix_spec(out) == r,
{
}

/// The end of the input: the last number, then every operator left on the stack.
#[verifier::spinoff_prover]
proof fn lemma_finish(out: Seq<Token>, st: Seq<Token>, f: Result<(Option<(Num, Op)>, Num), CalcError>, op: Op, q: Num)
    requires
        q.wf(),
        agrees(out, st, f, op),
    ensures
        evaluate_postfix_spec(pop_rest(out.push(Token::Number(q)), st)) == match fold_next(f, op, q) {
            Ok((acc, term)) => combine(acc, term),
            Err(e) => Err(e),
        },
{
    reveal_with_fuel(pop_rest, 3);
    let n = Token::Number(q);
    let out1 = out.push(n);
    match f {
        Err(e) => {
            lemma_reduce_push(out, n);
            lemma_err_pop_rest(out1, st, e);
        },
        Ok((acc, term)) => {
            if prec(op) == 1 {
                match combine(acc, term) {
                    Err(e) => {
                        lemma_reduce_push(out, n);
                        lemma_err_pop_rest(out1, st, e);
                    },
                    Ok(c) => {
                        lemma_push_number(out, seq![c], q);
                        assert(seq![c].push(q) =~= seq![c, q]);
                        lemma_one_op(out1, c, q, op);
                        assert(st.drop_last() =~= Seq::<Token>::empty());
                        lemma_single(out1.push(Token::Operator(op)), apply_spec(op, c, q));
                    },
                }
            } else {
                match acc {
                    None => {
                        lemma_push_number(out, seq![term], q);
                        assert(seq![term].push(q) =~= seq![term, q]);
                        lemma_one_op(out1, term, q, op);
                        assert(st.drop_last() =~= Seq::<Token>::empty());
                        lemma_single(out1.push(Token::Operator(op)), apply_spec(op, term, q));
                    },
                    Some((a, lo)) => {
                        lemma_push_number(out, seq![a, term], q);
                        assert(seq![a, term].push(q) =~= seq![a, term, q]);
                        lemma_one_op3(out1, a, term, q, op);
                        let out2 = out1.push(Token::Operator(op));
                        let st1 = st.drop_last();
                        assert(st1 =~= seq![Token::Operator(lo)]);
                        assert(st1.drop_last() =~= Seq::<Token>::empty());
                        match apply_spec(op, term, q) {
                            Err(e) => {
                                lemma_err_pop_rest(out2, st1, e);
                            },
                            Ok(t) => {
                                lemma_one_op(out2, a, t, lo);
                                lemma_single(out2.push(Token::Operator(lo)), apply_spec(lo, a, t));
                            },
                        }
                    },
                }
            }
        },
    }
}

/// On a flat expression, the shunting-yard transform followed by postfix
/// reduction gives exactly the value, or the first error, of reading the
/// expression left to right with `* / %` binding tighter than `+ -` and each
/// tier associating to the left.
pub proof fn shunting_yard_matches_precedence(ts: Seq<Token>)
    requires
        is_flat(ts),
    ensures
        evaluate_spec(ts) == precedence_value(ts),
{
    let m = (ts.len() - 1) / 2;
    assert(ts[2 * m] is Number && ts[2 * m]->Number_0.wf());
    let q = ts[2 * m]->Number_0;
    lemma_shunt_push(ts, 2 * m);
    assert(ts.take(2 * m + 1) =~= ts);
    if m == 0 {
        assert(ts.take(0) =~= Seq::<Token>::empty());
        let e = Seq::<Token>::empty();
        lemma_push_number(e, Seq::<Num>::empty(), q);
        assert(Seq::<Num>::empty().push(q) =~= seq![q]);
        assert(pop_rest(e.push(Token::Number(q)), e) == e.push(Token::Number(q)));
        lemma_single(e.push(Token::Number(q)), Ok::<Num, CalcError>(q));
    } else {
        lemma_agrees(ts, m);
        lemma_fold_take(ts, m);
        let (out, st) = shunt(ts.take(2 * m));
        lemma_finish(out, st, fold_flat(ts.take(2 * m - 1)), ts[2 * m - 1]->Operator_0, q);
    }
}


/// `x op y` on two results, the first error passed on.
pub open spec fn apply_results(op: Op, x: Result<Num, CalcError>, y: Result<Num, CalcError>) -> Result<Num, CalcError> {
    match x {
        Err(e) => Err(e),
        Ok(u) => match y {
            Err(e) => Err(e),
            Ok(v) => apply_spec(op, u, v),
        },
    }
}

/// With two operators, the one of the higher tier is applied first, and on a
/// tie the left one: `a p b q c` is `a p (b q c)` when `q` binds tighter,
/// else `(a p b) q c`.
pub proof fn two_operators(a: Num, p: Op, b: Num, q: Op, c: Num)
    requires
        a.wf(),
        b.wf(),
        c.wf(),
    ensures
        evaluate_spec(seq![Token::Number(a), Token::Operator(p), Token::Number(b), Token::Operator(q), Token::Number(c)])
            == if prec(q) > prec(p) {
            apply_results(p, Ok(a), apply_spec(q, b, c))
        } else {
            apply_results(q, apply_spec(p, a, b), Ok(c))
        },
{
    let ts = seq![Token::Number(a), Token::Operator(p), Token::Number(b), Token::Operator(q), Token::Number(c)];
    assert(is_flat(ts)) by {
        assert forall|i: int| 0 <= i < ts.len() && i % 2 == 0 implies (#[trigger] ts[i] is Number && ts[i]->Number_0.wf()) by {
            assert(i == 0 || i == 2 || i == 4);
        }
        assert forall|i: int| 0 <= i < ts.len() && i % 2 == 1 implies #[trigger] ts[i] is Operator by {
            assert(i == 1 || i == 3);
        }
    }
    shunting_yard_matches_precedence(ts);
    let t3 = ts.take(3);
    let t1 = t3.take(1);
    assert(t3 =~= seq![Token::Number(a), Token::Operator(p), Token::Number(b)]);
    assert(t1 =~= seq![Token::Number(a)]);
    assert(ts.take(ts.len() - 2) == t3);
    assert(t3.take(t3.len() - 2) == t1);
    assert(fold_flat(t1) == Ok::<(Option<(Num, Op)>, Num), CalcError>((None, a)));
    assert(t3[1] == Token::Operator(p) && t3[2] == Token::Number(b));
    assert(fold_flat(t3) == fold_next(fold_flat(t1), p, b));
    assert(ts[3] == Token::Operator(q) && ts[4] == Token::Number(c));
    assert(fold_flat(ts) == fold_next(fold_flat(t3), q, c));
    if prec(p) == 2 {
        match apply_spec(p, a, b) {
            Ok(t) => {
                assert(fold_flat(t3) == Ok::<(Option<(Num, Op)>, Num), CalcError>((None, t)));
            },
            Err(e) => {},
        }
    } else {
        assert(fold_flat(t3) == Ok::<(Option<(Num, Op)>, Num), CalcError>((Some((a, p)), b)));
    }
}

} // verus!
