//! The meaning of an expression, and the agreement of compiled code with it.
use vstd::prelude::*;

use crate::compiler::{
    bad_final_stack_message, underflow_message, compile_expr, division_by_zero_message, fits_i64, run_from, run_program, stays_in_range,
    step, trunc_div, Expr, Instr,
};

verus! {

/// The value of `e`, evaluating left operands before right ones; division
/// by zero is an error.
pub open spec fn eval(e: Expr) -> Result<int, Seq<char>>
    decreases e,
{
    match e {
        Expr::Lit(n) => Ok(n as int),
        Expr::Add(l, r) => match (eval(*l), eval(*r)) {
            (Err(m), _) => Err(m),
            (Ok(_), Err(m)) => Err(m),
            (Ok(a), Ok(b)) => Ok(a + b),
        },
        Expr::Sub(l, r) => match (eval(*l), eval(*r)) {
            (Err(m), _) => Err(m),
            (Ok(_), Err(m)) => Err(m),
            (Ok(a), Ok(b)) => Ok(a - b),
        },
        Expr::Mul(l, r) => match (eval(*l), eval(*r)) {
            (Err(m), _) => Err(m),
            (Ok(_), Err(m)) => Err(m),
            (Ok(a), Ok(b)) => Ok(a * b),
        },
        Expr::Div(l, r) => match (eval(*l), eval(*r)) {
            (Err(m), _) => Err(m),
            (Ok(_), Err(m)) => Err(m),
            (Ok(a), Ok(b)) => if b == 0 {
                Err(division_by_zero_message())
            } else {
                Ok(trunc_div(a, b))
            },
        },
        Expr::Neg(x) => match eval(*x) {
            Ok(a) => Ok(-a),
            Err(m) => Err(m),
        },
    }
}

/// Every value computed while evaluating `e` (up to the first error) fits
/// in an `i64`.
pub open spec fn eval_in_range(e: Expr) -> bool
    decreases e,
{
    let own = match eval(e) {
        Ok(v) => fits_i64(v),
        Err(_) => true,
    };
    match e {
        Expr::Lit(_) => true,
        Expr::Add(l, r) | Expr::Sub(l, r) | Expr::Mul(l, r) | Expr::Div(l, r) => {
            &&& eval_in_range(*l)
            &&& (eval(*l) is Ok ==> eval_in_range(*r))
            &&& own
        },
        Expr::Neg(x) => eval_in_range(*x) && own,
    }
}

proof fn lemma_run_append(p: Seq<Instr>, q: Seq<Instr>, st: Seq<int>)
    ensures
        run_from(p + q, st) == match run_from(p, st) {
            Ok(mid) => run_from(q, mid),
            Err(m) => Err(m),
        },
        stays_in_range(p + q, st) == (stays_in_range(p, st) && match run_from(p, st) {
            Ok(mid) => stays_in_range(q, mid),
            Err(_) => true,
        }),
    decreases p.len(),
{
    if p.len() == 0 {
        assert(p + q =~= q);
    } else {
        assert((p + q)[0] == p[0]);
        assert((p + q).drop_first() =~= p.drop_first() + q);
        match step(p[0], st) {
            Ok(next) => lemma_run_append(p.drop_first(), q, next),
            Err(_) => {},
        }
    }
}

proof fn lemma_run_single(ins: Instr, st: Seq<int>)
    ensures
        run_from(seq![ins], st) == step(ins, st),
        stays_in_range(seq![ins], st) == match step(ins, st) {
            Ok(next) => fits_i64(next.last()),
            Err(_) => true,
        },
{
    let rest = seq![ins].drop_first();
    assert(rest =~= Seq::<Instr>::empty());
    if let Ok(next) = step(ins, st) {
        assert(run_from(rest, next) == Ok::<Seq<int>, Seq<char>>(next));
        assert(stays_in_range(rest, next));
    }
}

proof fn lemma_compiled_binary(l: Expr, r: Expr, op: Instr, st: Seq<int>)
    requires
        op != Instr::Neg,
        !(op is Push),
        forall|s: Seq<int>|
            #![trigger run_from(compile_expr(l), s)]
            run_from(compile_expr(l), s) == match eval(l) {
                Ok(v) => Ok(s.push(v)),
                Err(m) => Err::<Seq<int>, Seq<char>>(m),
            } && stays_in_range(compile_expr(l), s) == eval_in_range(l),
        forall|s: Seq<int>|
            #![trigger run_from(compile_expr(r), s)]
            run_from(compile_expr(r), s) == match eval(r) {
                Ok(v) => Ok(s.push(v)),
                Err(m) => Err::<Seq<int>, Seq<char>>(m),
            } && stays_in_range(compile_expr(r), s) == eval_in_range(r),
    ensures
        ({
            let code = compile_expr(l) + compile_expr(r) + seq![op];
            &&& run_from(code, st) == match (eval(l), eval(r)) {
                (Err(m), _) => Err(m),
                (Ok(_), Err(m)) => Err(m),
                (Ok(a), Ok(b)) => step(op, st.push(a).push(b)),
            }
            &&& stays_in_range(code, st) == (eval_in_range(l) && (eval(l) is Ok ==> (
            eval_in_range(r) && (eval(r) matches Ok(b) ==> (step(op, st.push(eval(l)->Ok_0).push(b)) matches Ok(next) ==> fits_i64(next.last()))))))
        }),
{
    let cl = compile_expr(l);
    let cr = compile_expr(r);
    lemma_run_append(cl + cr, seq![op], st);
    lemma_run_append(cl, cr, st);
    let _ = run_from(cl, st);
    if let Ok(a) = eval(l) {
        let _ = run_from(cr, st.push(a));
        if let Ok(b) = eval(r) {
            lemma_run_single(op, st.push(a).push(b));
        }
    }
}

/// Running the compiled code of `e` on a stack `st` pushes the value of `e`
/// (or fails with the evaluation's error), and its arithmetic stays within
/// `i64` exactly when the evaluation's does.
pub proof fn lemma_compiled_code_pushes_value(e: Expr, st: Seq<int>)
    ensures
        run_from(compile_expr(e), st) == match eval(e) {
            Ok(v) => Ok(st.push(v)),
            Err(m) => Err::<Seq<int>, Seq<char>>(m),
        },
        stays_in_range(compile_expr(e), st) == eval_in_range(e),
    decreases e,
{
    match e {
        Expr::Lit(n) => {
            lemma_run_single(Instr::Push(n), st);
        },
        Expr::Add(l, r) | Expr::Sub(l, r) | Expr::Mul(l, r) | Expr::Div(l, r) => {
            assert forall|s: Seq<int>| #![trigger run_from(compile_expr(*l), s)]
                run_from(compile_expr(*l), s) == match eval(*l) {
                    Ok(v) => Ok(s.push(v)),
                    Err(m) => Err::<Seq<int>, Seq<char>>(m),
                } && stays_in_range(compile_expr(*l), s) == eval_in_range(*l) by {
                lemma_compiled_code_pushes_value(*l, s);
            }
            assert forall|s: Seq<int>| #![trigger run_from(compile_expr(*r), s)]
                run_from(compile_expr(*r), s) == match eval(*r) {
                    Ok(v) => Ok(s.push(v)),
                    Err(m) => Err::<Seq<int>, Seq<char>>(m),
                } && stays_in_range(compile_expr(*r), s) == eval_in_range(*r) by {
                lemma_compiled_code_pushes_value(*r, s);
            }
            let op = match e {
                Expr::Add(..) => Instr::Add,
                Expr::Sub(..) => Instr::Sub,
                Expr::Mul(..) => Instr::Mul,
                _ => Instr::Div,
            };
            lemma_compiled_binary(*l, *r, op, st);
            if let (Ok(a), Ok(b)) = (eval(*l), eval(*r)) {
                let s2 = st.push(a).push(b);
                assert(s2[s2.len() - 2] == a);
                assert(s2.last() == b);
                assert(s2.drop_last().drop_last() =~= st);
            }
        },
        Expr::Neg(x) => {
            lemma_compiled_code_pushes_value(*x, st);
            lemma_run_append(compile_expr(*x), seq![Instr::Neg], st);
            if let Ok(a) = eval(*x) {
                lemma_run_single(Instr::Neg, st.push(a));
                assert(st.push(a).drop_last() =~= st);
            }
        },
    }
}

/// Compiling an expression and running the code gives the expression's
/// value, or "division by zero" when the evaluation divides by zero; the
/// machine never underflows nor ends with a stack of other than one value on
/// compiled code. The run stays within `i64` exactly when the evaluation
/// does.
pub proof fn lemma_compile_then_run(e: Expr)
    ensures
        run_program(compile_expr(e)) == eval(e),
        stays_in_range(compile_expr(e), seq![]) == eval_in_range(e),
        eval(e) matches Err(m) ==> m == division_by_zero_message(),
{
    lemma_compiled_code_pushes_value(e, seq![]);
    lemma_eval_error(e);
}

proof fn lemma_eval_error(e: Expr)
    ensures
        eval(e) matches Err(m) ==> m == division_by_zero_message(),
    decreases e,
{
    match e {
        Expr::Lit(_) => {},
        Expr::Add(l, r) | Expr::Sub(l, r) | Expr::Mul(l, r) | Expr::Div(l, r) => {
            lemma_eval_error(*l);
            lemma_eval_error(*r);
        },
        Expr::Neg(x) => lemma_eval_error(*x),
    }
}


pub open spec fn abs(x: int) -> int {
    if x < 0 {
        -x
    } else {
        x
    }
}

proof fn lemma_euclid_remainder(x: int, d: int)
    by (nonlinear_arith)
    requires
        d != 0,
    ensures
        0 <= x - (x / d) * d < abs(d),
{
}

/// The quotient rounded toward zero: `a` is `q * b` plus a remainder smaller
/// than `b` in size and of the sign of `a` (or zero).
pub proof fn lemma_trunc_div_remainder(a: int, b: int)
    requires
        b != 0,
    ensures
        abs(a - trunc_div(a, b) * b) < abs(b),
        (a - trunc_div(a, b) * b) * a >= 0,
{
    if a >= 0 {
        lemma_euclid_remainder(a, b);
        assert((a - trunc_div(a, b) * b) * a >= 0) by (nonlinear_arith)
            requires a >= 0, a - trunc_div(a, b) * b >= 0;
    } else {
        lemma_euclid_remainder(-a, b);
        let q = (-a) / b;
        assert(trunc_div(a, b) == -q);
        assert(a - (-q) * b == -((-a) - q * b)) by (nonlinear_arith);
        assert((a - trunc_div(a, b) * b) * a >= 0) by (nonlinear_arith)
            requires a < 0, a - trunc_div(a, b) * b <= 0;
    }
}

proof fn lemma_run_three(a: i64, b: i64, op: Instr)
    ensures
        run_program(seq![Instr::Push(a), Instr::Push(b), op]) == match step(
            op,
            seq![a as int, b as int],
        ) {
            Ok(st) => if st.len() == 1 {
                Ok(st[0])
            } else {
                Err(bad_final_stack_message())
            },
            Err(m) => Err(m),
        },
{
    let p = seq![Instr::Push(a), Instr::Push(b), op];
    let e = Seq::<int>::empty();
    assert(p.drop_first() =~= seq![Instr::Push(b), op]);
    assert(p.drop_first().drop_first() =~= seq![op]);
    assert(e.push(a as int).push(b as int) =~= seq![a as int, b as int]);
    lemma_run_single(op, seq![a as int, b as int]);
    assert(run_from(p.drop_first().drop_first(), e.push(a as int).push(b as int)) == step(
        op,
        seq![a as int, b as int],
    ));
    assert(run_from(p.drop_first(), e.push(a as int)) == step(op, seq![a as int, b as int]));
    assert(run_from(p, e) == step(op, seq![a as int, b as int]));
}

/// One arithmetic instruction on two pushed values: `Add`, `Sub` and `Mul`
/// give the sum, difference and product; `Div` by zero fails with "division
/// by zero", and otherwise gives the quotient `q` rounded toward zero, that
/// is, `a - q * b` is smaller than `b` in size and has the sign of `a` (or is
/// zero).
pub proof fn lemma_run_arithmetic(a: i64, b: i64)
    ensures
        run_program(seq![Instr::Push(a), Instr::Push(b), Instr::Add]) == Ok::<int, Seq<char>>(
            a + b,
        ),
        run_program(seq![Instr::Push(a), Instr::Push(b), Instr::Sub]) == Ok::<int, Seq<char>>(
            a - b,
        ),
        run_program(seq![Instr::Push(a), Instr::Push(b), Instr::Mul]) == Ok::<int, Seq<char>>(
            a * b,
        ),
        b == 0 ==> run_program(seq![Instr::Push(a), Instr::Push(b), Instr::Div])
            == Err::<int, Seq<char>>("division by zero"@),
        b != 0 ==> (run_program(seq![Instr::Push(a), Instr::Push(b), Instr::Div]) matches Ok(q)
            && abs(a - q * b) < abs(b as int) && (a - q * b) * a >= 0),
{
    let st = seq![a as int, b as int];
    assert(st[st.len() - 2] == a);
    assert(st.last() == b);
    assert(st.drop_last().drop_last() =~= Seq::<int>::empty());
    lemma_run_three(a, b, Instr::Add);
    lemma_run_three(a, b, Instr::Sub);
    lemma_run_three(a, b, Instr::Mul);
    lemma_run_three(a, b, Instr::Div);
    if b != 0 {
        lemma_trunc_div_remainder(a as int, b as int);
    }
}

/// The machine's `Neg` negates.
pub proof fn lemma_run_negation(a: i64)
    ensures
        run_program(seq![Instr::Push(a), Instr::Neg]) == Ok::<int, Seq<char>>(-a),
{
    let p = seq![Instr::Push(a), Instr::Neg];
    assert(p.drop_first() =~= seq![Instr::Neg]);
    let st = Seq::<int>::empty().push(a as int);
    lemma_run_single(Instr::Neg, st);
    assert(st.drop_last().push(-st.last()) =~= seq![-(a as int)]);
}

} // verus!
