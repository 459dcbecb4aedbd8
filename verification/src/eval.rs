use crate::ast::Expr;
use crate::ast::ExprS;
use crate::ast::RtErr;
use crate::ast::RuntimeError;
use crate::ast::Halt;
use crate::ast::Statement;
use crate::ast::StmtS;
use crate::ast::stmts_view;
use crate::context::Context;
use crate::lexer::Token;
use vstd::prelude::*;
use vstd::string::StringExecFns;

verus! {

broadcast use vstd::seq::group_seq_axioms, vstd::std_specs::vec::group_vec_axioms;

// ---------------------------------------------------------------------------
// The meaning of expressions. Arithmetic is the machine's own: two's
// complement, wrapping on overflow; division truncates toward zero and
// fails on a zero divisor.
// ---------------------------------------------------------------------------

/// Truncating 64-bit division; the one overflowing quotient wraps.
pub open spec fn wrap_div(l: i64, r: i64) -> i64 {
    let la = if l < 0 {
        -(l as int)
    } else {
        l as int
    };
    let ra = if r < 0 {
        -(r as int)
    } else {
        r as int
    };
    let q = la / ra;
    if (l < 0) == (r < 0) {
        if q > i64::MAX {
            i64::MIN
        } else {
            q as i64
        }
    } else {
        (-q) as i64
    }
}

/// What a binary operator yields on two values. Comparisons yield one for
/// true and zero for false; there is no boolean type. A token that is no
/// operator is a runtime error, unreachable through the parser's grammar.
pub open spec fn apply_op(op: crate::lexer::Tok, l: i64, r: i64) -> Result<i64, RtErr> {
    match op {
        crate::lexer::Tok::Plus => Ok(vstd::wrapping::i64_specs::wrapping_add(l, r)),
        crate::lexer::Tok::Minus => Ok(vstd::wrapping::i64_specs::wrapping_sub(l, r)),
        crate::lexer::Tok::Star => Ok(vstd::wrapping::i64_specs::wrapping_mul(l, r)),
        crate::lexer::Tok::Slash => if r == 0 {
            Err(RtErr::DivisionByZero)
        } else {
            Ok(wrap_div(l, r))
        },
        crate::lexer::Tok::DoubleEquals => Ok(
            if l == r {
                1
            } else {
                0
            },
        ),
        crate::lexer::Tok::LessThan => Ok(
            if l < r {
                1
            } else {
                0
            },
        ),
        crate::lexer::Tok::GreaterThan => Ok(
            if l > r {
                1
            } else {
                0
            },
        ),
        _ => Err(RtErr::InvalidOperator(op)),
    }
}

/// The value of an expression under an environment: left operand first,
/// then right, then the operator; the first failure propagates. A variable
/// never assigned is an error, not zero.
pub open spec fn eval_expr_s(e: ExprS, env: Map<Seq<char>, i64>) -> Result<i64, RtErr>
    decreases e,
{
    match e {
        ExprS::Number(n) => Ok(n),
        ExprS::Ident(name) => if env.contains_key(name) {
            Ok(env[name])
        } else {
            Err(RtErr::UndefinedVariable(name))
        },
        ExprS::Binary { left, op, right } => match eval_expr_s(*left, env) {
            Ok(l) => match eval_expr_s(*right, env) {
                Ok(r) => apply_op(op, l, r),
                Err(er) => Err(er),
            },
            Err(er) => Err(er),
        },
    }
}

// ---------------------------------------------------------------------------
// Executable evaluation.
// ---------------------------------------------------------------------------

/// Truncating division, wrapping on the one overflowing quotient, computed
/// through unsigned magnitudes.
fn div_trunc(l: i64, r: i64) -> (q: i64)
    requires
        r != 0,
    ensures
        q == wrap_div(l, r),
{
    let ln: bool = l < 0;
    let rn: bool = r < 0;
    let la: u64 = if l >= 0 {
        l as u64
    } else {
        ((-(l + 1)) as u64) + 1
    };
    let ra: u64 = if r >= 0 {
        r as u64
    } else {
        ((-(r + 1)) as u64) + 1
    };
    let qa: u64 = la / ra;
    proof {
        assert(qa <= la) by (nonlinear_arith)
            requires
                ra >= 1,
                qa == la as int / ra as int,
        ;
    }
    if ln == rn {
        if qa > 9223372036854775807u64 {
            i64::MIN
        } else {
            qa as i64
        }
    } else {
        if qa == 0 {
            0
        } else {
            -((qa - 1) as i64) - 1
        }
    }
}

impl Expr {
    /// The value of the expression in the given context, read-only. The
    /// result is exactly what `eval_expr_s` assigns to the expression's
    /// model under the context's map.
    pub fn eval(&self, ctx: &Context) -> (res: Result<i64, RuntimeError>)
        requires
            ctx.wf(),
        ensures
            match eval_expr_s(self@, ctx@) {
                Ok(v) => res == Ok::<i64, RuntimeError>(v),
                Err(er) => res is Err && res->Err_0@ == er,
            },
        decreases *self,
    {
        match self {
            Expr::Number(n) => Ok(*n),
            Expr::Ident(name) => match ctx.get_variable(name.as_str()) {
                Some(v) => Ok(v),
                None => Err(RuntimeError::UndefinedVariable(name.clone())),
            },
            Expr::Binary { left, op, right } => {
                let l = match left.eval(ctx) {
                    Ok(v) => v,
                    Err(er) => {
                        return Err(er);
                    },
                };
                let r = match right.eval(ctx) {
                    Ok(v) => v,
                    Err(er) => {
                        return Err(er);
                    },
                };
                match op {
                    Token::Plus => Ok(l.wrapping_add(r)),
                    Token::Minus => Ok(l.wrapping_sub(r)),
                    Token::Star => Ok(l.wrapping_mul(r)),
                    Token::Slash => if r == 0 {
                        Err(RuntimeError::DivisionByZero)
                    } else {
                        Ok(div_trunc(l, r))
                    },
                    Token::DoubleEquals => Ok(
                        if l == r {
                            1
                        } else {
                            0
                        },
                    ),
                    Token::LessThan => Ok(
                        if l < r {
                            1
                        } else {
                            0
                        },
                    ),
                    Token::GreaterThan => Ok(
                        if l > r {
                            1
                        } else {
                            0
                        },
                    ),
                    _ => Err(RuntimeError::InvalidOperator(op.duplicate())),
                }
            },
        }
    }
}

// ---------------------------------------------------------------------------
// The meaning of statements. Execution threads one environment and one
// output sink through the statement sequence; the first failure stops it,
// and output already produced is kept. `while` has no iteration cap in the
// language, so the semantics meters its iterations with a step budget:
// spending one unit per iteration keeps every recursion well-founded, and a
// run that exhausts the budget is marked as cut short rather than finished.
// ---------------------------------------------------------------------------

/// The mutable part of an execution: the variables and the output so far.
pub ghost struct EvalState {
    pub env: Map<Seq<char>, i64>,
    pub out: Seq<char>,
}

/// How one piece of execution came out: it finished with budget to spare,
/// it failed, or the budget ran out. The state carried is the one at that
/// very moment.
pub ghost enum StepOutcome {
    Done(EvalState, nat),
    Fault(RtErr, EvalState, nat),
    OutOfSteps(EvalState),
}

/// Executes one statement under a step budget.
pub open spec fn run_stmt_s(s: StmtS, st: EvalState, fuel: nat) -> StepOutcome
    decreases fuel, s, 0int,
{
    match s {
        StmtS::Assign(name, e) => match eval_expr_s(e, st.env) {
            Ok(v) => StepOutcome::Done(EvalState { env: st.env.insert(name, v), out: st.out }, fuel),
            Err(er) => StepOutcome::Fault(er, st, fuel),
        },
        StmtS::Print(e) => match eval_expr_s(e, st.env) {
            Ok(v) => StepOutcome::Done(
                EvalState { env: st.env, out: st.out + crate::decimal::fmt_i64(v) + seq!['\n'] },
                fuel,
            ),
            Err(er) => StepOutcome::Fault(er, st, fuel),
        },
        StmtS::If(c, body) => match eval_expr_s(c, st.env) {
            Ok(v) => if v != 0 {
                run_block_s(body, 0, st, fuel)
            } else {
                StepOutcome::Done(st, fuel)
            },
            Err(er) => StepOutcome::Fault(er, st, fuel),
        },
        StmtS::While(c, body) => match eval_expr_s(c, st.env) {
            Ok(v) => if v == 0 {
                StepOutcome::Done(st, fuel)
            } else if fuel == 0 {
                StepOutcome::OutOfSteps(st)
            } else {
                match run_block_s(body, 0, st, (fuel - 1) as nat) {
                    StepOutcome::Done(st2, f2) => run_stmt_s(
                        s,
                        st2,
                        if f2 < (fuel - 1) as nat {
                            f2
                        } else {
                            (fuel - 1) as nat
                        },
                    ),
                    other => other,
                }
            },
            Err(er) => StepOutcome::Fault(er, st, fuel),
        },
    }
}

/// Executes the statements of a block from position `i` on, in order.
pub open spec fn run_block_s(ss: Seq<StmtS>, i: int, st: EvalState, fuel: nat) -> StepOutcome
    decreases fuel, ss, ss.len() - i,
{
    if i < 0 || i >= ss.len() {
        StepOutcome::Done(st, fuel)
    } else {
        match run_stmt_s(ss[i], st, fuel) {
            StepOutcome::Done(st2, f2) => run_block_s(
                ss,
                i + 1,
                st2,
                if f2 < fuel {
                    f2
                } else {
                    fuel
                },
            ),
            other => other,
        }
    }
}

/// The budget never grows while a statement runs.
pub proof fn lemma_stmt_fuel(s: StmtS, st: EvalState, fuel: nat)
    ensures
        match run_stmt_s(s, st, fuel) {
            StepOutcome::Done(_, f) => f <= fuel,
            StepOutcome::Fault(_, _, f) => f <= fuel,
            StepOutcome::OutOfSteps(_) => true,
        },
    decreases fuel, s, 0int,
{
    match s {
        StmtS::Assign(name, e) => {},
        StmtS::Print(e) => {},
        StmtS::If(c, body) => {
            if eval_expr_s(c, st.env) matches Ok(v) && v != 0 {
                lemma_block_fuel(body, 0, st, fuel);
            }
        },
        StmtS::While(c, body) => {
            if eval_expr_s(c, st.env) matches Ok(v) && v != 0 && fuel > 0 {
                lemma_block_fuel(body, 0, st, (fuel - 1) as nat);
                match run_block_s(body, 0, st, (fuel - 1) as nat) {
                    StepOutcome::Done(st2, f2) => {
                        lemma_stmt_fuel(
                            s,
                            st2,
                            if f2 < (fuel - 1) as nat {
                                f2
                            } else {
                                (fuel - 1) as nat
                            },
                        );
                    },
                    _ => {},
                }
            }
        },
    }
}

/// The budget never grows while a block runs.
pub proof fn lemma_block_fuel(ss: Seq<StmtS>, i: int, st: EvalState, fuel: nat)
    ensures
        match run_block_s(ss, i, st, fuel) {
            StepOutcome::Done(_, f) => f <= fuel,
            StepOutcome::Fault(_, _, f) => f <= fuel,
            StepOutcome::OutOfSteps(_) => true,
        },
    decreases fuel, ss, ss.len() - i,
{
    if 0 <= i < ss.len() {
        lemma_stmt_fuel(ss[i], st, fuel);
        match run_stmt_s(ss[i], st, fuel) {
            StepOutcome::Done(st2, f2) => {
                lemma_block_fuel(
                    ss,
                    i + 1,
                    st2,
                    if f2 < fuel {
                        f2
                    } else {
                        fuel
                    },
                );
            },
            _ => {},
        }
    }
}

/// A bigger step budget changes nothing of a run that finishes or fails:
/// only the budget left over grows with it.
pub proof fn lemma_stmt_fuel_monotone(s: StmtS, st: EvalState, f1: nat, f2: nat)
    requires
        f1 <= f2,
        !(run_stmt_s(s, st, f1) is OutOfSteps),
    ensures
        match (run_stmt_s(s, st, f1), run_stmt_s(s, st, f2)) {
            (StepOutcome::Done(a, la), StepOutcome::Done(b, lb)) => a == b && la <= lb && f1 - la
                <= f2 - lb,
            (StepOutcome::Fault(e1, a, la), StepOutcome::Fault(e2, b, lb)) => e1 == e2 && a == b
                && la <= lb && f1 - la <= f2 - lb,
            _ => false,
        },
    decreases f1, s, 0int,
{
    match s {
        StmtS::Assign(name, e) => {},
        StmtS::Print(e) => {},
        StmtS::If(c, body) => {
            if eval_expr_s(c, st.env) matches Ok(v) && v != 0 {
                lemma_block_fuel_monotone(body, 0, st, f1, f2);
            }
        },
        StmtS::While(c, body) => {
            if eval_expr_s(c, st.env) matches Ok(v) && v != 0 {
                lemma_block_fuel(body, 0, st, (f1 - 1) as nat);
                lemma_block_fuel(body, 0, st, (f2 - 1) as nat);
                lemma_block_fuel_monotone(body, 0, st, (f1 - 1) as nat, (f2 - 1) as nat);
                match run_block_s(body, 0, st, (f1 - 1) as nat) {
                    StepOutcome::Done(st2, fa) => {
                        match run_block_s(body, 0, st, (f2 - 1) as nat) {
                            StepOutcome::Done(_, fb) => {
                                lemma_stmt_fuel_monotone(s, st2, fa, fb);
                            },
                            _ => {},
                        }
                    },
                    _ => {},
                }
            }
        },
    }
}

/// A bigger step budget changes nothing of a block's run that finishes or
/// fails: only the budget left over grows with it.
pub proof fn lemma_block_fuel_monotone(ss: Seq<StmtS>, i: int, st: EvalState, f1: nat, f2: nat)
    requires
        f1 <= f2,
        !(run_block_s(ss, i, st, f1) is OutOfSteps),
    ensures
        match (run_block_s(ss, i, st, f1), run_block_s(ss, i, st, f2)) {
            (StepOutcome::Done(a, la), StepOutcome::Done(b, lb)) => a == b && la <= lb && f1 - la
                <= f2 - lb,
            (StepOutcome::Fault(e1, a, la), StepOutcome::Fault(e2, b, lb)) => e1 == e2 && a == b
                && la <= lb && f1 - la <= f2 - lb,
            _ => false,
        },
    decreases f1, ss, ss.len() - i,
{
    if 0 <= i < ss.len() {
        lemma_stmt_fuel(ss[i], st, f1);
        lemma_stmt_fuel(ss[i], st, f2);
        lemma_stmt_fuel_monotone(ss[i], st, f1, f2);
        match run_stmt_s(ss[i], st, f1) {
            StepOutcome::Done(st2, fa) => {
                match run_stmt_s(ss[i], st, f2) {
                    StepOutcome::Done(_, fb) => {
                        lemma_block_fuel_monotone(ss, i + 1, st2, fa, fb);
                    },
                    _ => {},
                }
            },
            _ => {},
        }
    }
}

/// Determinism across step budgets: two runs of the same statements from
/// the same state that both come to an end, under whatever budgets, end in
/// the same state, with the same output and the same error if any.
pub proof fn lemma_run_deterministic(ss: Seq<StmtS>, st: EvalState, f1: nat, f2: nat)
    requires
        !(run_block_s(ss, 0, st, f1) is OutOfSteps),
        !(run_block_s(ss, 0, st, f2) is OutOfSteps),
    ensures
        match (run_block_s(ss, 0, st, f1), run_block_s(ss, 0, st, f2)) {
            (StepOutcome::Done(a, _la), StepOutcome::Done(b, _lb)) => a == b,
            (StepOutcome::Fault(e1, a, _la), StepOutcome::Fault(e2, b, _lb)) => e1 == e2 && a == b,
            _ => false,
        },
{
    if f1 <= f2 {
        lemma_block_fuel_monotone(ss, 0, st, f1, f2);
    } else {
        lemma_block_fuel_monotone(ss, 0, st, f2, f1);
    }
}

/// How an executable result, together with the context, the output and the
/// budget it leaves behind, realizes a semantic outcome.
pub open spec fn outcome_matches(
    o: StepOutcome,
    r: Result<(), Halt>,
    env: Map<Seq<char>, i64>,
    out: Seq<char>,
    fuel_left: u64,
) -> bool {
    match o {
        StepOutcome::Done(st, f) => {
            &&& r is Ok
            &&& env == st.env
            &&& out == st.out
            &&& fuel_left as nat == f
        },
        StepOutcome::Fault(er, st, f) => {
            &&& r matches Err(Halt::Fault(e)) && e@ == er
            &&& env == st.env
            &&& out == st.out
            &&& fuel_left as nat == f
        },
        StepOutcome::OutOfSteps(st) => {
            &&& r == Err::<(), Halt>(Halt::OutOfSteps)
            &&& env == st.env
            &&& out == st.out
            &&& fuel_left == 0
        },
    }
}

impl Statement {
    /// Runs one statement: `Assign` binds, `Print` appends a line to the
    /// output, `If` runs its body once when the condition is nonzero, and
    /// `while` re-checks its condition before every iteration, spending one
    /// unit of the step budget per iteration. The outcome is exactly what
    /// `run_stmt_s` assigns to the statement's model.
    pub fn execute(&self, ctx: &mut Context, output: &mut String, fuel: &mut u64) -> (res: Result<
        (),
        Halt,
    >)
        requires
            old(ctx).wf(),
        ensures
            final(ctx).wf(),
            outcome_matches(
                run_stmt_s(
                    self@,
                    EvalState { env: old(ctx)@, out: old(output)@ },
                    *old(fuel) as nat,
                ),
                res,
                final(ctx)@,
                final(output)@,
                *final(fuel),
            ),
    {
        let (r, f) = self.exec(ctx, output, *fuel);
        *fuel = f;
        r
    }

    #[verifier::loop_isolation(false)]
    fn exec(&self, ctx: &mut Context, output: &mut String, fuel: u64) -> (res: (
        Result<(), Halt>,
        u64,
    ))
        requires
            old(ctx).wf(),
        ensures
            final(ctx).wf(),
            outcome_matches(
                run_stmt_s(
                    self@,
                    EvalState { env: old(ctx)@, out: old(output)@ },
                    fuel as nat,
                ),
                res.0,
                final(ctx)@,
                final(output)@,
                res.1,
            ),
        decreases fuel, *self,
    {
        match self {
            Statement::Assign(name, e) => match e.eval(ctx) {
                Ok(v) => {
                    ctx.set_variable(name.as_str(), v);
                    (Ok(()), fuel)
                },
                Err(er) => (Err(Halt::Fault(er)), fuel),
            },
            Statement::Print(e) => match e.eval(ctx) {
                Ok(v) => {
                    let ghost out0 = output@;
                    let text = crate::decimal::to_decimal(v);
                    output.append(text.as_str());
                    crate::chars::push_char(output, '\n');
                    proof {
                        assert(output@ =~= out0 + crate::decimal::fmt_i64(v) + seq!['\n']);
                    }
                    (Ok(()), fuel)
                },
                Err(er) => (Err(Halt::Fault(er)), fuel),
            },
            Statement::If(c, body) => match c.eval(ctx) {
                Ok(v) => {
                    if v != 0 {
                        exec_block(body, ctx, output, fuel)
                    } else {
                        (Ok(()), fuel)
                    }
                },
                Err(er) => (Err(Halt::Fault(er)), fuel),
            },
            Statement::While(c, body) => {
                let ghost st0 = EvalState { env: ctx@, out: output@ };
                let mut f: u64 = fuel;
                loop
                    invariant
                        ctx.wf(),
                        f <= fuel,
                        self@ is While,
                        run_stmt_s(self@, st0, fuel as nat) == run_stmt_s(
                            self@,
                            EvalState { env: ctx@, out: output@ },
                            f as nat,
                        ),
                    decreases f,
                {
                    let ghost pre = EvalState { env: ctx@, out: output@ };
                    match c.eval(ctx) {
                        Err(er) => {
                            return (Err(Halt::Fault(er)), f);
                        },
                        Ok(v) => {
                            if v == 0 {
                                return (Ok(()), f);
                            }
                            if f == 0 {
                                return (Err(Halt::OutOfSteps), 0);
                            }
                            f = f - 1;
                            let (r2, f2) = exec_block(body, ctx, output, f);
                            proof {
                                lemma_block_fuel(stmts_view(body@), 0, pre, f as nat);
                            }
                            match r2 {
                                Ok(()) => {
                                    f = f2;
                                },
                                Err(h) => {
                                    return (Err(h), f2);
                                },
                            }
                        },
                    }
                }
            },
        }
    }
}

/// Runs the statements of a block in order, stopping at the first failure.
#[verifier::loop_isolation(false)]
fn exec_block(stmts: &Vec<Statement>, ctx: &mut Context, output: &mut String, fuel: u64) -> (res: (
    Result<(), Halt>,
    u64,
))
    requires
        old(ctx).wf(),
    ensures
        final(ctx).wf(),
        outcome_matches(
            run_block_s(
                stmts_view(stmts@),
                0,
                EvalState { env: old(ctx)@, out: old(output)@ },
                fuel as nat,
            ),
            res.0,
            final(ctx)@,
            final(output)@,
            res.1,
        ),
    decreases fuel, *stmts,
{
    let ghost st0 = EvalState { env: ctx@, out: output@ };
    let mut f: u64 = fuel;
    let mut i: usize = 0;
    while i < stmts.len()
        invariant
            ctx.wf(),
            i <= stmts.len(),
            f <= fuel,
            run_block_s(stmts_view(stmts@), 0, st0, fuel as nat) == run_block_s(
                stmts_view(stmts@),
                i as int,
                EvalState { env: ctx@, out: output@ },
                f as nat,
            ),
        decreases stmts.len() - i,
    {
        let ghost pre = EvalState { env: ctx@, out: output@ };
        let (r2, f2) = stmts[i].exec(ctx, output, f);
        proof {
            assert(stmts_view(stmts@)[i as int] == stmts@[i as int].deep_view());
            lemma_stmt_fuel(stmts_view(stmts@)[i as int], pre, f as nat);
        }
        match r2 {
            Ok(()) => {
                f = f2;
            },
            Err(h) => {
                return (Err(h), f2);
            },
        }
        i = i + 1;
    }
    (Ok(()), f)
}

/// Executes a whole program against a context: the ordered execution of the
/// top-level statements, stopping at the first failure. Yields the
/// concatenation of all `print` output, together with what stopped the run
/// early, if anything did; output produced before a failure is kept.
pub fn run(statements: &Vec<Statement>, ctx: &mut Context, max_steps: u64) -> (r: (
    String,
    Option<Halt>,
))
    requires
        old(ctx).wf(),
    ensures
        final(ctx).wf(),
        ({
            let o = run_block_s(
                stmts_view(statements@),
                0,
                EvalState { env: old(ctx)@, out: Seq::empty() },
                max_steps as nat,
            );
            match o {
                StepOutcome::Done(st, _f) => {
                    &&& r.1 is None
                    &&& r.0@ == st.out
                    &&& final(ctx)@ == st.env
                },
                StepOutcome::Fault(er, st, _f) => {
                    &&& r.1 matches Some(Halt::Fault(e)) && e@ == er
                    &&& r.0@ == st.out
                    &&& final(ctx)@ == st.env
                },
                StepOutcome::OutOfSteps(st) => {
                    &&& r.1 == Some(Halt::OutOfSteps)
                    &&& r.0@ == st.out
                    &&& final(ctx)@ == st.env
                },
            }
        }),
{
    let mut output = String::new();
    let (res, _remaining) = exec_block(statements, ctx, &mut output, max_steps);
    match res {
        Ok(()) => (output, None),
        Err(h) => (output, Some(h)),
    }
}

} // verus!
