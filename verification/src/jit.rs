//! Lowering of an expression to the SSA instruction list that the native JIT
//! backend replays into its code generator: post-order, integer powers by
//! repeated squaring, `sqrt` and `abs` as instructions, and `exp ln log10 sin
//! cos tan powf` as calls to host functions. Every instruction defines one
//! value, named by its position; the parameters are `Arg(0..3)`.
use vstd::prelude::*;
use crate::dsl::expr::{Expr, ExprV, Func, args_view, lemma_args_view};
use crate::dsl::program::{vars_below, size};
use crate::dsl::token::{Tok, toks_view};
use crate::dsl::parser::{parse_all, vars_view};
use crate::dsl::optimize::opt;
use crate::dsl::compile::compile;
use crate::dsl::laws::{lemma_parse_scoped, lemma_opt_scoped};
use crate::aot::{Import, ONE_BITS, abs_i32, import_of, aot_ready, lemma_seq_props};
use crate::machine::host_func;

verus! {

/// An SSA value: a parameter of the function, or the value of an instruction.
#[derive(Clone, Copy, Debug, PartialEq, Eq, Structural)]
pub enum JVal {
    Arg(usize),
    Inst(usize),
}

/// One instruction of the plan; constants are binary64 bit patterns.
#[derive(Clone, Copy, Debug, PartialEq, Eq, Structural)]
pub enum JInstr {
    Const(u64),
    Neg(JVal),
    Add(JVal, JVal),
    Sub(JVal, JVal),
    Mul(JVal, JVal),
    Div(JVal, JVal),
    Sqrt(JVal),
    Abs(JVal),
    Call1(Import, JVal),
    Powf(JVal, JVal),
}

/// The instructions of a function body and the value it returns.
pub struct JitPlan {
    pub code: Vec<JInstr>,
    pub result: JVal,
}

/// Append `i`; its value is named by its position.
pub open spec fn append(c: Seq<JInstr>, i: JInstr) -> (Seq<JInstr>, JVal) {
    (c.push(i), JVal::Inst(c.len() as usize))
}

/// Exponentiation by squaring of `acc` with exponent `e`, multiplying into
/// `res`: at each bit, a set bit multiplies the running result by `acc`
/// (or starts it), then `acc` is squared while bits remain.
pub open spec fn sq_loop(c: Seq<JInstr>, e: nat, acc: JVal, res: Option<JVal>) -> (Seq<JInstr>, Option<JVal>)
    decreases e,
{
    if e == 0 {
        (c, res)
    } else {
        let (c1, r1) = if e % 2 == 1 {
            match res {
                Some(r) => (c.push(JInstr::Mul(r, acc)), Some(JVal::Inst(c.len() as usize))),
                None => (c, Some(acc)),
            }
        } else {
            (c, res)
        };
        let e2 = e / 2;
        if e2 > 0 {
            sq_loop(c1.push(JInstr::Mul(acc, acc)), e2, JVal::Inst(c1.len() as usize), r1)
        } else {
            (c1, r1)
        }
    }
}

/// `x^n`: `1.0` for `n == 0`; else squaring on `|n|`, then `1.0 / r` when `n < 0`.
pub open spec fn ipow_sq(c: Seq<JInstr>, x: JVal, n: i32) -> (Seq<JInstr>, JVal) {
    if n == 0 {
        append(c, JInstr::Const(ONE_BITS))
    } else {
        let (c1, r) = sq_loop(c, abs_i32(n) as nat, x, None);
        if n < 0 {
            let (c2, one) = append(c1, JInstr::Const(ONE_BITS));
            append(c2, JInstr::Div(one, r->0))
        } else {
            (c1, r->0)
        }
    }
}

/// The instruction applying one-argument function `f` to `x`.
pub open spec fn unary_jinstr(f: Func, x: JVal) -> JInstr {
    match f {
        Func::Sqrt => JInstr::Sqrt(x),
        Func::Abs => JInstr::Abs(x),
        _ => JInstr::Call1(import_of(f)->0, x),
    }
}

/// The post-order lowering of `e` appended to `c`, and the value of `e`.
pub open spec fn jit_code(e: ExprV, c: Seq<JInstr>) -> (Seq<JInstr>, JVal)
    decreases e,
{
    match e {
        ExprV::Num(v) => append(c, JInstr::Const(v)),
        ExprV::Var(i) => (c, JVal::Arg(i)),
        ExprV::Neg(a) => {
            let (c1, x) = jit_code(*a, c);
            append(c1, JInstr::Neg(x))
        },
        ExprV::Add(a, b) => {
            let (c1, x) = jit_code(*a, c);
            let (c2, y) = jit_code(*b, c1);
            append(c2, JInstr::Add(x, y))
        },
        ExprV::Sub(a, b) => {
            let (c1, x) = jit_code(*a, c);
            let (c2, y) = jit_code(*b, c1);
            append(c2, JInstr::Sub(x, y))
        },
        ExprV::Mul(a, b) => {
            let (c1, x) = jit_code(*a, c);
            let (c2, y) = jit_code(*b, c1);
            append(c2, JInstr::Mul(x, y))
        },
        ExprV::Div(a, b) => {
            let (c1, x) = jit_code(*a, c);
            let (c2, y) = jit_code(*b, c1);
            append(c2, JInstr::Div(x, y))
        },
        ExprV::Pow(a, b) => {
            let (c1, x) = jit_code(*a, c);
            let (c2, y) = jit_code(*b, c1);
            append(c2, JInstr::Powf(x, y))
        },
        ExprV::IPow(a, n) => {
            let (c1, x) = jit_code(*a, c);
            ipow_sq(c1, x, n)
        },
        ExprV::Call(f, args) => if f == Func::Pow && args.len() == 2 {
            let (c1, x) = jit_code(args[0], c);
            let (c2, y) = jit_code(args[1], c1);
            append(c2, JInstr::Powf(x, y))
        } else if args.len() >= 1 {
            let (c1, x) = jit_code(args[0], c);
            append(c1, unary_jinstr(f, x))
        } else {
            (c, JVal::Arg(0))
        },
    }
}

/// The running result of the squaring loop is present once a bit was seen.
proof fn lemma_sq_loop_some(c: Seq<JInstr>, e: nat, acc: JVal, res: Option<JVal>)
    requires
        e >= 1 || res is Some,
    ensures
        sq_loop(c, e, acc, res).1 is Some,
    decreases e,
{
    if e > 0 {
        let (c1, r1) = if e % 2 == 1 {
            match res {
                Some(r) => (c.push(JInstr::Mul(r, acc)), Some(JVal::Inst(c.len() as usize))),
                None => (c, Some(acc)),
            }
        } else {
            (c, res)
        };
        if e / 2 > 0 {
            if e % 2 == 0 {
                assert(e / 2 >= 1);
            }
            lemma_sq_loop_some(c1.push(JInstr::Mul(acc, acc)), e / 2, JVal::Inst(c1.len() as usize), r1);
        }
    }
}

fn push_value(out: &mut Vec<JInstr>, i: JInstr) -> (r: JVal)
    ensures
        (final(out)@, r) == append(old(out)@, i),
{
    let k = out.len();
    out.push(i);
    JVal::Inst(k)
}

/// Append the code of `base^n`, by squaring.
pub fn jit_ipow(out: &mut Vec<JInstr>, base: JVal, n: i32) -> (r: JVal)
    ensures
        (final(out)@, r) == ipow_sq(old(out)@, base, n),
{
    if n == 0 {
        return push_value(out, JInstr::Const(ONE_BITS));
    }
    let m: u32 = if n < 0 { (-(n as i64)) as u32 } else { n as u32 };
    let ghost o0 = out@;
    let mut e: u32 = m;
    let mut acc = base;
    let mut result: Option<JVal> = None;
    while e > 0
        invariant
            m == abs_i32(n),
            sq_loop(out@, e as nat, acc, result) == sq_loop(o0, m as nat, base, None),
        decreases e,
    {
        if e % 2 == 1 {
            result = Some(
                match result {
                    Some(r) => push_value(out, JInstr::Mul(r, acc)),
                    None => acc,
                },
            );
        }
        e = e / 2;
        if e > 0 {
            acc = push_value(out, JInstr::Mul(acc, acc));
        }
    }
    proof {
        lemma_sq_loop_some(o0, m as nat, base, None);
    }
    let r = match result {
        Some(r) => r,
        None => base,
    };
    if n < 0 {
        let one = push_value(out, JInstr::Const(ONE_BITS));
        push_value(out, JInstr::Div(one, r))
    } else {
        r
    }
}

/// Append the post-order lowering of `e`; the value of `e`.
pub fn jit_emit(out: &mut Vec<JInstr>, e: &Expr) -> (r: JVal)
    requires
        aot_ready(e@),
    ensures
        (final(out)@, r) == jit_code(e@, old(out)@),
    decreases e,
{
    match e {
        Expr::Num(v) => push_value(out, JInstr::Const(*v)),
        Expr::Var(i) => JVal::Arg(*i),
        Expr::Neg(a) => {
            let x = jit_emit(out, a);
            push_value(out, JInstr::Neg(x))
        },
        Expr::Add(a, b) => {
            let x = jit_emit(out, a);
            let y = jit_emit(out, b);
            push_value(out, JInstr::Add(x, y))
        },
        Expr::Sub(a, b) => {
            let x = jit_emit(out, a);
            let y = jit_emit(out, b);
            push_value(out, JInstr::Sub(x, y))
        },
        Expr::Mul(a, b) => {
            let x = jit_emit(out, a);
            let y = jit_emit(out, b);
            push_value(out, JInstr::Mul(x, y))
        },
        Expr::Div(a, b) => {
            let x = jit_emit(out, a);
            let y = jit_emit(out, b);
            push_value(out, JInstr::Div(x, y))
        },
        Expr::Pow(a, b) => {
            let x = jit_emit(out, a);
            let y = jit_emit(out, b);
            push_value(out, JInstr::Powf(x, y))
        },
        Expr::IPow(a, n) => {
            let x = jit_emit(out, a);
            jit_ipow(out, x, *n)
        },
        Expr::Call(f, args) => {
            proof {
                assert(e@ == ExprV::Call(*f, args_view(args@)));
                lemma_args_view(args@);
                lemma_seq_props(args_view(args@), Import::Exp);
                vstd::std_specs::vec::axiom_vec_decreases_to_view(*args);
                vstd::seq::axiom_seq_index_decreases(args@, 0);
                assert(decreases_to!(e => e->Call_1));
                assert(args_view(args@)[0] == args@[0]@);
                assert(aot_ready(args_view(args@)[0]));
                if args@.len() == 2 {
                    vstd::seq::axiom_seq_index_decreases(args@, 1);
                    assert(args_view(args@)[1] == args@[1]@);
                    assert(aot_ready(args_view(args@)[1]));
                }
            }
            if *f == Func::Pow && args.len() == 2 {
                let x = jit_emit(out, &args[0]);
                let y = jit_emit(out, &args[1]);
                push_value(out, JInstr::Powf(x, y))
            } else {
                let x = jit_emit(out, &args[0]);
                let i = match f {
                    Func::Sqrt => JInstr::Sqrt(x),
                    Func::Abs => JInstr::Abs(x),
                    Func::Exp => JInstr::Call1(Import::Exp, x),
                    Func::Ln => JInstr::Call1(Import::Ln, x),
                    Func::Log => JInstr::Call1(Import::Log10, x),
                    Func::Sin => JInstr::Call1(Import::Sin, x),
                    Func::Cos => JInstr::Call1(Import::Cos, x),
                    Func::Tan => JInstr::Call1(Import::Tan, x),
                    Func::Pow => JInstr::Call1(Import::Powf, x),
                };
                push_value(out, i)
            }
        },
    }
}

/// The plan of the body computing `e` over the parameters `r, eps, sig`.
pub fn jit_plan(e: &Expr) -> (p: JitPlan)
    requires
        aot_ready(e@),
        vars_below(e@, 3),
    ensures
        (p.code@, p.result) == jit_code(e@, Seq::empty()),
        plan_wf(p.code@, p.result, 3),
        value_of(p.code@, p.result) == jit_expand(e@),
{
    let mut code: Vec<JInstr> = Vec::new();
    let result = jit_emit(&mut code, e);
    let count = code.len();
    proof {
        assert(jit_code(e@, Seq::empty()).0.len() == count);
        law_jit_code_wf(e@, Seq::empty(), 3);
        law_jit_meaning(e@, Seq::empty(), 3);
    }
    JitPlan { code, result }
}

/// `v` names a parameter below `nargs` or an instruction before position `k`.
pub open spec fn jval_ok(v: JVal, k: int, nargs: int) -> bool {
    match v {
        JVal::Arg(i) => i < nargs,
        JVal::Inst(j) => j < k,
    }
}

/// Every operand of `i`, at position `k`, is defined before it.
pub open spec fn jinstr_ok(i: JInstr, k: int, nargs: int) -> bool {
    match i {
        JInstr::Const(_) => true,
        JInstr::Neg(x) | JInstr::Sqrt(x) | JInstr::Abs(x) | JInstr::Call1(_, x) => jval_ok(x, k, nargs),
        JInstr::Add(x, y) | JInstr::Sub(x, y) | JInstr::Mul(x, y) | JInstr::Div(x, y) | JInstr::Powf(x, y) =>
            jval_ok(x, k, nargs) && jval_ok(y, k, nargs),
    }
}

/// A well-formed plan: every operand is a parameter or an earlier value,
/// and the result is one of them.
pub open spec fn plan_wf(code: Seq<JInstr>, result: JVal, nargs: int) -> bool {
    &&& forall|k: int| 0 <= k < code.len() ==> jinstr_ok(#[trigger] code[k], k, nargs)
    &&& jval_ok(result, code.len() as int, nargs)
}

pub open spec fn code_wf(code: Seq<JInstr>, nargs: int) -> bool {
    forall|k: int| 0 <= k < code.len() ==> jinstr_ok(#[trigger] code[k], k, nargs)
}

proof fn lemma_append_wf(c: Seq<JInstr>, i: JInstr, nargs: int)
    requires
        code_wf(c, nargs),
        jinstr_ok(i, c.len() as int, nargs),
        c.len() <= usize::MAX,
    ensures
        code_wf(append(c, i).0, nargs),
        jval_ok(append(c, i).1, append(c, i).0.len() as int, nargs),
{
    let o = c.push(i);
    assert forall|k: int| 0 <= k < o.len() implies jinstr_ok(#[trigger] o[k], k, nargs) by {
        if k < c.len() {
            assert(o[k] == c[k]);
        }
    }
}

/// `b` extends `a`.
pub open spec fn extends(a: Seq<JInstr>, b: Seq<JInstr>) -> bool {
    a.len() <= b.len() && b.subrange(0, a.len() as int) == a
}

proof fn lemma_extends_trans(a: Seq<JInstr>, b: Seq<JInstr>, c: Seq<JInstr>)
    requires
        extends(a, b),
        extends(b, c),
    ensures
        extends(a, c),
{
    assert forall|i: int| 0 <= i < a.len() implies c.subrange(0, a.len() as int)[i] == a[i] by {
        assert(c.subrange(0, b.len() as int)[i] == c[i]);
        assert(b.subrange(0, a.len() as int)[i] == b[i]);
    }
    assert(c.subrange(0, a.len() as int) =~= a);
}

proof fn lemma_append_extends(c: Seq<JInstr>, i: JInstr)
    ensures
        extends(c, append(c, i).0),
{
    assert(c.push(i).subrange(0, c.len() as int) =~= c);
}

proof fn lemma_extends_refl(c: Seq<JInstr>)
    ensures
        extends(c, c),
{
    assert(c.subrange(0, c.len() as int) =~= c);
}

proof fn lemma_sq_loop_wf(c: Seq<JInstr>, e: nat, acc: JVal, res: Option<JVal>, nargs: int)
    requires
        code_wf(c, nargs),
        jval_ok(acc, c.len() as int, nargs),
        res matches Some(r) ==> jval_ok(r, c.len() as int, nargs),
        sq_loop(c, e, acc, res).0.len() <= usize::MAX,
    ensures
        code_wf(sq_loop(c, e, acc, res).0, nargs),
        extends(c, sq_loop(c, e, acc, res).0),
        sq_loop(c, e, acc, res).1 matches Some(r) ==> jval_ok(r, sq_loop(c, e, acc, res).0.len() as int, nargs),
    decreases e,
{
    lemma_extends_refl(c);
    if e > 0 {
        let (c1, r1) = if e % 2 == 1 {
            match res {
                Some(r) => (c.push(JInstr::Mul(r, acc)), Some(JVal::Inst(c.len() as usize))),
                None => (c, Some(acc)),
            }
        } else {
            (c, res)
        };
        if e / 2 > 0 {
            let c2 = c1.push(JInstr::Mul(acc, acc));
            lemma_sq_loop_grows(c2, e / 2, JVal::Inst(c1.len() as usize), r1);
            lemma_append_extends(c1, JInstr::Mul(acc, acc));
        }
        if e % 2 == 1 {
            if let Some(r) = res {
                lemma_append_wf(c, JInstr::Mul(r, acc), nargs);
                lemma_append_extends(c, JInstr::Mul(r, acc));
            }
        }
        if e / 2 > 0 {
            let c2 = c1.push(JInstr::Mul(acc, acc));
            lemma_append_wf(c1, JInstr::Mul(acc, acc), nargs);
            lemma_sq_loop_wf(c2, e / 2, JVal::Inst(c1.len() as usize), r1, nargs);
            lemma_extends_trans(c1, c2, sq_loop(c2, e / 2, JVal::Inst(c1.len() as usize), r1).0);
            lemma_extends_trans(c, c1, sq_loop(c2, e / 2, JVal::Inst(c1.len() as usize), r1).0);
        }
    }
}

proof fn lemma_sq_loop_grows(c: Seq<JInstr>, e: nat, acc: JVal, res: Option<JVal>)
    ensures
        extends(c, sq_loop(c, e, acc, res).0),
    decreases e,
{
    lemma_extends_refl(c);
    if e > 0 {
        let (c1, r1) = if e % 2 == 1 {
            match res {
                Some(r) => (c.push(JInstr::Mul(r, acc)), Some(JVal::Inst(c.len() as usize))),
                None => (c, Some(acc)),
            }
        } else {
            (c, res)
        };
        if e % 2 == 1 {
            if let Some(r) = res {
                lemma_append_extends(c, JInstr::Mul(r, acc));
            }
        }
        if e / 2 > 0 {
            let c2 = c1.push(JInstr::Mul(acc, acc));
            lemma_append_extends(c1, JInstr::Mul(acc, acc));
            lemma_sq_loop_grows(c2, e / 2, JVal::Inst(c1.len() as usize), r1);
            lemma_extends_trans(c1, c2, sq_loop(c2, e / 2, JVal::Inst(c1.len() as usize), r1).0);
            lemma_extends_trans(c, c1, sq_loop(c2, e / 2, JVal::Inst(c1.len() as usize), r1).0);
        }
    }
}

proof fn lemma_ipow_grows(c: Seq<JInstr>, x: JVal, n: i32)
    ensures
        extends(c, ipow_sq(c, x, n).0),
{
    if n == 0 {
        lemma_append_extends(c, JInstr::Const(ONE_BITS));
    } else {
        let (c1, r) = sq_loop(c, abs_i32(n) as nat, x, None);
        lemma_sq_loop_grows(c, abs_i32(n) as nat, x, None);
        if n < 0 {
            let (c2, one) = append(c1, JInstr::Const(ONE_BITS));
            lemma_append_extends(c1, JInstr::Const(ONE_BITS));
            lemma_append_extends(c2, JInstr::Div(one, r->0));
            lemma_extends_trans(c, c1, c2);
            lemma_extends_trans(c, c2, append(c2, JInstr::Div(one, r->0)).0);
        }
    }
}

/// Lowering only appends.
proof fn lemma_jit_grows(e: ExprV, c: Seq<JInstr>)
    ensures
        extends(c, jit_code(e, c).0),
    decreases e,
{
    lemma_extends_refl(c);
    match e {
        ExprV::Num(v) => {
            lemma_append_extends(c, JInstr::Const(v));
        },
        ExprV::Var(_) => {},
        ExprV::Neg(a) => {
            lemma_jit_grows(*a, c);
            let (c1, x) = jit_code(*a, c);
            lemma_append_extends(c1, JInstr::Neg(x));
            lemma_extends_trans(c, c1, jit_code(e, c).0);
        },
        ExprV::IPow(a, n) => {
            lemma_jit_grows(*a, c);
            let (c1, x) = jit_code(*a, c);
            lemma_ipow_grows(c1, x, n);
            lemma_extends_trans(c, c1, jit_code(e, c).0);
        },
        ExprV::Add(a, b) | ExprV::Sub(a, b) | ExprV::Mul(a, b) | ExprV::Div(a, b) | ExprV::Pow(a, b) => {
            lemma_jit_grows(*a, c);
            let (c1, x) = jit_code(*a, c);
            lemma_jit_grows(*b, c1);
            let (c2, y) = jit_code(*b, c1);
            lemma_extends_trans(c, c1, c2);
            let i = match e {
                ExprV::Add(_, _) => JInstr::Add(x, y),
                ExprV::Sub(_, _) => JInstr::Sub(x, y),
                ExprV::Mul(_, _) => JInstr::Mul(x, y),
                ExprV::Div(_, _) => JInstr::Div(x, y),
                _ => JInstr::Powf(x, y),
            };
            lemma_append_extends(c2, i);
            lemma_extends_trans(c, c2, jit_code(e, c).0);
        },
        ExprV::Call(f, args) => {
            if f == Func::Pow && args.len() == 2 {
                lemma_jit_grows(args[0], c);
                let (c1, x) = jit_code(args[0], c);
                lemma_jit_grows(args[1], c1);
                let (c2, y) = jit_code(args[1], c1);
                lemma_extends_trans(c, c1, c2);
                lemma_append_extends(c2, JInstr::Powf(x, y));
                lemma_extends_trans(c, c2, jit_code(e, c).0);
            } else if args.len() >= 1 {
                lemma_jit_grows(args[0], c);
                let (c1, x) = jit_code(args[0], c);
                lemma_append_extends(c1, unary_jinstr(f, x));
                lemma_extends_trans(c, c1, jit_code(e, c).0);
            }
        },
    }
}

/// Lowering a ready tree whose variables are parameters keeps a
/// well-formed list well formed, and its value is defined.
pub proof fn law_jit_code_wf(e: ExprV, c: Seq<JInstr>, nargs: int)
    requires
        aot_ready(e),
        vars_below(e, nargs),
        code_wf(c, nargs),
        jit_code(e, c).0.len() <= usize::MAX,
    ensures
        code_wf(jit_code(e, c).0, nargs),
        jval_ok(jit_code(e, c).1, jit_code(e, c).0.len() as int, nargs),
    decreases e,
{
    lemma_jit_grows(e, c);
    match e {
        ExprV::Num(v) => {
            lemma_append_wf(c, JInstr::Const(v), nargs);
        },
        ExprV::Var(_) => {},
        ExprV::Neg(a) => {
            lemma_jit_grows(*a, c);
            law_jit_code_wf(*a, c, nargs);
            let (c1, x) = jit_code(*a, c);
            lemma_append_wf(c1, JInstr::Neg(x), nargs);
        },
        ExprV::IPow(a, n) => {
            lemma_jit_grows(*a, c);
            let (c1, x) = jit_code(*a, c);
            lemma_ipow_grows(c1, x, n);
            law_jit_code_wf(*a, c, nargs);
            if n == 0 {
                lemma_append_wf(c1, JInstr::Const(ONE_BITS), nargs);
            } else {
                let m = abs_i32(n) as nat;
                let (c2, r) = sq_loop(c1, m, x, None);
                lemma_sq_loop_grows(c1, m, x, None);
                lemma_sq_loop_some(c1, m, x, None);
                lemma_sq_loop_wf(c1, m, x, None, nargs);
                if n < 0 {
                    let (c3, one) = append(c2, JInstr::Const(ONE_BITS));
                    lemma_append_wf(c2, JInstr::Const(ONE_BITS), nargs);
                    lemma_append_wf(c3, JInstr::Div(one, r->0), nargs);
                }
            }
        },
        ExprV::Add(a, b) | ExprV::Sub(a, b) | ExprV::Mul(a, b) | ExprV::Div(a, b) | ExprV::Pow(a, b) => {
            lemma_jit_grows(*a, c);
            let (c1, x) = jit_code(*a, c);
            lemma_jit_grows(*b, c1);
            let (c2, y) = jit_code(*b, c1);
            law_jit_code_wf(*a, c, nargs);
            law_jit_code_wf(*b, c1, nargs);
            let i = match e {
                ExprV::Add(_, _) => JInstr::Add(x, y),
                ExprV::Sub(_, _) => JInstr::Sub(x, y),
                ExprV::Mul(_, _) => JInstr::Mul(x, y),
                ExprV::Div(_, _) => JInstr::Div(x, y),
                _ => JInstr::Powf(x, y),
            };
            assert(jit_code(e, c) == append(c2, i));
            lemma_append_wf(c2, i, nargs);
        },
        ExprV::Call(f, args) => {
            lemma_seq_props(args, Import::Exp);
            assert(aot_ready(args[0]));
            assert(vars_below(args[0], nargs));
            lemma_jit_grows(args[0], c);
            let (c1, x) = jit_code(args[0], c);
            if f == Func::Pow && args.len() == 2 {
                assert(aot_ready(args[1]));
                assert(vars_below(args[1], nargs));
                lemma_jit_grows(args[1], c1);
                let (c2, y) = jit_code(args[1], c1);
                law_jit_code_wf(args[0], c, nargs);
                law_jit_code_wf(args[1], c1, nargs);
                lemma_append_wf(c2, JInstr::Powf(x, y), nargs);
            } else {
                law_jit_code_wf(args[0], c, nargs);
                lemma_append_wf(c1, unary_jinstr(f, x), nargs);
            }
        },
    }
}


/// The tree that value `v` computes, for instructions before position `k`
/// of `code`; parameter `i` is `Var(i)`.
pub open spec fn sym_val(code: Seq<JInstr>, v: JVal, k: int) -> ExprV
    decreases k, 0int,
{
    match v {
        JVal::Arg(i) => ExprV::Var(i),
        JVal::Inst(j) => if j < k {
            sym_inst(code, j as int)
        } else {
            ExprV::Num(0)
        },
    }
}

/// The tree that instruction `k` of `code` computes.
pub open spec fn sym_inst(code: Seq<JInstr>, k: int) -> ExprV
    decreases k, 1int,
{
    if 0 <= k < code.len() {
        match code[k] {
            JInstr::Const(b) => ExprV::Num(b),
            JInstr::Neg(x) => ExprV::Neg(Box::new(sym_val(code, x, k))),
            JInstr::Add(x, y) => ExprV::Add(Box::new(sym_val(code, x, k)), Box::new(sym_val(code, y, k))),
            JInstr::Sub(x, y) => ExprV::Sub(Box::new(sym_val(code, x, k)), Box::new(sym_val(code, y, k))),
            JInstr::Mul(x, y) => ExprV::Mul(Box::new(sym_val(code, x, k)), Box::new(sym_val(code, y, k))),
            JInstr::Div(x, y) => ExprV::Div(Box::new(sym_val(code, x, k)), Box::new(sym_val(code, y, k))),
            JInstr::Sqrt(x) => ExprV::Call(Func::Sqrt, seq![sym_val(code, x, k)]),
            JInstr::Abs(x) => ExprV::Call(Func::Abs, seq![sym_val(code, x, k)]),
            JInstr::Call1(i, x) => ExprV::Call(host_func(i), seq![sym_val(code, x, k)]),
            JInstr::Powf(x, y) => ExprV::Pow(Box::new(sym_val(code, x, k)), Box::new(sym_val(code, y, k))),
        }
    } else {
        ExprV::Num(0)
    }
}

/// The tree that `v` computes in the whole of `code`.
pub open spec fn value_of(code: Seq<JInstr>, v: JVal) -> ExprV {
    sym_val(code, v, code.len() as int)
}

/// When `t` is a product of copies of `x`, the number of copies.
pub open spec fn mul_leaves(t: ExprV, x: ExprV) -> Option<nat>
    decreases t,
{
    if t == x {
        Some(1)
    } else {
        match t {
            ExprV::Mul(a, b) => match (mul_leaves(*a, x), mul_leaves(*b, x)) {
                (Some(p), Some(q)) => Some(p + q),
                _ => None,
            },
            _ => None,
        }
    }
}

/// The squaring loop on trees: `acc` squared at each remaining bit, and
/// multiplied into the running result at each set bit.
pub open spec fn sq_tree(e: nat, acc: ExprV, res: Option<ExprV>) -> Option<ExprV>
    decreases e,
{
    if e == 0 {
        res
    } else {
        let r1 = if e % 2 == 1 {
            Some(
                match res {
                    Some(r) => ExprV::Mul(Box::new(r), Box::new(acc)),
                    None => acc,
                },
            )
        } else {
            res
        };
        if e / 2 > 0 {
            sq_tree(e / 2, ExprV::Mul(Box::new(acc), Box::new(acc)), r1)
        } else {
            r1
        }
    }
}

/// `x^n` as the plan computes it: `1.0`, or the squaring product of `|n|`
/// copies of `x`, or its reciprocal.
pub open spec fn power_tree(x: ExprV, n: i32) -> ExprV {
    if n == 0 {
        ExprV::Num(ONE_BITS)
    } else {
        let p = sq_tree(abs_i32(n) as nat, x, None)->0;
        if n < 0 {
            ExprV::Div(Box::new(ExprV::Num(ONE_BITS)), Box::new(p))
        } else {
            p
        }
    }
}

/// The tree a plan for `e` computes: `lower(e)`, with each integer power
/// written as `power_tree`.
pub open spec fn jit_expand(e: ExprV) -> ExprV
    decreases e,
{
    match e {
        ExprV::Num(_) | ExprV::Var(_) => e,
        ExprV::Neg(a) => ExprV::Neg(Box::new(jit_expand(*a))),
        ExprV::Add(a, b) => ExprV::Add(Box::new(jit_expand(*a)), Box::new(jit_expand(*b))),
        ExprV::Sub(a, b) => ExprV::Sub(Box::new(jit_expand(*a)), Box::new(jit_expand(*b))),
        ExprV::Mul(a, b) => ExprV::Mul(Box::new(jit_expand(*a)), Box::new(jit_expand(*b))),
        ExprV::Div(a, b) => ExprV::Div(Box::new(jit_expand(*a)), Box::new(jit_expand(*b))),
        ExprV::Pow(a, b) => ExprV::Pow(Box::new(jit_expand(*a)), Box::new(jit_expand(*b))),
        ExprV::IPow(a, n) => power_tree(jit_expand(*a), n),
        ExprV::Call(f, args) => if f == Func::Pow && args.len() == 2 {
            ExprV::Pow(Box::new(jit_expand(args[0])), Box::new(jit_expand(args[1])))
        } else if args.len() >= 1 {
            ExprV::Call(f, seq![jit_expand(args[0])])
        } else {
            e
        },
    }
}

proof fn lemma_sym_prefix(code: Seq<JInstr>, code2: Seq<JInstr>, k: int)
    requires
        extends(code, code2),
        0 <= k < code.len(),
    ensures
        sym_inst(code2, k) == sym_inst(code, k),
    decreases k,
{
    assert(code2.subrange(0, code.len() as int)[k] == code2[k]);
    assert(code2[k] == code[k]);
    assert forall|v: JVal| sym_val(code2, v, k) == sym_val(code, v, k) by {
        if let JVal::Inst(j) = v {
            if j < k {
                lemma_sym_prefix(code, code2, j as int);
            }
        }
    }
    match code[k] {
        JInstr::Const(_) => {},
        JInstr::Neg(x) | JInstr::Sqrt(x) | JInstr::Abs(x) | JInstr::Call1(_, x) => {
            assert(sym_val(code2, x, k) == sym_val(code, x, k));
        },
        JInstr::Add(x, y) | JInstr::Sub(x, y) | JInstr::Mul(x, y) | JInstr::Div(x, y) | JInstr::Powf(x, y) => {
            assert(sym_val(code2, x, k) == sym_val(code, x, k));
            assert(sym_val(code2, y, k) == sym_val(code, y, k));
        },
    }
}

/// A defined value keeps its tree as code is appended.
proof fn lemma_val_stable(code: Seq<JInstr>, code2: Seq<JInstr>, v: JVal, k: int, k2: int, nargs: int)
    requires
        extends(code, code2),
        jval_ok(v, k, nargs),
        k <= code.len(),
        k <= k2,
    ensures
        sym_val(code2, v, k2) == sym_val(code, v, k),
{
    if let JVal::Inst(j) = v {
        lemma_sym_prefix(code, code2, j as int);
    }
}

proof fn lemma_leaves_size(t: ExprV, x: ExprV)
    ensures
        mul_leaves(t, x) matches Some(k) ==> k >= 1 && size(t) >= size(x),
    decreases t,
{
    if t != x {
        if let ExprV::Mul(a, b) = t {
            lemma_leaves_size(*a, x);
            lemma_leaves_size(*b, x);
        }
    }
}

/// The product of two products of copies of `x`.
proof fn lemma_leaves_mul(p: ExprV, q: ExprV, x: ExprV, a: nat, b: nat)
    requires
        mul_leaves(p, x) == Some(a),
        mul_leaves(q, x) == Some(b),
    ensures
        mul_leaves(ExprV::Mul(Box::new(p), Box::new(q)), x) == Some(a + b),
{
    lemma_leaves_size(p, x);
    assert(size(ExprV::Mul(Box::new(p), Box::new(q))) > size(p));
}

/// The squaring loop on trees: when `acc` is a product of `a` copies of `x`
/// and the running result one of `r` copies (none yet: `r == 0`), it ends
/// with a product of `r + a * e` copies.
proof fn lemma_sq_tree_leaves(e: nat, acc: ExprV, res: Option<ExprV>, x: ExprV, a: nat, r: nat)
    requires
        mul_leaves(acc, x) == Some(a),
        res matches Some(v) ==> mul_leaves(v, x) == Some(r),
        res is None ==> r == 0,
        e >= 1 || res is Some,
    ensures
        sq_tree(e, acc, res) matches Some(v) && mul_leaves(v, x) == Some(r + a * e),
    decreases e,
{
    if e == 0 {
        assert(r + a * e == r) by (nonlinear_arith)
            requires
                e == 0,
        ;
    } else {
        let r1 = if e % 2 == 1 {
            Some(
                match res {
                    Some(v) => ExprV::Mul(Box::new(v), Box::new(acc)),
                    None => acc,
                },
            )
        } else {
            res
        };
        let rc1: nat = if e % 2 == 1 { r + a } else { r };
        if e % 2 == 1 {
            if let Some(v) = res {
                lemma_leaves_mul(v, acc, x, r, a);
            }
        }
        let e2 = e / 2;
        if e2 > 0 {
            lemma_leaves_mul(acc, acc, x, a, a);
            lemma_sq_tree_leaves(e2, ExprV::Mul(Box::new(acc), Box::new(acc)), r1, x, a + a, rc1);
            assert(rc1 + (a + a) * e2 == r + a * e) by (nonlinear_arith)
                requires
                    rc1 == (if e % 2 == 1 { r + a } else { r }),
                    e2 == e / 2,
                    e >= 1,
            ;
        } else {
            assert(e == 1);
            assert(rc1 == r + a * e) by (nonlinear_arith)
                requires
                    rc1 == r + a,
                    e == 1,
            ;
        }
    }
}

/// A power tree of `x` with exponent `n != 0` is a product of exactly `|n|`
/// copies of `x` (its reciprocal when `n < 0`): it computes `x^n`.
pub proof fn law_power_tree(x: ExprV, n: i32)
    requires
        n != 0,
    ensures
        sq_tree(abs_i32(n) as nat, x, None) matches Some(p) && mul_leaves(p, x) == Some(abs_i32(n) as nat),
{
    lemma_sq_tree_leaves(abs_i32(n) as nat, x, None, x, 1, 0);
    assert(0 + 1 * (abs_i32(n) as nat) == abs_i32(n) as nat);
}

/// The squaring loop on instructions computes the squaring loop on trees.
proof fn lemma_sq_values(c: Seq<JInstr>, e: nat, acc: JVal, res: Option<JVal>, nargs: int)
    requires
        code_wf(c, nargs),
        jval_ok(acc, c.len() as int, nargs),
        res matches Some(v) ==> jval_ok(v, c.len() as int, nargs),
        sq_loop(c, e, acc, res).0.len() <= usize::MAX,
    ensures
        ({
            let (o, r) = sq_loop(c, e, acc, res);
            sq_tree(e, value_of(c, acc), match res { Some(v) => Some(value_of(c, v)), None => None }) == match r {
                Some(v) => Some(value_of(o, v)),
                None => None,
            }
        }),
    decreases e,
{
    lemma_sq_loop_grows(c, e, acc, res);
    lemma_extends_refl(c);
    if e > 0 {
        let (c1, r1) = if e % 2 == 1 {
            match res {
                Some(v) => (c.push(JInstr::Mul(v, acc)), Some(JVal::Inst(c.len() as usize))),
                None => (c, Some(acc)),
            }
        } else {
            (c, res)
        };
        let av = value_of(c, acc);
        let rv = match res { Some(v) => Some(value_of(c, v)), None => None };
        let rt1 = if e % 2 == 1 {
            Some(
                match rv {
                    Some(r) => ExprV::Mul(Box::new(r), Box::new(av)),
                    None => av,
                },
            )
        } else {
            rv
        };
        if e % 2 == 1 {
            if let Some(v) = res {
                lemma_append_extends(c, JInstr::Mul(v, acc));
                lemma_append_wf(c, JInstr::Mul(v, acc), nargs);
                lemma_val_stable(c, c1, v, c.len() as int, c.len() as int, nargs);
                lemma_val_stable(c, c1, acc, c.len() as int, c.len() as int, nargs);
                assert(c1[c.len() as int] == JInstr::Mul(v, acc));
            }
        }
        assert(extends(c, c1));
        lemma_val_stable(c, c1, acc, c.len() as int, c1.len() as int, nargs);
        assert(match r1 { Some(v) => Some(value_of(c1, v)), None => None } == rt1) by {
            if let Some(v) = res {
                lemma_val_stable(c, c1, v, c.len() as int, c1.len() as int, nargs);
            }
        }
        if e / 2 > 0 {
            let c2 = c1.push(JInstr::Mul(acc, acc));
            let acc2 = JVal::Inst(c1.len() as usize);
            lemma_append_extends(c1, JInstr::Mul(acc, acc));
            lemma_sq_loop_grows(c2, e / 2, acc2, r1);
            lemma_append_wf(c1, JInstr::Mul(acc, acc), nargs);
            lemma_val_stable(c1, c2, acc, c1.len() as int, c1.len() as int, nargs);
            assert(c2[c1.len() as int] == JInstr::Mul(acc, acc));
            assert(value_of(c2, acc2) == ExprV::Mul(Box::new(av), Box::new(av)));
            if let Some(v) = r1 {
                lemma_val_stable(c1, c2, v, c1.len() as int, c2.len() as int, nargs);
            }
            lemma_sq_values(c2, e / 2, acc2, r1, nargs);
        }
    }
}

/// The two-operand step of a lowering: operands valued in `c1` and `c2`,
/// their node appended to `c2`.
proof fn lemma_pair_values(c1: Seq<JInstr>, c2: Seq<JInstr>, x: JVal, y: JVal, i: JInstr, nargs: int)
    requires
        extends(c1, c2),
        jval_ok(x, c1.len() as int, nargs),
        jval_ok(y, c2.len() as int, nargs),
        c2.len() < usize::MAX,
    ensures
        sym_val(append(c2, i).0, x, c2.len() as int) == value_of(c1, x),
        sym_val(append(c2, i).0, y, c2.len() as int) == value_of(c2, y),
        value_of(append(c2, i).0, append(c2, i).1) == sym_inst(append(c2, i).0, c2.len() as int),
{
    let out = append(c2, i).0;
    lemma_append_extends(c2, i);
    lemma_extends_trans(c1, c2, out);
    lemma_val_stable(c1, out, x, c1.len() as int, c2.len() as int, nargs);
    lemma_val_stable(c2, out, y, c2.len() as int, c2.len() as int, nargs);
}


/// The value of the lowering of `e` is `jit_expand(e)`.
#[verifier::spinoff_prover]
#[verifier::rlimit(60)]
pub proof fn law_jit_meaning(e: ExprV, c: Seq<JInstr>, nargs: int)
    requires
        aot_ready(e),
        vars_below(e, nargs),
        code_wf(c, nargs),
        jit_code(e, c).0.len() <= usize::MAX,
    ensures
        value_of(jit_code(e, c).0, jit_code(e, c).1) == jit_expand(e),
    decreases e,
{
    lemma_jit_grows(e, c);
    match e {
        ExprV::Num(v) => {
            let out = jit_code(e, c).0;
            assert(out[c.len() as int] == JInstr::Const(v));
            assert(sym_inst(out, c.len() as int) == ExprV::Num(v));
            assert(value_of(out, jit_code(e, c).1) == sym_inst(out, c.len() as int));
        },
        ExprV::Var(_) => {},
        ExprV::Neg(a) => {
            lemma_jit_grows(*a, c);
            law_jit_code_wf(*a, c, nargs);
            law_jit_meaning(*a, c, nargs);
            let (c1, x) = jit_code(*a, c);
            lemma_extends_refl(c1);
            lemma_pair_values(c1, c1, x, x, JInstr::Neg(x), nargs);
            assert(append(c1, JInstr::Neg(x)).0[c1.len() as int] == JInstr::Neg(x));
        },
        ExprV::IPow(a, n) => {
            lemma_jit_grows(*a, c);
            let (c1, x) = jit_code(*a, c);
            lemma_ipow_grows(c1, x, n);
            law_jit_code_wf(*a, c, nargs);
            law_jit_meaning(*a, c, nargs);
            if n == 0 {
                let out = append(c1, JInstr::Const(ONE_BITS)).0;
                assert(out[c1.len() as int] == JInstr::Const(ONE_BITS));
                assert(sym_inst(out, c1.len() as int) == ExprV::Num(ONE_BITS));
            } else {
                let m = abs_i32(n) as nat;
                lemma_sq_loop_grows(c1, m, x, None);
                lemma_sq_loop_wf(c1, m, x, None, nargs);
                lemma_sq_loop_some(c1, m, x, None);
                lemma_sq_values(c1, m, x, None, nargs);
                let (c2, r) = sq_loop(c1, m, x, None);
                let rv = r->0;
                if n < 0 {
                    let (c3, one) = append(c2, JInstr::Const(ONE_BITS));
                    lemma_append_extends(c2, JInstr::Const(ONE_BITS));
                    lemma_append_wf(c2, JInstr::Const(ONE_BITS), nargs);
                    lemma_pair_values(c2, c3, rv, one, JInstr::Div(one, rv), nargs);
                    let out = append(c3, JInstr::Div(one, rv)).0;
                    assert(out[c3.len() as int] == JInstr::Div(one, rv));
                    lemma_append_extends(c3, JInstr::Div(one, rv));
                    lemma_sym_prefix(c3, out, c2.len() as int);
                    assert(c3[c2.len() as int] == JInstr::Const(ONE_BITS));
                    assert(sym_val(out, one, c3.len() as int) == ExprV::Num(ONE_BITS));
                }
            }
        },
        ExprV::Add(a, b) | ExprV::Sub(a, b) | ExprV::Mul(a, b) | ExprV::Div(a, b) | ExprV::Pow(a, b) => {
            lemma_jit_grows(*a, c);
            let (c1, x) = jit_code(*a, c);
            lemma_jit_grows(*b, c1);
            let (c2, y) = jit_code(*b, c1);
            law_jit_code_wf(*a, c, nargs);
            law_jit_code_wf(*b, c1, nargs);
            law_jit_meaning(*a, c, nargs);
            law_jit_meaning(*b, c1, nargs);
            let i = match e {
                ExprV::Add(_, _) => JInstr::Add(x, y),
                ExprV::Sub(_, _) => JInstr::Sub(x, y),
                ExprV::Mul(_, _) => JInstr::Mul(x, y),
                ExprV::Div(_, _) => JInstr::Div(x, y),
                _ => JInstr::Powf(x, y),
            };
            assert(jit_code(e, c) == append(c2, i));
            lemma_pair_values(c1, c2, x, y, i, nargs);
            assert(append(c2, i).0[c2.len() as int] == i);
        },
        ExprV::Call(f, args) => {
            lemma_seq_props(args, Import::Exp);
            assert(aot_ready(args[0]));
            assert(vars_below(args[0], nargs));
            lemma_jit_grows(args[0], c);
            let (c1, x) = jit_code(args[0], c);
            if f == Func::Pow && args.len() == 2 {
                assert(aot_ready(args[1]));
                assert(vars_below(args[1], nargs));
                lemma_jit_grows(args[1], c1);
                let (c2, y) = jit_code(args[1], c1);
                lemma_append_extends(c2, JInstr::Powf(x, y));
                law_jit_code_wf(args[0], c, nargs);
                law_jit_meaning(args[0], c, nargs);
                law_jit_code_wf(args[1], c1, nargs);
                law_jit_meaning(args[1], c1, nargs);
                lemma_pair_values(c1, c2, x, y, JInstr::Powf(x, y), nargs);
                assert(append(c2, JInstr::Powf(x, y)).0[c2.len() as int] == JInstr::Powf(x, y));
            } else {
                let i = unary_jinstr(f, x);
                lemma_append_extends(c1, i);
                law_jit_code_wf(args[0], c, nargs);
                law_jit_meaning(args[0], c, nargs);
                lemma_extends_refl(c1);
                lemma_pair_values(c1, c1, x, x, i, nargs);
                assert(append(c1, i).0[c1.len() as int] == i);
                let s = seq![value_of(c1, x)];
                assert(s[0] == value_of(c1, x));
            }
        },
    }
}

/// The parameter names of the JIT-compiled function, in order.
pub open spec fn jit_vars() -> Seq<Seq<char>> {
    seq!["r"@, "eps"@, "sig"@]
}

/// Compile `toks` over the parameters `r, eps, sig` and plan its body.
pub fn jit_compile(toks: Vec<Tok>) -> (res: Result<JitPlan, String>)
    requires
        parse_all(toks_view(toks@), jit_vars()) matches Ok(e) ==> aot_ready(opt(e)),
    ensures
        match (res, parse_all(toks_view(toks@), jit_vars())) {
            (Ok(p), Ok(e)) => (p.code@, p.result) == jit_code(opt(e), Seq::empty()) && plan_wf(p.code@, p.result, 3)
                && value_of(p.code@, p.result) == jit_expand(opt(e)),
            (Err(m), Err(sm)) => m@ == sm,
            _ => false,
        },
{
    let vars: [&str; 3] = ["r", "eps", "sig"];
    assert(vars_view(vars@) =~= jit_vars());
    let expr = match compile(toks, &vars) {
        Ok(e) => e,
        Err(m) => return Err(m),
    };
    proof {
        let t = toks_view(toks@);
        if let Ok(e) = parse_all(t, jit_vars()) {
            lemma_parse_scoped(t, jit_vars(), 0, 0, ExprV::Num(0));
            lemma_opt_scoped(e, 3);
        }
    }
    Ok(jit_plan(&expr))
}

} // verus!
