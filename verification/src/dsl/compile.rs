//! The compilation pipeline: tokens to an optimized tree or a flat program.
use vstd::prelude::*;
use super::expr::{Expr, ExprV, Func, args_view, lemma_args_view};
use super::token::{Tok, toks_view};
use super::parser::{parse_all, parse_only, vars_view};
use super::optimize::{opt, opt_args, lemma_opt_args, optimize};
use super::program::{
    Op, Program, Flattener, calls_have_args, all_calls_have_args, lemma_all_calls_have_args, flat,
    wf_ops, unfold, lower, ops_scoped, pow_binary,
};
use super::laws::law_program_shape;

verus! {

/// Parse `toks` into an optimized expression tree (integer powers folded to
/// `IPow`). `vars` lists the variable names in the order of the environment.
pub fn compile(toks: Vec<Tok>, vars: &[&str]) -> (res: Result<Expr, String>)
    ensures
        match (res, parse_all(toks_view(toks@), vars_view(vars@))) {
            (Ok(e), Ok(se)) => e@ == opt(se),
            (Err(m), Err(sm)) => m@ == sm,
            _ => false,
        },
{
    match parse_only(toks, vars) {
        Ok(e) => Ok(optimize(e)),
        Err(m) => Err(m),
    }
}

/// Same as `compile` but without the integer-power folding.
pub fn compile_unoptimized(toks: Vec<Tok>, vars: &[&str]) -> (res: Result<Expr, String>)
    ensures
        match (res, parse_all(toks_view(toks@), vars_view(vars@))) {
            (Ok(e), Ok(se)) => e@ == se,
            (Err(m), Err(sm)) => m@ == sm,
            _ => false,
        },
{
    parse_only(toks, vars)
}

/// Folding integer powers keeps every call's arguments.
pub proof fn lemma_opt_calls_have_args(e: ExprV)
    requires
        calls_have_args(e),
    ensures
        calls_have_args(opt(e)),
    decreases e,
{
    match e {
        ExprV::Neg(a) | ExprV::IPow(a, _) => {
            lemma_opt_calls_have_args(*a);
        },
        ExprV::Add(a, b) | ExprV::Sub(a, b) | ExprV::Mul(a, b) | ExprV::Div(a, b) | ExprV::Pow(a, b) => {
            lemma_opt_calls_have_args(*a);
            lemma_opt_calls_have_args(*b);
        },
        ExprV::Call(f, args) => {
            lemma_all_calls_have_args(args);
            lemma_opt_args(args);
            assert forall|i: int| 0 <= i < args.len() implies calls_have_args(#[trigger] opt(args[i])) by {
                lemma_opt_calls_have_args(args[i]);
            }
            if f == Func::Pow && args.len() == 2 {
                let s = seq![opt(args[0]), opt(args[1])];
                lemma_all_calls_have_args(s);
            } else {
                lemma_all_calls_have_args(opt_args(args));
            }
        },
        _ => {},
    }
}

/// Whether every call in `e` has at least one argument (a flattened call
/// reads its first argument).
pub fn calls_all_have_args(e: &Expr) -> (b: bool)
    ensures
        b == calls_have_args(e@),
    decreases e,
{
    match e {
        Expr::Num(_) | Expr::Var(_) => true,
        Expr::Neg(a) | Expr::IPow(a, _) => calls_all_have_args(a),
        Expr::Add(a, b) | Expr::Sub(a, b) | Expr::Mul(a, b) | Expr::Div(a, b) | Expr::Pow(a, b) =>
            calls_all_have_args(a) && calls_all_have_args(b),
        Expr::Call(f, args) => {
            proof {
                lemma_args_view(args@);
                lemma_all_calls_have_args(args_view(args@));
                vstd::std_specs::vec::axiom_vec_decreases_to_view(*args);
                assert(decreases_to!(e => e->Call_1));
            }
            if args.len() == 0 {
                return false;
            }
            let mut k: usize = 0;
            while k < args.len()
                invariant
                    k <= args@.len(),
                    forall|j: int| 0 <= j < k ==> calls_have_args(#[trigger] args@[j]@),
                    decreases_to!(e => args@),
                    e@ == ExprV::Call(*f, args_view(args@)),
                    args_view(args@).len() == args@.len(),
                    forall|j: int| 0 <= j < args@.len() ==> #[trigger] args_view(args@)[j] == args@[j]@,
                    all_calls_have_args(args_view(args@)) <==> forall|j: int| 0 <= j < args@.len() ==> calls_have_args(#[trigger] args_view(args@)[j]),
                decreases args@.len() - k,
            {
                proof {
                    vstd::seq::axiom_seq_index_decreases(args@, k as int);
                }
                if !calls_all_have_args(&args[k]) {
                    assert(args_view(args@)[k as int] == args@[k as int]@);
                    return false;
                }
                k = k + 1;
            }
            proof {
                assert forall|j: int| 0 <= j < args@.len() implies calls_have_args(#[trigger] args_view(args@)[j]) by {
                    assert(args_view(args@)[j] == args@[j]@);
                }
            }
            true
        },
    }
}

/// Parse, fold integer powers, and flatten to a program with common
/// subexpressions shared. Every call in the source must have an argument.
pub fn compile_program(toks: Vec<Tok>, vars: &[&str]) -> (res: Result<Program, String>)
    requires
        parse_all(toks_view(toks@), vars_view(vars@)) matches Ok(e) ==> calls_have_args(e),
    ensures
        match (res, parse_all(toks_view(toks@), vars_view(vars@))) {
            (Ok(p), Ok(se)) => {
                &&& (p.ops@, p.root as int) == flat(Seq::empty(), opt(se))
                &&& wf_ops(p.ops@)
                &&& unfold(p.ops@, p.root as int) == lower(opt(se))
                &&& p.root == p.ops@.len() - 1
                &&& ops_scoped(p.ops@, vars@.len() as int, pow_binary(se))
            },
            (Err(m), Err(sm)) => m@ == sm,
            _ => false,
        },
{
    let ghost t = toks_view(toks@);
    let ghost v = vars_view(vars@);
    let expr = match compile(toks, vars) {
        Ok(e) => e,
        Err(m) => return Err(m),
    };
    proof {
        if let Ok(se) = parse_all(t, v) {
            lemma_opt_calls_have_args(se);
        }
    }
    let mut f = Flattener { ops: Vec::new() };
    proof {
        assert(f.ops@ =~= Seq::<Op>::empty());
    }
    let root = f.build(&expr);
    let count = f.ops.len();
    let nvars = vars.len();
    proof {
        assert(v.len() == nvars);
        assert(flat(Seq::empty(), expr@).0.len() == count);
        super::program::lemma_flat(Seq::empty(), expr@);
        law_program_shape(t, v);
    }
    Ok(Program { ops: f.ops, root })
}

} // verus!
