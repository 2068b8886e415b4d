//! A symbolic reading of the emitted WebAssembly code: a stack machine whose
//! values are expression trees. Running the code that `emit_code` produces
//! leaves the tree it computes on the stack, which shows that every
//! instruction finds its operands, every local and call index is in range,
//! and a body holds exactly one `f64` at its `end`.
use vstd::prelude::*;
use crate::dsl::expr::{ExprV, Func};
use crate::dsl::program::vars_below;
use crate::dsl::token::TokV;
use crate::dsl::parser::parse_all;
use crate::dsl::optimize::opt;
use crate::dsl::laws::{lemma_parse_scoped, lemma_opt_scoped};
use crate::aot::{
    Import, WInstr, ONE_BITS, abs_i32, ipow_code, unary_code, emit_code, import_of, uses,
    aot_ready, lemma_seq_props, slot, FuncIdx, marks, indices_of, needed_imports, needed_upto, import_at,
    import_ord,
};

verus! {

/// The library function that host import `k` computes.
pub open spec fn host_func(k: Import) -> Func {
    match k {
        Import::Exp => Func::Exp,
        Import::Ln => Func::Ln,
        Import::Log10 => Func::Log,
        Import::Sin => Func::Sin,
        Import::Cos => Func::Cos,
        Import::Tan => Func::Tan,
        Import::Powf => Func::Pow,
    }
}

/// The node that a binary instruction builds from its two operands.
pub open spec fn bin_node(i: WInstr, a: ExprV, b: ExprV) -> ExprV {
    match i {
        WInstr::F64Add => ExprV::Add(Box::new(a), Box::new(b)),
        WInstr::F64Sub => ExprV::Sub(Box::new(a), Box::new(b)),
        WInstr::F64Mul => ExprV::Mul(Box::new(a), Box::new(b)),
        WInstr::F64Div => ExprV::Div(Box::new(a), Box::new(b)),
        _ => ExprV::Pow(Box::new(a), Box::new(b)),
    }
}

/// Replace the top two stack values `a b` by `bin_node(i, a, b)`.
pub open spec fn apply2(i: WInstr, st: Seq<ExprV>) -> Option<Seq<ExprV>> {
    if st.len() >= 2 {
        Some(st.take(st.len() - 2).push(bin_node(i, st[st.len() - 2], st.last())))
    } else {
        None
    }
}

/// Replace the top stack value `a` by `Call(f, [a])`.
pub open spec fn apply1(f: Func, st: Seq<ExprV>) -> Option<Seq<ExprV>> {
    if st.len() >= 1 {
        Some(st.drop_last().push(ExprV::Call(f, seq![st.last()])))
    } else {
        None
    }
}

pub open spec fn with_locals(st: Option<Seq<ExprV>>, loc: Seq<ExprV>) -> Option<(Seq<ExprV>, Seq<ExprV>)> {
    match st {
        Some(s) => Some((s, loc)),
        None => None,
    }
}

/// One instruction on a stack and the locals, with `imps` the imported
/// functions; `None` where the instruction would be ill-typed (a missing
/// operand, a local or function index out of range).
pub open spec fn step(i: WInstr, imps: Seq<Import>, s: (Seq<ExprV>, Seq<ExprV>)) -> Option<(Seq<ExprV>, Seq<ExprV>)> {
    let (st, loc) = s;
    match i {
        WInstr::F64Const(b) => Some((st.push(ExprV::Num(b)), loc)),
        WInstr::LocalGet(k) => if k < loc.len() {
            Some((st.push(loc[k as int]), loc))
        } else {
            None
        },
        WInstr::LocalSet(k) => if k < loc.len() && st.len() >= 1 {
            Some((st.drop_last(), loc.update(k as int, st.last())))
        } else {
            None
        },
        WInstr::F64Neg => if st.len() >= 1 {
            Some((st.drop_last().push(ExprV::Neg(Box::new(st.last()))), loc))
        } else {
            None
        },
        WInstr::F64Add | WInstr::F64Sub | WInstr::F64Mul | WInstr::F64Div => with_locals(apply2(i, st), loc),
        WInstr::F64Sqrt => with_locals(apply1(Func::Sqrt, st), loc),
        WInstr::F64Abs => with_locals(apply1(Func::Abs, st), loc),
        WInstr::Call(k) => if k < imps.len() {
            if imps[k as int] == Import::Powf {
                with_locals(apply2(i, st), loc)
            } else {
                with_locals(apply1(host_func(imps[k as int]), st), loc)
            }
        } else {
            None
        },
        WInstr::Drop => if st.len() >= 1 {
            Some((st.drop_last(), loc))
        } else {
            None
        },
        WInstr::End => Some(s),
    }
}

/// Run `code` from state `s`.
pub open spec fn run(code: Seq<WInstr>, imps: Seq<Import>, s: (Seq<ExprV>, Seq<ExprV>)) -> Option<(Seq<ExprV>, Seq<ExprV>)>
    decreases code.len(),
{
    if code.len() == 0 {
        Some(s)
    } else {
        match step(code[0], imps, s) {
            Some(s1) => run(code.drop_first(), imps, s1),
            None => None,
        }
    }
}

/// `x * x * ... * x` with `k + 1` factors, multiplied from the left.
pub open spec fn mul_chain(x: ExprV, k: nat) -> ExprV
    decreases k,
{
    if k == 0 {
        x
    } else {
        ExprV::Mul(Box::new(mul_chain(x, (k - 1) as nat)), Box::new(x))
    }
}

/// `x^n` as the emitted code computes it: `1.0` for `n == 0`, else the
/// multiplication chain, then its reciprocal when `n < 0`.
pub open spec fn power_chain(x: ExprV, n: i32) -> ExprV {
    if n == 0 {
        ExprV::Num(ONE_BITS)
    } else {
        let c = mul_chain(x, (abs_i32(n) - 1) as nat);
        if n < 0 {
            ExprV::Div(Box::new(ExprV::Num(ONE_BITS)), Box::new(c))
        } else {
            c
        }
    }
}

/// The tree the emitted code computes for `e`: `lower(e)` with each integer
/// power written out as `power_chain`.
pub open spec fn expand(e: ExprV) -> ExprV
    decreases e,
{
    match e {
        ExprV::Num(_) | ExprV::Var(_) => e,
        ExprV::Neg(a) => ExprV::Neg(Box::new(expand(*a))),
        ExprV::Add(a, b) => ExprV::Add(Box::new(expand(*a)), Box::new(expand(*b))),
        ExprV::Sub(a, b) => ExprV::Sub(Box::new(expand(*a)), Box::new(expand(*b))),
        ExprV::Mul(a, b) => ExprV::Mul(Box::new(expand(*a)), Box::new(expand(*b))),
        ExprV::Div(a, b) => ExprV::Div(Box::new(expand(*a)), Box::new(expand(*b))),
        ExprV::Pow(a, b) => ExprV::Pow(Box::new(expand(*a)), Box::new(expand(*b))),
        ExprV::IPow(a, n) => power_chain(expand(*a), n),
        ExprV::Call(f, args) => if f == Func::Pow && args.len() == 2 {
            ExprV::Pow(Box::new(expand(args[0])), Box::new(expand(args[1])))
        } else if args.len() >= 1 {
            ExprV::Call(f, seq![expand(args[0])])
        } else {
            e
        },
    }
}

pub proof fn lemma_run_concat(a: Seq<WInstr>, b: Seq<WInstr>, imps: Seq<Import>, s: (Seq<ExprV>, Seq<ExprV>))
    ensures
        run(a + b, imps, s) == match run(a, imps, s) {
            Some(s1) => run(b, imps, s1),
            None => None,
        },
    decreases a.len(),
{
    if a.len() > 0 {
        assert((a + b)[0] == a[0]);
        assert((a + b).drop_first() =~= a.drop_first() + b);
        if let Some(s1) = step(a[0], imps, s) {
            lemma_run_concat(a.drop_first(), b, imps, s1);
        }
    } else {
        assert(a + b =~= b);
    }
}

pub proof fn lemma_run_one(i: WInstr, imps: Seq<Import>, s: (Seq<ExprV>, Seq<ExprV>))
    ensures
        run(seq![i], imps, s) == step(i, imps, s),
{
    assert(seq![i].drop_first() =~= Seq::<WInstr>::empty());
    if let Some(s1) = step(i, imps, s) {
        assert(run(Seq::<WInstr>::empty(), imps, s1) == Some(s1));
    }
}

/// The repeated `local.get base; f64.mul` pairs of an integer power.
pub open spec fn mul_pairs(base: u32, j: nat) -> Seq<WInstr> {
    Seq::new(2 * j, |k: int| if k % 2 == 0 { WInstr::LocalGet(base) } else { WInstr::F64Mul })
}

proof fn lemma_mul_pairs(base: u32, j: nat, x: ExprV, imps: Seq<Import>, st: Seq<ExprV>, loc: Seq<ExprV>)
    requires
        base < loc.len(),
        loc[base as int] == x,
    ensures
        run(mul_pairs(base, j), imps, (st.push(x), loc)) == Some((st.push(mul_chain(x, j)), loc)),
    decreases j,
{
    if j == 0 {
        assert(mul_pairs(base, j) =~= Seq::<WInstr>::empty());
    } else {
        let jm = (j - 1) as nat;
        lemma_mul_pairs(base, jm, x, imps, st, loc);
        let two = seq![WInstr::LocalGet(base), WInstr::F64Mul];
        assert(mul_pairs(base, j) =~= mul_pairs(base, jm) + two);
        lemma_run_concat(mul_pairs(base, jm), two, imps, (st.push(x), loc));
        let c = mul_chain(x, jm);
        let s1 = st.push(c).push(x);
        assert(step(WInstr::LocalGet(base), imps, (st.push(c), loc)) == Some((s1, loc)));
        assert(s1.take(s1.len() - 2) =~= st);
        assert(two.drop_first() =~= seq![WInstr::F64Mul]);
        assert(seq![WInstr::F64Mul].drop_first() =~= Seq::<WInstr>::empty());
        assert(st.push(mul_chain(x, j)) =~= s1.take(s1.len() - 2).push(bin_node(WInstr::F64Mul, s1[s1.len() - 2], s1.last())));
        assert(step(WInstr::F64Mul, imps, (s1, loc)) == Some((st.push(mul_chain(x, j)), loc)));
        lemma_run_one(WInstr::F64Mul, imps, (s1, loc));
        assert(run(two, imps, (st.push(c), loc)) == Some((st.push(mul_chain(x, j)), loc)));
    }
}


/// Run two instructions.
proof fn lemma_run_two(i: WInstr, j: WInstr, imps: Seq<Import>, s: (Seq<ExprV>, Seq<ExprV>))
    ensures
        run(seq![i, j], imps, s) == match step(i, imps, s) {
            Some(s1) => step(j, imps, s1),
            None => None,
        },
{
    assert(seq![i, j] =~= seq![i] + seq![j]);
    lemma_run_concat(seq![i], seq![j], imps, s);
    lemma_run_one(i, imps, s);
    if let Some(s1) = step(i, imps, s) {
        lemma_run_one(j, imps, s1);
    }
}

/// The code of `base^n` replaces the base on the stack by `power_chain`,
/// writing only the two scratch locals `nargs` and `nargs + 1`.
pub proof fn lemma_ipow_run(n: i32, nargs: u32, x: ExprV, imps: Seq<Import>, st: Seq<ExprV>, loc: Seq<ExprV>)
    requires
        nargs < u32::MAX,
        loc.len() == nargs + 2,
    ensures
        run(ipow_code(n, nargs), imps, (st.push(x), loc)) matches Some((st2, loc2)) && st2 == st.push(
            power_chain(x, n),
        ) && loc2.len() == loc.len() && forall|i: int| 0 <= i < nargs ==> loc2[i] == loc[i],
{
    let one = ExprV::Num(ONE_BITS);
    if n == 0 {
        lemma_run_two(WInstr::Drop, WInstr::F64Const(ONE_BITS), imps, (st.push(x), loc));
        assert(st.push(x).drop_last() =~= st);
        assert(ipow_code(n, nargs) == seq![WInstr::Drop, WInstr::F64Const(ONE_BITS)]);
    } else {
        let m = abs_i32(n);
        let jm = (m - 1) as nat;
        let pre = seq![WInstr::LocalSet(nargs), WInstr::LocalGet(nargs)];
        let chain = mul_pairs(nargs, jm);
        let nb = (nargs + 1) as u32;
        let recip = if n < 0 {
            seq![WInstr::LocalSet(nb), WInstr::F64Const(ONE_BITS), WInstr::LocalGet(nb), WInstr::F64Div]
        } else {
            Seq::empty()
        };
        assert(ipow_code(n, nargs) =~= (pre + chain) + recip);
        // local.set base; local.get base
        let loc1 = loc.update(nargs as int, x);
        lemma_run_two(WInstr::LocalSet(nargs), WInstr::LocalGet(nargs), imps, (st.push(x), loc));
        assert(st.push(x).drop_last() =~= st);
        assert(run(pre, imps, (st.push(x), loc)) == Some((st.push(x), loc1)));
        // the multiplications
        lemma_mul_pairs(nargs, jm, x, imps, st, loc1);
        lemma_run_concat(pre, chain, imps, (st.push(x), loc));
        let c = mul_chain(x, jm);
        assert(run(pre + chain, imps, (st.push(x), loc)) == Some((st.push(c), loc1)));
        lemma_run_concat(pre + chain, recip, imps, (st.push(x), loc));
        if n < 0 {
            let loc2 = loc1.update(nb as int, c);
            let r1 = seq![WInstr::LocalSet(nb), WInstr::F64Const(ONE_BITS)];
            let r2 = seq![WInstr::LocalGet(nb), WInstr::F64Div];
            assert(recip =~= r1 + r2);
            lemma_run_concat(r1, r2, imps, (st.push(c), loc1));
            lemma_run_two(WInstr::LocalSet(nb), WInstr::F64Const(ONE_BITS), imps, (st.push(c), loc1));
            assert(st.push(c).drop_last() =~= st);
            assert(run(r1, imps, (st.push(c), loc1)) == Some((st.push(one), loc2)));
            lemma_run_two(WInstr::LocalGet(nb), WInstr::F64Div, imps, (st.push(one), loc2));
            let s3 = st.push(one).push(c);
            assert(s3.take(s3.len() - 2) =~= st);
            assert(run(r2, imps, (st.push(one), loc2)) == Some((st.push(power_chain(x, n)), loc2)));
        } else {
            assert(run(recip, imps, (st.push(c), loc1)) == Some((st.push(c), loc1)));
        }
    }
}


/// Every host function that `e` uses has an import index in `m` under which
/// `imps` lists it.
pub open spec fn imports_cover(e: ExprV, m: FuncIdx, imps: Seq<Import>) -> bool {
    forall|k: Import| #[trigger] uses(e, k) ==> listed(m, imps, k)
}

/// Host function `k` has an import index in `m`, under which `imps` lists it.
pub open spec fn listed(m: FuncIdx, imps: Seq<Import>, k: Import) -> bool {
    slot(m, k) matches Some(j) && j < imps.len() && imps[j as int] == k
}

/// The locals of a function with `nargs` parameters at its entry: the
/// parameters, then the two scratch locals, zero.
pub open spec fn entry_locals(nargs: u32) -> Seq<ExprV> {
    Seq::new((nargs + 2) as nat, |i: int| if i < nargs { ExprV::Var(i as usize) } else { ExprV::Num(0) })
}

/// The instruction of a binary node.
pub open spec fn bin_instr(e: ExprV, m: FuncIdx) -> WInstr {
    match e {
        ExprV::Add(_, _) => WInstr::F64Add,
        ExprV::Sub(_, _) => WInstr::F64Sub,
        ExprV::Mul(_, _) => WInstr::F64Mul,
        ExprV::Div(_, _) => WInstr::F64Div,
        _ => WInstr::Call(m.powf->0),
    }
}

/// Code for `a`, code for `b`, then `op`: runs to `op` applied to both values.
proof fn lemma_run_pair(
    ca: Seq<WInstr>,
    cb: Seq<WInstr>,
    op: WInstr,
    imps: Seq<Import>,
    s0: (Seq<ExprV>, Seq<ExprV>),
    s1: (Seq<ExprV>, Seq<ExprV>),
    s2: (Seq<ExprV>, Seq<ExprV>),
)
    requires
        run(ca, imps, s0) == Some(s1),
        run(cb, imps, s1) == Some(s2),
    ensures
        run((ca + cb).push(op), imps, s0) == step(op, imps, s2),
{
    assert((ca + cb).push(op) =~= ca + (cb + seq![op]));
    lemma_run_concat(ca, cb + seq![op], imps, s0);
    lemma_run_concat(cb, seq![op], imps, s1);
    lemma_run_one(op, imps, s2);
}

/// Running the code emitted for `e` pushes `expand(e)`, reads only locals
/// that exist and calls only listed imports, and keeps the parameters.
#[verifier::spinoff_prover]
#[verifier::rlimit(60)]
pub proof fn lemma_emit_run(e: ExprV, nargs: u32, m: FuncIdx, imps: Seq<Import>, st: Seq<ExprV>, loc: Seq<ExprV>)
    requires
        aot_ready(e),
        vars_below(e, nargs as int),
        nargs < u32::MAX,
        loc.len() == nargs + 2,
        forall|i: int| 0 <= i < nargs ==> loc[i] == ExprV::Var(i as usize),
        imports_cover(e, m, imps),
    ensures
        run(emit_code(e, nargs, m), imps, (st, loc)) matches Some((st2, loc2)) && st2 == st.push(expand(e))
            && loc2.len() == loc.len() && forall|i: int| 0 <= i < nargs ==> loc2[i] == loc[i],
    decreases e,
{
    match e {
        ExprV::Num(v) => {
            lemma_run_one(WInstr::F64Const(v), imps, (st, loc));
        },
        ExprV::Var(i) => {
            assert(emit_code(e, nargs, m) == seq![WInstr::LocalGet(i as u32)]);
            lemma_run_one(WInstr::LocalGet(i as u32), imps, (st, loc));
        },
        ExprV::Neg(a) => {
            assert forall|k: Import| uses(*a, k) implies listed(m, imps, k) by {
                assert(uses(e, k));
            }
            lemma_emit_run(*a, nargs, m, imps, st, loc);
            let (s1, l1) = run(emit_code(*a, nargs, m), imps, (st, loc))->0;
            lemma_run_concat(emit_code(*a, nargs, m), seq![WInstr::F64Neg], imps, (st, loc));
            assert(emit_code(e, nargs, m) =~= emit_code(*a, nargs, m) + seq![WInstr::F64Neg]);
            lemma_run_one(WInstr::F64Neg, imps, (s1, l1));
            assert(s1.drop_last() =~= st);
        },
        ExprV::IPow(a, n) => {
            assert forall|k: Import| uses(*a, k) implies listed(m, imps, k) by {
                assert(uses(e, k));
            }
            lemma_emit_run(*a, nargs, m, imps, st, loc);
            let (s1, l1) = run(emit_code(*a, nargs, m), imps, (st, loc))->0;
            lemma_ipow_run(n, nargs, expand(*a), imps, st, l1);
            lemma_run_concat(emit_code(*a, nargs, m), ipow_code(n, nargs), imps, (st, loc));
        },
        ExprV::Add(a, b) | ExprV::Sub(a, b) | ExprV::Mul(a, b) | ExprV::Div(a, b) | ExprV::Pow(a, b) => {
            assert forall|k: Import| uses(*a, k) implies listed(m, imps, k) by {
                assert(uses(e, k));
            }
            lemma_emit_run(*a, nargs, m, imps, st, loc);
            let (s1, l1) = run(emit_code(*a, nargs, m), imps, (st, loc))->0;
            assert forall|k: Import| uses(*b, k) implies listed(m, imps, k) by {
                assert(uses(e, k));
            }
            lemma_emit_run(*b, nargs, m, imps, s1, l1);
            let (s2, l2) = run(emit_code(*b, nargs, m), imps, (s1, l1))->0;
            let op = bin_instr(e, m);
            assert(emit_code(e, nargs, m) == (emit_code(*a, nargs, m) + emit_code(*b, nargs, m)).push(op));
            lemma_run_pair(emit_code(*a, nargs, m), emit_code(*b, nargs, m), op, imps, (st, loc), (s1, l1), (s2, l2));
            if e is Pow {
                assert(uses(e, Import::Powf));
            }
            assert(s2.take(s2.len() - 2) =~= st);
        },
        ExprV::Call(f, args) => {
            lemma_seq_props(args, Import::Exp);
            assert(aot_ready(args[0]));
            assert(vars_below(args[0], nargs as int));
            assert forall|k: Import| uses(args[0], k) implies listed(m, imps, k) by {
                lemma_seq_props(args, k);
                assert(uses(e, k));
            }
            let (s1, l1) = run(emit_code(args[0], nargs, m), imps, (st, loc))->0;
            lemma_emit_run(args[0], nargs, m, imps, st, loc);
            if f == Func::Pow && args.len() == 2 {
                assert(aot_ready(args[1]));
                assert(vars_below(args[1], nargs as int));
                assert forall|k: Import| uses(args[1], k) implies listed(m, imps, k) by {
                    lemma_seq_props(args, k);
                    assert(uses(e, k));
                }
                lemma_emit_run(args[1], nargs, m, imps, s1, l1);
                let (s2, l2) = run(emit_code(args[1], nargs, m), imps, (s1, l1))->0;
                let op = WInstr::Call(m.powf->0);
                lemma_run_pair(emit_code(args[0], nargs, m), emit_code(args[1], nargs, m), op, imps, (st, loc), (s1, l1), (s2, l2));
                assert(uses(e, Import::Powf));
                assert(s2.take(s2.len() - 2) =~= st);
            } else {
                let op = unary_code(f, m);
                lemma_run_concat(emit_code(args[0], nargs, m), seq![op], imps, (st, loc));
                assert(emit_code(e, nargs, m) =~= emit_code(args[0], nargs, m) + seq![op]);
                lemma_run_one(op, imps, (s1, l1));
                assert(s1.drop_last() =~= st);
                if let Some(k) = import_of(f) {
                    assert(uses(e, k));
                }
            }
        },
    }
}


proof fn lemma_needed_len(n: FuncIdx, j: int)
    ensures
        needed_upto(n, j).len() <= if j < 0 { 0 } else { j },
    decreases j,
{
    if j > 0 {
        lemma_needed_len(n, j - 1);
    }
}

/// A marked import at position `j` of the import order sits, in every longer
/// list of needed imports, at the index of the count of marked ones before it.
proof fn lemma_needed_at(n: FuncIdx, j: int, big: int)
    requires
        0 <= j < big,
        slot(n, import_at(j)) is Some,
    ensures
        needed_upto(n, j).len() < needed_upto(n, big).len(),
        needed_upto(n, big)[needed_upto(n, j).len() as int] == import_at(j),
    decreases big,
{
    if big > j + 1 {
        lemma_needed_at(n, j, big - 1);
    }
}

/// The planned import indices list every host function the expression uses.
pub proof fn lemma_planned_imports_cover(e: ExprV)
    ensures
        imports_cover(e, indices_of(marks(e)), needed_imports(marks(e))),
{
    let n = marks(e);
    assert forall|k: Import| #[trigger] uses(e, k) implies listed(indices_of(n), needed_imports(n), k) by {
        let j = import_ord(k);
        assert(import_at(j) == k);
        assert(slot(n, k) is Some);
        lemma_needed_at(n, j, 7);
        lemma_needed_len(n, j);
    }
}

/// The body emitted for an expression ready for wasm over `nargs`
/// parameters, run from the function's entry, leaves exactly `expand(e)`:
/// every instruction finds its operands, every local index is below
/// `nargs + 2`, every call names a declared import, and one `f64` is left
/// at the final `end`.
pub proof fn law_emitted_body(e: ExprV, nargs: u32)
    requires
        aot_ready(e),
        vars_below(e, nargs as int),
        nargs < u32::MAX,
    ensures
        run(
            emit_code(e, nargs, indices_of(marks(e))).push(WInstr::End),
            needed_imports(marks(e)),
            (Seq::empty(), entry_locals(nargs)),
        ) matches Some((st, _)) && st == seq![expand(e)],
{
    let m = indices_of(marks(e));
    let imps = needed_imports(marks(e));
    let loc = entry_locals(nargs);
    lemma_planned_imports_cover(e);
    lemma_emit_run(e, nargs, m, imps, Seq::empty(), loc);
    let s1 = run(emit_code(e, nargs, m), imps, (Seq::empty(), loc))->0;
    lemma_run_concat(emit_code(e, nargs, m), seq![WInstr::End], imps, (Seq::empty(), loc));
    lemma_run_one(WInstr::End, imps, s1);
    assert(emit_code(e, nargs, m).push(WInstr::End) =~= emit_code(e, nargs, m) + seq![WInstr::End]);
    assert(Seq::<ExprV>::empty().push(expand(e)) =~= seq![expand(e)]);
}

/// For every source that compiles and is ready for wasm, the body of the
/// module's one function (see `module_plan`) leaves exactly the expanded
/// expression, as `law_emitted_body` says.
pub proof fn law_compiled_body(t: Seq<TokV>, v: Seq<Seq<char>>)
    requires
        v.len() < u32::MAX,
        parse_all(t, v) matches Ok(e) ==> aot_ready(opt(e)),
    ensures
        parse_all(t, v) matches Ok(e) ==> run(
            emit_code(opt(e), v.len() as u32, indices_of(marks(opt(e)))).push(WInstr::End),
            needed_imports(marks(opt(e))),
            (Seq::empty(), entry_locals(v.len() as u32)),
        ) matches Some((st, _)) && st == seq![expand(opt(e))],
{
    if let Ok(e) = parse_all(t, v) {
        lemma_parse_scoped(t, v, 0, 0, ExprV::Num(0));
        lemma_opt_scoped(e, v.len() as int);
        law_emitted_body(opt(e), v.len() as u32);
    }
}

} // verus!
