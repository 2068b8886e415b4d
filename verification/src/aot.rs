//! Ahead-of-time compilation of a potential to a WebAssembly module exporting
//! `potential(vars...) -> f64`. The expression tree maps onto wasm's stack
//! machine by post-order emission; integer powers become multiplication
//! chains through two scratch locals; `sqrt` and `abs` are native
//! instructions; `exp ln log10 sin cos tan powf` are imported from `env`.
use vstd::prelude::*;
use crate::dsl::expr::{Expr, ExprV, Func, args_view, lemma_args_view};
use crate::dsl::token::{Tok, toks_view};
use crate::dsl::parser::{parse_all, vars_view};
use crate::dsl::optimize::opt;
use crate::dsl::compile::compile;
use crate::wasm::{
    new_type_section, add_f64_signature, new_import_section, import_function, new_function_section,
    declare_function, new_export_section, export_function, new_function_body, push_instruction,
    new_code_section, add_code, new_module, add_section, finish_module, SectionRef, SectionV,
    module_bytes, type_entries, import_entries, function_entries, export_entries, code_entries,
    body_locals, body_instrs, module_sections, section_view, body_size, types_size,
    imports_size, exports_size, code_size, leb_size, instr_size, instrs_size,
};
use vstd::utf8::encode_utf8;

verus! {

/// The host functions a module may import, in import order.
#[derive(Clone, Copy, Debug, PartialEq, Eq, Structural)]
pub enum Import {
    Exp,
    Ln,
    Log10,
    Sin,
    Cos,
    Tan,
    Powf,
}

pub open spec fn import_of(f: Func) -> Option<Import> {
    match f {
        Func::Exp => Some(Import::Exp),
        Func::Ln => Some(Import::Ln),
        Func::Log => Some(Import::Log10),
        Func::Sin => Some(Import::Sin),
        Func::Cos => Some(Import::Cos),
        Func::Tan => Some(Import::Tan),
        Func::Pow => Some(Import::Powf),
        Func::Sqrt | Func::Abs => None,
    }
}

/// Whether evaluating `e` calls host function `k`.
pub open spec fn uses(e: ExprV, k: Import) -> bool
    decreases e, 0int,
{
    match e {
        ExprV::Num(_) | ExprV::Var(_) => false,
        ExprV::Neg(a) | ExprV::IPow(a, _) => uses(*a, k),
        ExprV::Add(a, b) | ExprV::Sub(a, b) | ExprV::Mul(a, b) | ExprV::Div(a, b) => uses(*a, k) || uses(*b, k),
        ExprV::Pow(a, b) => k == Import::Powf || uses(*a, k) || uses(*b, k),
        ExprV::Call(f, args) => import_of(f) == Some(k) || uses_any(args, k),
    }
}

pub open spec fn uses_any(s: Seq<ExprV>, k: Import) -> bool
    decreases s, 1int,
{
    if s.len() == 0 {
        false
    } else {
        uses_any(s.subrange(0, s.len() - 1), k) || uses(s[s.len() - 1], k)
    }
}

/// Every call has an argument, and `pow` calls have exactly two.
pub open spec fn aot_ready(e: ExprV) -> bool
    decreases e, 0int,
{
    match e {
        ExprV::Num(_) | ExprV::Var(_) => true,
        ExprV::Neg(a) | ExprV::IPow(a, _) => aot_ready(*a),
        ExprV::Add(a, b) | ExprV::Sub(a, b) | ExprV::Mul(a, b) | ExprV::Div(a, b) | ExprV::Pow(a, b) =>
            aot_ready(*a) && aot_ready(*b),
        ExprV::Call(f, args) => args.len() >= 1 && (f == Func::Pow ==> args.len() == 2) && all_aot_ready(args),
    }
}

pub open spec fn all_aot_ready(s: Seq<ExprV>) -> bool
    decreases s, 1int,
{
    if s.len() == 0 {
        true
    } else {
        all_aot_ready(s.subrange(0, s.len() - 1)) && aot_ready(s[s.len() - 1])
    }
}

pub proof fn lemma_seq_props(s: Seq<ExprV>, k: Import)
    ensures
        all_aot_ready(s) <==> forall|i: int| 0 <= i < s.len() ==> aot_ready(#[trigger] s[i]),
        uses_any(s, k) <==> exists|i: int| 0 <= i < s.len() && uses(#[trigger] s[i], k),
    decreases s.len(),
{
    if s.len() > 0 {
        let p = s.subrange(0, s.len() - 1);
        lemma_seq_props(p, k);
        assert forall|i: int| 0 <= i < p.len() implies #[trigger] p[i] == s[i] by {}
        if forall|i: int| 0 <= i < s.len() ==> aot_ready(#[trigger] s[i]) {
            assert forall|i: int| 0 <= i < p.len() implies aot_ready(#[trigger] p[i]) by {
                assert(p[i] == s[i]);
            }
            assert(aot_ready(s[s.len() - 1]));
        }
        if all_aot_ready(s) {
            assert forall|i: int| 0 <= i < s.len() implies aot_ready(#[trigger] s[i]) by {
                if i < s.len() - 1 {
                    assert(p[i] == s[i]);
                }
            }
        }
        if exists|i: int| 0 <= i < s.len() && uses(#[trigger] s[i], k) {
            let i = choose|i: int| 0 <= i < s.len() && uses(#[trigger] s[i], k);
            if i < s.len() - 1 {
                assert(p[i] == s[i]);
            }
        }
        if uses_any(p, k) {
            let i = choose|i: int| 0 <= i < p.len() && uses(#[trigger] p[i], k);
            assert(p[i] == s[i]);
        }
    }
}

/// Assigned wasm function indices of the host imports (`None`: not imported).
#[derive(Clone, Copy, Debug)]
pub struct FuncIdx {
    pub exp: Option<u32>,
    pub ln: Option<u32>,
    pub log10: Option<u32>,
    pub sin: Option<u32>,
    pub cos: Option<u32>,
    pub tan: Option<u32>,
    pub powf: Option<u32>,
}

impl Default for FuncIdx {
    fn default() -> (r: FuncIdx)
        ensures
            forall|k: Import| #[trigger] slot(r, k) is None,
    {
        FuncIdx { exp: None, ln: None, log10: None, sin: None, cos: None, tan: None, powf: None }
    }
}

pub open spec fn slot(n: FuncIdx, k: Import) -> Option<u32> {
    match k {
        Import::Exp => n.exp,
        Import::Ln => n.ln,
        Import::Log10 => n.log10,
        Import::Sin => n.sin,
        Import::Cos => n.cos,
        Import::Tan => n.tan,
        Import::Powf => n.powf,
    }
}

fn mark(n: &mut FuncIdx, k: Import)
    ensures
        forall|j: Import| #[trigger] slot(*final(n), j) == if j == k { Some(0u32) } else { slot(*old(n), j) },
{
    match k {
        Import::Exp => n.exp = Some(0),
        Import::Ln => n.ln = Some(0),
        Import::Log10 => n.log10 = Some(0),
        Import::Sin => n.sin = Some(0),
        Import::Cos => n.cos = Some(0),
        Import::Tan => n.tan = Some(0),
        Import::Powf => n.powf = Some(0),
    }
}

/// Mark (as `Some(0)`) every host function `e` needs.
pub fn needs(e: &Expr, n: &mut FuncIdx)
    ensures
        forall|k: Import| #[trigger] slot(*final(n), k) == if uses(e@, k) { Some(0u32) } else { slot(*old(n), k) },
    decreases e,
{
    match e {
        Expr::Num(_) | Expr::Var(_) => {},
        Expr::Neg(a) | Expr::IPow(a, _) => needs(a, n),
        Expr::Add(a, b) | Expr::Sub(a, b) | Expr::Mul(a, b) | Expr::Div(a, b) => {
            needs(a, n);
            needs(b, n);
        },
        Expr::Pow(a, b) => {
            mark(n, Import::Powf);
            needs(a, n);
            needs(b, n);
        },
        Expr::Call(f, args) => {
            let ghost n0 = *n;
            match f {
                Func::Exp => mark(n, Import::Exp),
                Func::Ln => mark(n, Import::Ln),
                Func::Log => mark(n, Import::Log10),
                Func::Sin => mark(n, Import::Sin),
                Func::Cos => mark(n, Import::Cos),
                Func::Tan => mark(n, Import::Tan),
                Func::Pow => mark(n, Import::Powf),
                Func::Sqrt | Func::Abs => {},
            }
            proof {
                lemma_args_view(args@);
                vstd::std_specs::vec::axiom_vec_decreases_to_view(*args);
                assert(decreases_to!(e => e->Call_1));
            }
            let mut i: usize = 0;
            while i < args.len()
                invariant
                    i <= args@.len(),
                    decreases_to!(e => args@),
                    args_view(args@).len() == args@.len(),
                    forall|j: int| 0 <= j < args@.len() ==> #[trigger] args_view(args@)[j] == args@[j]@,
                    forall|k: Import| #[trigger] slot(*n, k) == if import_of(*f) == Some(k) || uses_any(args_view(args@).take(i as int), k) {
                        Some(0u32)
                    } else {
                        slot(n0, k)
                    },
                decreases args@.len() - i,
            {
                proof {
                    vstd::seq::axiom_seq_index_decreases(args@, i as int);
                }
                let ghost before = *n;
                needs(&args[i], n);
                proof {
                    let s = args_view(args@);
                    assert(s.take(i + 1).subrange(0, i as int) =~= s.take(i as int));
                    assert forall|k: Import| #[trigger] slot(*n, k) == if import_of(*f) == Some(k) || uses_any(s.take(i + 1), k) {
                        Some(0u32)
                    } else {
                        slot(n0, k)
                    } by {
                        assert(uses_any(s.take(i + 1), k) == (uses_any(s.take(i as int), k) || uses(s[i as int], k)));
                    }
                }
                i = i + 1;
            }
            proof {
                assert(args_view(args@).take(i as int) =~= args_view(args@));
            }
        },
    }
}


/// The host import at position `j` of the import order.
pub open spec fn import_at(j: int) -> Import {
    if j == 0 {
        Import::Exp
    } else if j == 1 {
        Import::Ln
    } else if j == 2 {
        Import::Log10
    } else if j == 3 {
        Import::Sin
    } else if j == 4 {
        Import::Cos
    } else if j == 5 {
        Import::Tan
    } else {
        Import::Powf
    }
}

pub open spec fn import_ord(k: Import) -> int {
    match k {
        Import::Exp => 0,
        Import::Ln => 1,
        Import::Log10 => 2,
        Import::Sin => 3,
        Import::Cos => 4,
        Import::Tan => 5,
        Import::Powf => 6,
    }
}

/// The marked imports among the first `j` of the import order, in that order.
pub open spec fn needed_upto(n: FuncIdx, j: int) -> Seq<Import>
    decreases j,
{
    if j <= 0 {
        Seq::empty()
    } else if slot(n, import_at(j - 1)) is Some {
        needed_upto(n, j - 1).push(import_at(j - 1))
    } else {
        needed_upto(n, j - 1)
    }
}

/// The imports a module declares: the marked ones, in import order.
pub open spec fn needed_imports(n: FuncIdx) -> Seq<Import> {
    needed_upto(n, 7)
}

/// Import indices: each marked import gets its position among the marked
/// ones; the unmarked stay unassigned.
pub open spec fn assigned(n: FuncIdx, m: FuncIdx) -> bool {
    forall|k: Import| #[trigger] slot(m, k) == if slot(n, k) is Some {
        Some(needed_upto(n, import_ord(k)).len() as u32)
    } else {
        None::<u32>
    }
}

/// Assign the import indices in import order; the declared imports in order.
pub fn assign_indices(n: &mut FuncIdx) -> (imports: Vec<Import>)
    ensures
        assigned(*old(n), *final(n)),
        imports@ == needed_imports(*old(n)),
{
    let ghost n0 = *n;
    let mut imports: Vec<Import> = Vec::new();
    assert(imports@ =~= needed_upto(n0, 0));
    if n.exp.is_some() {
        n.exp = Some(imports.len() as u32);
        imports.push(Import::Exp);
    }
    assert(imports@ =~= needed_upto(n0, 1));
    if n.ln.is_some() {
        n.ln = Some(imports.len() as u32);
        imports.push(Import::Ln);
    }
    assert(imports@ =~= needed_upto(n0, 2));
    if n.log10.is_some() {
        n.log10 = Some(imports.len() as u32);
        imports.push(Import::Log10);
    }
    assert(imports@ =~= needed_upto(n0, 3));
    if n.sin.is_some() {
        n.sin = Some(imports.len() as u32);
        imports.push(Import::Sin);
    }
    assert(imports@ =~= needed_upto(n0, 4));
    if n.cos.is_some() {
        n.cos = Some(imports.len() as u32);
        imports.push(Import::Cos);
    }
    assert(imports@ =~= needed_upto(n0, 5));
    if n.tan.is_some() {
        n.tan = Some(imports.len() as u32);
        imports.push(Import::Tan);
    }
    assert(imports@ =~= needed_upto(n0, 6));
    if n.powf.is_some() {
        n.powf = Some(imports.len() as u32);
        imports.push(Import::Powf);
    }
    assert(imports@ =~= needed_upto(n0, 7));
    proof {
        assert forall|k: Import| #[trigger] slot(*n, k) == if slot(n0, k) is Some {
            Some(needed_upto(n0, import_ord(k)).len() as u32)
        } else {
            None::<u32>
        } by {
            reveal_with_fuel(needed_upto, 8);
        }
    }
    imports
}

/// A WebAssembly instruction of the emitted function bodies. Constants are
/// binary64 bit patterns.
#[derive(Clone, Copy, Debug, PartialEq, Eq, Structural)]
pub enum WInstr {
    F64Const(u64),
    LocalGet(u32),
    LocalSet(u32),
    F64Neg,
    F64Add,
    F64Sub,
    F64Mul,
    F64Div,
    F64Sqrt,
    F64Abs,
    Call(u32),
    Drop,
    End,
}

/// Bit pattern of the binary64 value 1.0.
pub const ONE_BITS: u64 = 0x3FF0_0000_0000_0000;

pub open spec fn abs_i32(n: i32) -> int {
    if n < 0 {
        -n
    } else {
        n as int
    }
}

/// `base^n` for the value on the stack, through scratch locals `nargs`
/// (the base) and `nargs + 1`: a chain of `|n| - 1` multiplications, then a
/// reciprocal when `n < 0`; `1.0` when `n == 0`.
pub open spec fn ipow_code(n: i32, nargs: u32) -> Seq<WInstr> {
    if n == 0 {
        seq![WInstr::Drop, WInstr::F64Const(ONE_BITS)]
    } else {
        let m = abs_i32(n);
        let chain = Seq::new((2 * (m - 1)) as nat, |k: int| if k % 2 == 0 { WInstr::LocalGet(nargs) } else { WInstr::F64Mul });
        let recip = if n < 0 {
            seq![WInstr::LocalSet((nargs + 1) as u32), WInstr::F64Const(ONE_BITS), WInstr::LocalGet((nargs + 1) as u32), WInstr::F64Div]
        } else {
            Seq::empty()
        };
        seq![WInstr::LocalSet(nargs), WInstr::LocalGet(nargs)] + chain + recip
    }
}

/// The instruction applying one-argument function `f` to the value on the stack.
pub open spec fn unary_code(f: Func, m: FuncIdx) -> WInstr {
    match f {
        Func::Sqrt => WInstr::F64Sqrt,
        Func::Abs => WInstr::F64Abs,
        _ => WInstr::Call(slot(m, import_of(f)->0)->0),
    }
}

/// Post-order stack code computing `e`.
pub open spec fn emit_code(e: ExprV, nargs: u32, m: FuncIdx) -> Seq<WInstr>
    decreases e,
{
    match e {
        ExprV::Num(v) => seq![WInstr::F64Const(v)],
        ExprV::Var(i) => seq![WInstr::LocalGet(i as u32)],
        ExprV::Neg(a) => emit_code(*a, nargs, m).push(WInstr::F64Neg),
        ExprV::Add(a, b) => (emit_code(*a, nargs, m) + emit_code(*b, nargs, m)).push(WInstr::F64Add),
        ExprV::Sub(a, b) => (emit_code(*a, nargs, m) + emit_code(*b, nargs, m)).push(WInstr::F64Sub),
        ExprV::Mul(a, b) => (emit_code(*a, nargs, m) + emit_code(*b, nargs, m)).push(WInstr::F64Mul),
        ExprV::Div(a, b) => (emit_code(*a, nargs, m) + emit_code(*b, nargs, m)).push(WInstr::F64Div),
        ExprV::Pow(a, b) => (emit_code(*a, nargs, m) + emit_code(*b, nargs, m)).push(WInstr::Call(m.powf->0)),
        ExprV::IPow(a, n) => emit_code(*a, nargs, m) + ipow_code(n, nargs),
        ExprV::Call(f, args) => if f == Func::Pow && args.len() == 2 {
            (emit_code(args[0], nargs, m) + emit_code(args[1], nargs, m)).push(WInstr::Call(m.powf->0))
        } else if args.len() >= 1 {
            emit_code(args[0], nargs, m).push(unary_code(f, m))
        } else {
            Seq::empty()
        },
    }
}

/// Append the code for `base^n` (base on the stack).
pub fn emit_ipow(out: &mut Vec<WInstr>, n: i32, nargs: u32)
    requires
        nargs < u32::MAX,
    ensures
        final(out)@ == old(out)@ + ipow_code(n, nargs),
{
    let base = nargs;
    let tmp = nargs + 1;
    if n == 0 {
        out.push(WInstr::Drop);
        out.push(WInstr::F64Const(ONE_BITS));
        proof {
            assert(final(out)@ =~= old(out)@ + ipow_code(n, nargs));
        }
        return;
    }
    let m: u32 = if n < 0 { (-(n as i64)) as u32 } else { n as u32 };
    out.push(WInstr::LocalSet(base));
    out.push(WInstr::LocalGet(base));
    let ghost start = out@;
    let ghost chain = Seq::new((2 * (m - 1)) as nat, |k: int| if k % 2 == 0 { WInstr::LocalGet(nargs) } else { WInstr::F64Mul });
    let mut i: u32 = 1;
    while i < m
        invariant
            1 <= i <= m,
            m == abs_i32(n),
            base == nargs,
            out@ == start + chain.take(2 * (i - 1)),
            chain.len() == 2 * (m - 1),
            chain == Seq::new((2 * (m - 1)) as nat, |k: int| if k % 2 == 0 { WInstr::LocalGet(nargs) } else { WInstr::F64Mul }),
        decreases m - i,
    {
        out.push(WInstr::LocalGet(base));
        out.push(WInstr::F64Mul);
        proof {
            assert(chain.take(2 * i) =~= chain.take(2 * (i - 1)).push(WInstr::LocalGet(nargs)).push(WInstr::F64Mul));
        }
        i = i + 1;
    }
    proof {
        assert(chain.take(2 * (i - 1)) =~= chain);
    }
    if n < 0 {
        out.push(WInstr::LocalSet(tmp));
        out.push(WInstr::F64Const(ONE_BITS));
        out.push(WInstr::LocalGet(tmp));
        out.push(WInstr::F64Div);
    }
    proof {
        assert(final(out)@ =~= old(out)@ + ipow_code(n, nargs));
    }
}


/// The import markings of `e`: `Some(0)` exactly for the host functions it uses.
pub open spec fn marks(e: ExprV) -> FuncIdx {
    FuncIdx {
        exp: if uses(e, Import::Exp) { Some(0u32) } else { None },
        ln: if uses(e, Import::Ln) { Some(0u32) } else { None },
        log10: if uses(e, Import::Log10) { Some(0u32) } else { None },
        sin: if uses(e, Import::Sin) { Some(0u32) } else { None },
        cos: if uses(e, Import::Cos) { Some(0u32) } else { None },
        tan: if uses(e, Import::Tan) { Some(0u32) } else { None },
        powf: if uses(e, Import::Powf) { Some(0u32) } else { None },
    }
}

fn unary_instr(f: Func, m: &FuncIdx) -> (r: WInstr)
    requires
        f != Func::Pow,
        import_of(f) matches Some(k) ==> slot(*m, k) is Some,
    ensures
        r == unary_code(f, *m),
{
    match f {
        Func::Sqrt => WInstr::F64Sqrt,
        Func::Abs => WInstr::F64Abs,
        Func::Exp => WInstr::Call(m.exp.unwrap()),
        Func::Ln => WInstr::Call(m.ln.unwrap()),
        Func::Log => WInstr::Call(m.log10.unwrap()),
        Func::Sin => WInstr::Call(m.sin.unwrap()),
        Func::Cos => WInstr::Call(m.cos.unwrap()),
        Func::Tan => WInstr::Call(m.tan.unwrap()),
        Func::Pow => WInstr::Drop,
    }
}

/// Append the post-order stack code computing `e`.
pub fn emit(out: &mut Vec<WInstr>, e: &Expr, nargs: u32, m: &FuncIdx)
    requires
        aot_ready(e@),
        nargs < u32::MAX,
        forall|k: Import| uses(e@, k) ==> (#[trigger] slot(*m, k)) is Some,
    ensures
        final(out)@ == old(out)@ + emit_code(e@, nargs, *m),
    decreases e,
{
    let ghost o0 = out@;
    match e {
        Expr::Num(v) => {
            out.push(WInstr::F64Const(*v));
        },
        Expr::Var(i) => {
            out.push(WInstr::LocalGet(*i as u32));
        },
        Expr::Neg(a) => {
            emit(out, a, nargs, m);
            out.push(WInstr::F64Neg);
        },
        Expr::Add(a, b) => {
            emit(out, a, nargs, m);
            emit(out, b, nargs, m);
            out.push(WInstr::F64Add);
        },
        Expr::Sub(a, b) => {
            emit(out, a, nargs, m);
            emit(out, b, nargs, m);
            out.push(WInstr::F64Sub);
        },
        Expr::Mul(a, b) => {
            emit(out, a, nargs, m);
            emit(out, b, nargs, m);
            out.push(WInstr::F64Mul);
        },
        Expr::Div(a, b) => {
            emit(out, a, nargs, m);
            emit(out, b, nargs, m);
            out.push(WInstr::F64Div);
        },
        Expr::Pow(a, b) => {
            assert(uses(e@, Import::Powf));
            assert(slot(*m, Import::Powf) is Some);
            emit(out, a, nargs, m);
            emit(out, b, nargs, m);
            out.push(WInstr::Call(m.powf.unwrap()));
        },
        Expr::IPow(a, n) => {
            emit(out, a, nargs, m);
            emit_ipow(out, *n, nargs);
        },
        Expr::Call(f, args) => {
            proof {
                assert(e@ == ExprV::Call(*f, args_view(args@)));
                lemma_args_view(args@);
                lemma_seq_props(args_view(args@), Import::Exp);
                vstd::std_specs::vec::axiom_vec_decreases_to_view(*args);
                vstd::seq::axiom_seq_index_decreases(args@, 0);
                assert(decreases_to!(e => e->Call_1));
                assert(args_view(args@)[0] == args@[0]@);
                assert(aot_ready(args_view(args@)[0]));
                assert forall|k: Import| uses(args@[0]@, k) implies (#[trigger] slot(*m, k)) is Some by {
                    lemma_seq_props(args_view(args@), k);
                    assert(uses(args_view(args@)[0], k));
                }
                if args@.len() == 2 {
                    vstd::seq::axiom_seq_index_decreases(args@, 1);
                    assert(args_view(args@)[1] == args@[1]@);
                    assert(aot_ready(args_view(args@)[1]));
                    assert forall|k: Import| uses(args@[1]@, k) implies (#[trigger] slot(*m, k)) is Some by {
                        lemma_seq_props(args_view(args@), k);
                        assert(uses(args_view(args@)[1], k));
                    }
                }
                if let Some(k) = import_of(*f) {
                    assert(uses(e@, k));
                    assert(slot(*m, k) is Some);
                }
            }
            if *f == Func::Pow && args.len() == 2 {
                emit(out, &args[0], nargs, m);
                emit(out, &args[1], nargs, m);
                out.push(WInstr::Call(m.powf.unwrap()));
            } else {
                emit(out, &args[0], nargs, m);
                out.push(unary_instr(*f, m));
            }
        },
    }
    proof {
        assert(out@ =~= o0 + emit_code(e@, nargs, *m));
    }
}

/// What a module for an expression consists of: the host imports in order,
/// their assigned function indices, and the body of `potential`.
pub struct AotPlan {
    pub imports: Vec<Import>,
    pub indices: FuncIdx,
    pub body: Vec<WInstr>,
}

/// Plan the module for `e` with `nargs` parameters: import exactly the host
/// functions `e` uses, in import order, and emit its code followed by `end`.
pub fn aot_plan(e: &Expr, nargs: u32) -> (p: AotPlan)
    requires
        aot_ready(e@),
        nargs < u32::MAX,
    ensures
        assigned(marks(e@), p.indices),
        p.imports@ == needed_imports(marks(e@)),
        p.body@ == emit_code(e@, nargs, p.indices).push(WInstr::End),
{
    let mut map = FuncIdx::default();
    needs(e, &mut map);
    assert(map == marks(e@)) by {
        assert(slot(map, Import::Exp) == slot(marks(e@), Import::Exp));
        assert(slot(map, Import::Ln) == slot(marks(e@), Import::Ln));
        assert(slot(map, Import::Log10) == slot(marks(e@), Import::Log10));
        assert(slot(map, Import::Sin) == slot(marks(e@), Import::Sin));
        assert(slot(map, Import::Cos) == slot(marks(e@), Import::Cos));
        assert(slot(map, Import::Tan) == slot(marks(e@), Import::Tan));
        assert(slot(map, Import::Powf) == slot(marks(e@), Import::Powf));
    }
    let imports = assign_indices(&mut map);
    let mut body: Vec<WInstr> = Vec::new();
    emit(&mut body, e, nargs, &map);
    body.push(WInstr::End);
    proof {
        assert(body@ =~= emit_code(e@, nargs, map).push(WInstr::End));
    }
    AotPlan { imports, indices: map, body }
}


pub open spec fn import_name_spec(k: Import) -> Seq<char> {
    match k {
        Import::Exp => "exp"@,
        Import::Ln => "ln"@,
        Import::Log10 => "log10"@,
        Import::Sin => "sin"@,
        Import::Cos => "cos"@,
        Import::Tan => "tan"@,
        Import::Powf => "powf"@,
    }
}

/// The `env` name under which host function `k` is imported.
pub fn import_name(k: Import) -> (r: &'static str)
    ensures
        r@ == import_name_spec(k),
{
    match k {
        Import::Exp => "exp",
        Import::Ln => "ln",
        Import::Log10 => "log10",
        Import::Sin => "sin",
        Import::Cos => "cos",
        Import::Tan => "tan",
        Import::Powf => "powf",
    }
}

/// The import indices that `assigned` describes for the markings `n`.
pub open spec fn indices_of(n: FuncIdx) -> FuncIdx {
    FuncIdx {
        exp: if n.exp is Some { Some(needed_upto(n, 0).len() as u32) } else { None },
        ln: if n.ln is Some { Some(needed_upto(n, 1).len() as u32) } else { None },
        log10: if n.log10 is Some { Some(needed_upto(n, 2).len() as u32) } else { None },
        sin: if n.sin is Some { Some(needed_upto(n, 3).len() as u32) } else { None },
        cos: if n.cos is Some { Some(needed_upto(n, 4).len() as u32) } else { None },
        tan: if n.tan is Some { Some(needed_upto(n, 5).len() as u32) } else { None },
        powf: if n.powf is Some { Some(needed_upto(n, 6).len() as u32) } else { None },
    }
}

proof fn lemma_assigned_unique(n: FuncIdx, m: FuncIdx)
    requires
        assigned(n, m),
    ensures
        m == indices_of(n),
{
    assert(slot(m, Import::Exp) == slot(indices_of(n), Import::Exp));
    assert(slot(m, Import::Ln) == slot(indices_of(n), Import::Ln));
    assert(slot(m, Import::Log10) == slot(indices_of(n), Import::Log10));
    assert(slot(m, Import::Sin) == slot(indices_of(n), Import::Sin));
    assert(slot(m, Import::Cos) == slot(indices_of(n), Import::Cos));
    assert(slot(m, Import::Tan) == slot(indices_of(n), Import::Tan));
    assert(slot(m, Import::Powf) == slot(indices_of(n), Import::Powf));
}

/// The function type index of host import `k`: 2 for `powf`, else 1.
pub open spec fn import_type(k: Import) -> u32 {
    if k == Import::Powf { 2 } else { 1 }
}

/// The import entry of host function `k`.
pub open spec fn import_entry(k: Import) -> (Seq<char>, Seq<char>, u32) {
    ("env"@, import_name_spec(k), import_type(k))
}

/// The sections of the module for `e` over `nargs` parameters: types
/// `(f64 x nargs) -> f64`, `f64 -> f64`, `(f64, f64) -> f64`; the imports
/// of `aot_plan` (the section is left out when there are none); one function
/// of type 0, exported as `potential`; its body with two scratch locals.
pub open spec fn module_plan(e: ExprV, nargs: u32) -> Seq<SectionV> {
    let n = marks(e);
    let imps = needed_imports(n);
    let types = SectionV::Types(seq![nargs, 1u32, 2u32]);
    let tail = seq![
        SectionV::Functions(seq![0u32]),
        SectionV::Exports(seq![("potential"@, imps.len() as u32)]),
        SectionV::Code(seq![(2u32, emit_code(e, nargs, indices_of(n)).push(WInstr::End))]),
    ];
    if imps.len() > 0 {
        seq![types, SectionV::Imports(imps.map_values(|k: Import| import_entry(k)))] + tail
    } else {
        seq![types] + tail
    }
}

/// The size of a code section holding one body of `body` with two locals,
/// after its entry count: the body's length in LEB128, then the body.
pub open spec fn code_section_size(body: Seq<WInstr>) -> int {
    leb_size(body_size(2, body)) + body_size(2, body)
}

/// The module for `e` fits the encoder's `u32` sizes: its code section (the
/// entry count, then the body with its final `end` and its length prefix) is
/// at most `u32::MAX` bytes long.
pub open spec fn aot_fits(e: ExprV, nargs: u32) -> bool {
    1 + code_section_size(emit_code(e, nargs, indices_of(marks(e))).push(WInstr::End)) <= u32::MAX
}

proof fn lemma_utf8_len(s: Seq<char>)
    ensures
        encode_utf8(s).len() <= 4 * s.len(),
    decreases s.len(),
{
    if s.len() > 0 {
        lemma_utf8_len(s.drop_first());
    }
}

proof fn lemma_import_name_len(k: Import)
    ensures
        encode_utf8(import_name_spec(k)).len() <= 20,
{
    reveal_strlit("exp");
    reveal_strlit("ln");
    reveal_strlit("log10");
    reveal_strlit("sin");
    reveal_strlit("cos");
    reveal_strlit("tan");
    reveal_strlit("powf");
    lemma_utf8_len(import_name_spec(k));
}

fn leb_len(k: u64) -> (r: u64)
    ensures
        r == leb_size(k as int),
{
    if k < 0x80 {
        1
    } else if k < 0x4000 {
        2
    } else if k < 0x20_0000 {
        3
    } else if k < 0x1000_0000 {
        4
    } else {
        5
    }
}

proof fn lemma_instrs_size_grows(s: Seq<WInstr>, j: int)
    requires
        0 <= j <= s.len(),
    ensures
        instrs_size(s.take(j)) <= instrs_size(s),
    decreases s.len() - j,
{
    if j < s.len() {
        lemma_instrs_size_grows(s, j + 1);
        assert(s.take(j + 1).drop_last() =~= s.take(j));
    } else {
        assert(s.take(j) =~= s);
    }
}

/// Whether a code section holding `body` (with two locals) fits the
/// encoder's `u32` size: the condition of `aot_fits` for the planned body.
pub fn aot_body_fits(body: &[WInstr]) -> (b: bool)
    ensures
        b == (1 + code_section_size(body@) <= u32::MAX),
{
    let mut total: u64 = 3;
    let mut i: usize = 0;
    proof {
        assert(body@.take(0) =~= Seq::<WInstr>::empty());
    }
    while i < body.len()
        invariant
            i <= body@.len(),
            total as int == body_size(2, body@.take(i as int)),
            total <= u32::MAX,
        decreases body@.len() - i,
    {
        let size: u64 = match body[i] {
            WInstr::F64Const(_) => 9,
            WInstr::LocalGet(k) | WInstr::LocalSet(k) | WInstr::Call(k) => 1 + leb_len(k as u64),
            _ => 1,
        };
        proof {
            assert(body@.take(i + 1).drop_last() =~= body@.take(i as int));
        }
        total = total + size;
        i = i + 1;
        if total > 0xFFFF_FFFF {
            proof {
                lemma_instrs_size_grows(body@, i as int);
            }
            return false;
        }
    }
    proof {
        assert(body@.take(i as int) =~= body@);
    }
    1 + leb_len(total) + total <= 0xFFFF_FFFF
}

/// Compile `toks` (over the parameters `vars`, in order) to a wasm module
/// exporting `potential`, laid out as `module_plan` says.
pub fn compile_to_wasm(toks: Vec<Tok>, vars: &[&str]) -> (res: Result<Vec<u8>, String>)
    requires
        vars@.len() + 32 <= u32::MAX,
        parse_all(toks_view(toks@), vars_view(vars@)) matches Ok(e) ==> aot_ready(opt(e)) && aot_fits(
            opt(e),
            vars@.len() as u32,
        ),
    ensures
        match (res, parse_all(toks_view(toks@), vars_view(vars@))) {
            (Ok(bytes), Ok(e)) => bytes@ == module_bytes(module_plan(opt(e), vars@.len() as u32))
                && bytes@.take(8) == seq![0x00u8, 0x61u8, 0x73u8, 0x6du8, 0x01u8, 0x00u8, 0x00u8, 0x00u8],
            (Err(m), Err(sm)) => m@ == sm,
            _ => false,
        },
{
    let nargs = vars.len() as u32;
    let expr = match compile(toks, vars) {
        Ok(e) => e,
        Err(m) => return Err(m),
    };
    let plan = aot_plan(&expr, nargs);
    let ghost n = marks(expr@);
    proof {
        lemma_assigned_unique(n, plan.indices);
        reveal_with_fuel(needed_upto, 8);
        assert(needed_imports(n).len() <= 7);
    }

    let mut types = new_type_section();
    add_f64_signature(&mut types, nargs);
    add_f64_signature(&mut types, 1);
    add_f64_signature(&mut types, 2);
    assert(type_entries(types) =~= seq![nargs, 1u32, 2u32]);
    proof {
        let e3 = seq![nargs, 1u32, 2u32];
        assert(e3.drop_last() =~= seq![nargs, 1u32]);
        assert(e3.drop_last().drop_last() =~= seq![nargs]);
        assert(e3.drop_last().drop_last().drop_last() =~= Seq::<u32>::empty());
        reveal_with_fuel(types_size, 4);
        assert(types_size(e3) == nargs + 27);
        reveal_strlit("env");
        lemma_utf8_len("env"@);
    }

    let mut imports = new_import_section();
    let mut i: usize = 0;
    while i < plan.imports.len()
        invariant
            i <= plan.imports@.len(),
            plan.imports@.len() <= 7,
            import_entries(imports) == plan.imports@.take(i as int).map_values(|k: Import| import_entry(k)),
            imports_size(import_entries(imports)) <= 48 * i,
            encode_utf8("env"@).len() <= 12,
        decreases plan.imports@.len() - i,
    {
        let k = plan.imports[i];
        let ty: u32 = if k == Import::Powf { 2 } else { 1 };
        let ghost before = import_entries(imports);
        proof {
            lemma_import_name_len(k);
        }
        import_function(&mut imports, "env", import_name(k), ty);
        proof {
            assert(import_entries(imports).drop_last() =~= before);
            reveal_strlit("env");
            assert(plan.imports@.take(i + 1).map_values(|k: Import| import_entry(k)) =~=
                plan.imports@.take(i as int).map_values(|k: Import| import_entry(k)).push(import_entry(k)));
        }
        i = i + 1;
    }
    assert(plan.imports@.take(i as int) =~= plan.imports@);
    let num_imports = plan.imports.len() as u32;

    let mut funcs = new_function_section();
    declare_function(&mut funcs, 0);
    assert(function_entries(funcs) =~= seq![0u32]);
    let mut exports = new_export_section();
    proof {
        reveal_strlit("potential");
        lemma_utf8_len("potential"@);
    }
    export_function(&mut exports, "potential", num_imports);
    assert(export_entries(exports) =~= seq![("potential"@, num_imports)]);
    assert(export_entries(exports).drop_last() =~= Seq::<(Seq<char>, u32)>::empty());
    assert(export_entries(exports).last().0 == "potential"@);
    assert(exports_size(export_entries(exports)) <= 47) by {
        reveal_with_fuel(exports_size, 2);
    }

    let mut f = new_function_body(2);
    let mut j: usize = 0;
    while j < plan.body.len()
        invariant
            j <= plan.body@.len(),
            body_locals(f) == 2,
            body_instrs(f) == plan.body@.take(j as int),
        decreases plan.body@.len() - j,
    {
        push_instruction(&mut f, plan.body[j]);
        assert(plan.body@.take(j + 1) =~= plan.body@.take(j as int).push(plan.body@[j as int]));
        j = j + 1;
    }
    assert(plan.body@.take(j as int) =~= plan.body@);
    let mut code = new_code_section();
    add_code(&mut code, &f);
    assert(code_entries(code) =~= seq![(2u32, plan.body@)]);
    assert(code_entries(code).drop_last() =~= Seq::<(u32, Seq<WInstr>)>::empty());
    assert(plan.body@.len() == emit_code(expr@, nargs, indices_of(n)).len() + 1);
    assert(code_size(code_entries(code)) == code_section_size(plan.body@)) by {
        reveal_with_fuel(code_size, 2);
    }

    let mut module = new_module();
    add_section(&mut module, SectionRef::Types(&types));
    if num_imports > 0 {
        add_section(&mut module, SectionRef::Imports(&imports));
    }
    add_section(&mut module, SectionRef::Functions(&funcs));
    add_section(&mut module, SectionRef::Exports(&exports));
    add_section(&mut module, SectionRef::Code(&code));
    assert(module_sections(module) =~= module_plan(expr@, nargs));
    Ok(finish_module(module))
}

/// Whether `e` can be compiled to wasm (every call has an argument and
/// `pow` calls have two).
pub fn aot_compilable(e: &Expr) -> (b: bool)
    ensures
        b == aot_ready(e@),
    decreases e,
{
    match e {
        Expr::Num(_) | Expr::Var(_) => true,
        Expr::Neg(a) | Expr::IPow(a, _) => aot_compilable(a),
        Expr::Add(a, b) | Expr::Sub(a, b) | Expr::Mul(a, b) | Expr::Div(a, b) | Expr::Pow(a, b) =>
            aot_compilable(a) && aot_compilable(b),
        Expr::Call(f, args) => {
            proof {
                lemma_args_view(args@);
                lemma_seq_props(args_view(args@), Import::Exp);
                vstd::std_specs::vec::axiom_vec_decreases_to_view(*args);
                assert(decreases_to!(e => e->Call_1));
            }
            if args.len() == 0 || (*f == Func::Pow && args.len() != 2) {
                return false;
            }
            let mut k: usize = 0;
            while k < args.len()
                invariant
                    k <= args@.len(),
                    forall|j: int| 0 <= j < k ==> aot_ready(#[trigger] args@[j]@),
                    decreases_to!(e => args@),
                    e@ == ExprV::Call(*f, args_view(args@)),
                    args_view(args@).len() == args@.len(),
                    forall|j: int| 0 <= j < args@.len() ==> #[trigger] args_view(args@)[j] == args@[j]@,
                    all_aot_ready(args_view(args@)) <==> forall|j: int| 0 <= j < args@.len() ==> aot_ready(#[trigger] args_view(args@)[j]),
                decreases args@.len() - k,
            {
                proof {
                    vstd::seq::axiom_seq_index_decreases(args@, k as int);
                }
                if !aot_compilable(&args[k]) {
                    assert(args_view(args@)[k as int] == args@[k as int]@);
                    return false;
                }
                k = k + 1;
            }
            proof {
                assert forall|j: int| 0 <= j < args@.len() implies aot_ready(#[trigger] args_view(args@)[j]) by {
                    assert(args_view(args@)[j] == args@[j]@);
                }
            }
            true
        },
    }
}

} // verus!
