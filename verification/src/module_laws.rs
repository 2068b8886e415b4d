//! Properties of the planned WebAssembly module that hold for every
//! expression: what its export refers to, and what its imports are.
use vstd::prelude::*;
use crate::dsl::expr::{ExprV, Func};
use crate::dsl::parser::func_of_name;
use crate::dsl::laws::lemma_func_name;
use crate::aot::{Import, module_plan, marks, needed_imports, indices_of, slot, uses, import_name_spec};
use crate::machine::{host_func, lemma_planned_imports_cover, listed};
use crate::wasm::SectionV;

verus! {

/// The number of imported functions the sections declare.
pub open spec fn imported_count(s: Seq<SectionV>) -> nat
    decreases s.len(),
{
    if s.len() == 0 {
        0
    } else {
        imported_count(s.drop_last()) + match s.last() {
            SectionV::Imports(e) => e.len(),
            _ => 0,
        }
    }
}

/// The number of functions the sections define.
pub open spec fn defined_count(s: Seq<SectionV>) -> nat
    decreases s.len(),
{
    if s.len() == 0 {
        0
    } else {
        defined_count(s.drop_last()) + match s.last() {
            SectionV::Functions(e) => e.len(),
            _ => 0,
        }
    }
}

/// The function exported as `potential` is the module's own defined function:
/// in wasm's function index space the imports come first, so its index is
/// the number of imported functions, and the module defines exactly one
/// function. Every export section holds just that entry.
pub proof fn law_export_is_defined_function(e: ExprV, nargs: u32)
    ensures
        ({
            let s = module_plan(e, nargs);
            &&& defined_count(s) == 1
            &&& exists|k: int| 0 <= k < s.len() && s[k] == SectionV::Exports(seq![("potential"@, imported_count(s) as u32)])
            &&& forall|k: int| 0 <= k < s.len() && s[k] is Exports ==> s[k] == SectionV::Exports(
                seq![("potential"@, imported_count(s) as u32)],
            )
        }),
{
    let s = module_plan(e, nargs);
    let imps = needed_imports(marks(e));
    reveal_with_fuel(imported_count, 6);
    reveal_with_fuel(defined_count, 6);
    if imps.len() > 0 {
        assert(s.len() == 5);
        assert(s.drop_last() =~= s.take(4));
        assert(s.take(4).drop_last() =~= s.take(3));
        assert(s.take(3).drop_last() =~= s.take(2));
        assert(s.take(2).drop_last() =~= s.take(1));
        assert(s.take(1).drop_last() =~= Seq::<SectionV>::empty());
        assert(imported_count(s) == imps.len());
        assert(s[3] == SectionV::Exports(seq![("potential"@, imported_count(s) as u32)]));
    } else {
        assert(s.len() == 4);
        assert(s.drop_last() =~= s.take(3));
        assert(s.take(3).drop_last() =~= s.take(2));
        assert(s.take(2).drop_last() =~= s.take(1));
        assert(s.take(1).drop_last() =~= Seq::<SectionV>::empty());
        assert(imported_count(s) == 0);
        assert(s[2] == SectionV::Exports(seq![("potential"@, imported_count(s) as u32)]));
    }
}

/// The host import through which the code calls host function `k` (at the
/// index its calls use) comes from `env`, takes one argument (two for
/// `powf`), and is named as the function it computes: the name the
/// expression language reads as that function (`exp ln sin cos tan`), or
/// `log10` for the base-10 logarithm and `powf` for the general power.
pub proof fn law_imports_named(e: ExprV, nargs: u32, k: Import)
    requires
        uses(e, k),
    ensures
        ({
            let s = module_plan(e, nargs);
            &&& s[1] is Imports
            &&& slot(indices_of(marks(e)), k) matches Some(j) && j < s[1]->Imports_0.len() && ({
                let entry = s[1]->Imports_0[j as int];
                &&& entry.0 == "env"@
                &&& entry.2 == (if k == Import::Powf { 2u32 } else { 1u32 })
                &&& (k != Import::Log10 && k != Import::Powf ==> func_of_name(entry.1) == Some(host_func(k)))
                &&& (k == Import::Log10 ==> entry.1 == "log10"@ && host_func(k) == Func::Log)
                &&& (k == Import::Powf ==> entry.1 == "powf"@ && host_func(k) == Func::Pow)
            })
        }),
{
    let n = marks(e);
    let imps = needed_imports(n);
    lemma_planned_imports_cover(e);
    assert(listed(indices_of(n), imps, k));
    assert(imps.len() > 0);
    lemma_func_name(host_func(k));
}

} // verus!
