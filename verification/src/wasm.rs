//! The `wasm-encoder` and `wasmparser` calls that assemble and check modules.
use vstd::prelude::*;
use vstd::string::StringSliceAdditionalSpecFns;
use vstd::utf8::encode_utf8;
use crate::aot::WInstr;
use wasm_encoder::{
    CodeSection, EntityType, ExportKind, ExportSection, Function, FunctionSection, Ieee64,
    ImportSection, Instruction, Module, TypeSection, ValType,
};

verus! {

#[verifier::external_type_specification]
#[verifier::external_body]
pub struct ExTypeSection(wasm_encoder::TypeSection);

#[verifier::external_type_specification]
#[verifier::external_body]
pub struct ExImportSection(wasm_encoder::ImportSection);

#[verifier::external_type_specification]
#[verifier::external_body]
pub struct ExFunctionSection(wasm_encoder::FunctionSection);

#[verifier::external_type_specification]
#[verifier::external_body]
pub struct ExExportSection(wasm_encoder::ExportSection);

#[verifier::external_type_specification]
#[verifier::external_body]
pub struct ExCodeSection(wasm_encoder::CodeSection);

#[verifier::external_type_specification]
#[verifier::external_body]
pub struct ExFunction(wasm_encoder::Function);

#[verifier::external_type_specification]
#[verifier::external_body]
pub struct ExModule(wasm_encoder::Module);

/// The entries of a type section: for each function type, in order, its
/// number of parameters; every type this library adds has only `f64`
/// parameters and one `f64` result.
pub uninterp spec fn type_entries(s: TypeSection) -> Seq<u32>;

/// The entries of an import section, in order: module name, field name and
/// the function type index of each imported function.
pub uninterp spec fn import_entries(s: ImportSection) -> Seq<(Seq<char>, Seq<char>, u32)>;

/// The entries of a function section: the type index of each declared function.
pub uninterp spec fn function_entries(s: FunctionSection) -> Seq<u32>;

/// The entries of an export section, in order: name and function index of
/// each exported function.
pub uninterp spec fn export_entries(s: ExportSection) -> Seq<(Seq<char>, u32)>;

/// The number of `f64` locals a function body was made with.
pub uninterp spec fn body_locals(f: Function) -> u32;

/// The instructions appended to a function body, in order.
pub uninterp spec fn body_instrs(f: Function) -> Seq<WInstr>;

/// The entries of a code section: each body's local count and instructions.
pub uninterp spec fn code_entries(s: CodeSection) -> Seq<(u32, Seq<WInstr>)>;

/// A module section, given by its entries.
pub enum SectionV {
    Types(Seq<u32>),
    Imports(Seq<(Seq<char>, Seq<char>, u32)>),
    Functions(Seq<u32>),
    Exports(Seq<(Seq<char>, u32)>),
    Code(Seq<(u32, Seq<WInstr>)>),
}

/// The sections appended to a module, in order.
pub uninterp spec fn module_sections(m: Module) -> Seq<SectionV>;

/// The encoded bytes of a module holding `sections`.
pub uninterp spec fn module_bytes(sections: Seq<SectionV>) -> Seq<u8>;

/// The length of the unsigned LEB128 encoding of `k` (at most 5 bytes for a `u32`).
pub open spec fn leb_size(k: int) -> int {
    if k < 0x80 {
        1
    } else if k < 0x4000 {
        2
    } else if k < 0x20_0000 {
        3
    } else if k < 0x1000_0000 {
        4
    } else {
        5
    }
}

/// The encoded length of an instruction: its opcode, then an index in LEB128
/// or the 8 bytes of an `f64` constant.
pub open spec fn instr_size(i: WInstr) -> int {
    match i {
        WInstr::F64Const(_) => 9,
        WInstr::LocalGet(k) | WInstr::LocalSet(k) | WInstr::Call(k) => 1 + leb_size(k as int),
        _ => 1,
    }
}

pub open spec fn instrs_size(s: Seq<WInstr>) -> int
    decreases s.len(),
{
    if s.len() == 0 {
        0
    } else {
        instrs_size(s.drop_last()) + instr_size(s.last())
    }
}

/// The encoded length of a body made by `new_function_body(n)` holding `s`:
/// the local declarations (one group: its count byte, `n`, the `f64` type),
/// then the instructions.
pub open spec fn body_size(n: u32, s: Seq<WInstr>) -> int {
    2 + leb_size(n as int) + instrs_size(s)
}

/// Upper bounds on the encoded size of a section's entries, each entry
/// bounded by its encoding. A type: `0x60`, the parameter count (at most 5
/// bytes), one byte per parameter, then the one result (2 bytes).
pub open spec fn types_size(e: Seq<u32>) -> int
    decreases e.len(),
{
    if e.len() == 0 {
        0
    } else {
        types_size(e.drop_last()) + e.last() + 8
    }
}

/// An import: two length-prefixed names, the kind byte and the type index.
pub open spec fn imports_size(e: Seq<(Seq<char>, Seq<char>, u32)>) -> int
    decreases e.len(),
{
    if e.len() == 0 {
        0
    } else {
        imports_size(e.drop_last()) + encode_utf8(e.last().0).len() + encode_utf8(e.last().1).len() + 16
    }
}

/// An export: the length-prefixed name, the kind byte and the index.
pub open spec fn exports_size(e: Seq<(Seq<char>, u32)>) -> int
    decreases e.len(),
{
    if e.len() == 0 {
        0
    } else {
        exports_size(e.drop_last()) + encode_utf8(e.last().0).len() + 11
    }
}

/// A body, exactly: its length in LEB128, then the body.
pub open spec fn code_size(e: Seq<(u32, Seq<WInstr>)>) -> int
    decreases e.len(),
{
    if e.len() == 0 {
        0
    } else {
        let b = body_size(e.last().0, e.last().1);
        code_size(e.drop_last()) + leb_size(b) + b
    }
}

/// The number of entries of `s`.
pub open spec fn section_count(s: SectionV) -> int {
    match s {
        SectionV::Types(e) => e.len() as int,
        SectionV::Imports(e) => e.len() as int,
        SectionV::Functions(e) => e.len() as int,
        SectionV::Exports(e) => e.len() as int,
        SectionV::Code(e) => e.len() as int,
    }
}

/// An upper bound on the encoded size of the entries of `s` (exact for a
/// code section); a function entry is its type index.
pub open spec fn entries_size_bound(s: SectionV) -> int {
    match s {
        SectionV::Types(e) => types_size(e),
        SectionV::Imports(e) => imports_size(e),
        SectionV::Functions(e) => 5 * e.len() as int,
        SectionV::Exports(e) => exports_size(e),
        SectionV::Code(e) => code_size(e),
    }
}

/// A section to append to a module.
pub enum SectionRef<'a> {
    Types(&'a TypeSection),
    Imports(&'a ImportSection),
    Functions(&'a FunctionSection),
    Exports(&'a ExportSection),
    Code(&'a CodeSection),
}

/// What `s` holds.
pub open spec fn section_view(s: SectionRef) -> SectionV {
    match s {
        SectionRef::Types(t) => SectionV::Types(type_entries(*t)),
        SectionRef::Imports(t) => SectionV::Imports(import_entries(*t)),
        SectionRef::Functions(t) => SectionV::Functions(function_entries(*t)),
        SectionRef::Exports(t) => SectionV::Exports(export_entries(*t)),
        SectionRef::Code(t) => SectionV::Code(code_entries(*t)),
    }
}

/// `TypeSection::new`: an empty type section.
#[verifier::external_body]
pub(crate) fn new_type_section() -> (r: TypeSection)
    ensures
        type_entries(r) == Seq::<u32>::empty(),
{
    TypeSection::new()
}

/// `TypeSection::ty` then `CoreTypeEncoder::function`: appends the function
/// type taking `nparams` `f64` parameters and returning one `f64` (`ty`
/// counts the entry in a `u32`).
#[verifier::external_body]
pub(crate) fn add_f64_signature(types: &mut TypeSection, nparams: u32)
    requires
        type_entries(*old(types)).len() < u32::MAX,
    ensures
        type_entries(*final(types)) == type_entries(*old(types)).push(nparams),
{
    types.ty().function((0..nparams).map(|_| ValType::F64), [ValType::F64]);
}

/// `ImportSection::new`: an empty import section.
#[verifier::external_body]
pub(crate) fn new_import_section() -> (r: ImportSection)
    ensures
        import_entries(r) == Seq::<(Seq<char>, Seq<char>, u32)>::empty(),
{
    ImportSection::new()
}

/// `ImportSection::import`: appends the import of function `module.name` of
/// type `type_index` (counted in a `u32`; each name's byte length is encoded
/// as a `u32`, which the encoder asserts).
#[verifier::external_body]
pub(crate) fn import_function(s: &mut ImportSection, module: &str, name: &str, type_index: u32)
    requires
        import_entries(*old(s)).len() < u32::MAX,
        module.spec_bytes().len() <= u32::MAX,
        name.spec_bytes().len() <= u32::MAX,
    ensures
        import_entries(*final(s)) == import_entries(*old(s)).push((module@, name@, type_index)),
{
    s.import(module, name, EntityType::Function(type_index));
}

/// `FunctionSection::new`: an empty function section.
#[verifier::external_body]
pub(crate) fn new_function_section() -> (r: FunctionSection)
    ensures
        function_entries(r) == Seq::<u32>::empty(),
{
    FunctionSection::new()
}

/// `FunctionSection::function`: declares a function of type `type_index`
/// (counted in a `u32`).
#[verifier::external_body]
pub(crate) fn declare_function(s: &mut FunctionSection, type_index: u32)
    requires
        function_entries(*old(s)).len() < u32::MAX,
    ensures
        function_entries(*final(s)) == function_entries(*old(s)).push(type_index),
{
    s.function(type_index);
}

/// `ExportSection::new`: an empty export section.
#[verifier::external_body]
pub(crate) fn new_export_section() -> (r: ExportSection)
    ensures
        export_entries(r) == Seq::<(Seq<char>, u32)>::empty(),
{
    ExportSection::new()
}

/// `ExportSection::export`: exports function `index` as `name` (counted in a
/// `u32`; the name's byte length is encoded as a `u32`, which the encoder asserts).
#[verifier::external_body]
pub(crate) fn export_function(s: &mut ExportSection, name: &str, index: u32)
    requires
        export_entries(*old(s)).len() < u32::MAX,
        name.spec_bytes().len() <= u32::MAX,
    ensures
        export_entries(*final(s)) == export_entries(*old(s)).push((name@, index)),
{
    s.export(name, ExportKind::Func, index);
}

/// `Function::new`: an empty body declaring `n` local `f64` slots.
#[verifier::external_body]
pub(crate) fn new_function_body(n: u32) -> (r: Function)
    ensures
        body_locals(r) == n,
        body_instrs(r) == Seq::<WInstr>::empty(),
{
    Function::new([(n, ValType::F64)])
}

/// `Function::instruction`: appends the encoding of `i`.
#[verifier::external_body]
pub(crate) fn push_instruction(f: &mut Function, i: WInstr)
    ensures
        body_locals(*final(f)) == body_locals(*old(f)),
        body_instrs(*final(f)) == body_instrs(*old(f)).push(i),
{
    f.instruction(&match i {
        WInstr::F64Const(b) => Instruction::F64Const(Ieee64::new(b)),
        WInstr::LocalGet(k) => Instruction::LocalGet(k),
        WInstr::LocalSet(k) => Instruction::LocalSet(k),
        WInstr::F64Neg => Instruction::F64Neg,
        WInstr::F64Add => Instruction::F64Add,
        WInstr::F64Sub => Instruction::F64Sub,
        WInstr::F64Mul => Instruction::F64Mul,
        WInstr::F64Div => Instruction::F64Div,
        WInstr::F64Sqrt => Instruction::F64Sqrt,
        WInstr::F64Abs => Instruction::F64Abs,
        WInstr::Call(k) => Instruction::Call(k),
        WInstr::Drop => Instruction::Drop,
        WInstr::End => Instruction::End,
    });
}

/// `CodeSection::new`: an empty code section.
#[verifier::external_body]
pub(crate) fn new_code_section() -> (r: CodeSection)
    ensures
        code_entries(r) == Seq::<(u32, Seq<WInstr>)>::empty(),
{
    CodeSection::new()
}

/// `CodeSection::function`: appends function body `f` (counted in a `u32`;
/// the body's byte length is encoded as a `u32`, which the encoder asserts).
#[verifier::external_body]
pub(crate) fn add_code(c: &mut CodeSection, f: &Function)
    requires
        code_entries(*old(c)).len() < u32::MAX,
        body_size(body_locals(*f), body_instrs(*f)) <= u32::MAX,
    ensures
        code_entries(*final(c)) == code_entries(*old(c)).push((body_locals(*f), body_instrs(*f))),
{
    c.function(f);
}

/// `Module::new`: a module holding only the preamble.
#[verifier::external_body]
pub(crate) fn new_module() -> (r: Module)
    ensures
        module_sections(r) == Seq::<SectionV>::empty(),
{
    Module::new()
}

/// `Module::section`: appends the encoded section `s` (its size, the entry
/// count's encoding plus the entries, is encoded as a `u32`, which the
/// encoder asserts).
#[verifier::external_body]
pub(crate) fn add_section(m: &mut Module, s: SectionRef)
    requires
        leb_size(section_count(section_view(s))) + entries_size_bound(section_view(s)) <= u32::MAX,
    ensures
        module_sections(*final(m)) == module_sections(*old(m)).push(section_view(s)),
{
    match s {
        SectionRef::Types(t) => m.section(t),
        SectionRef::Imports(t) => m.section(t),
        SectionRef::Functions(t) => m.section(t),
        SectionRef::Exports(t) => m.section(t),
        SectionRef::Code(t) => m.section(t),
    };
}

/// `Module::finish`: the module's bytes, the encoding of its sections after
/// the preamble `\0asm` and version 1 that `Module::new` writes.
#[verifier::external_body]
pub(crate) fn finish_module(m: Module) -> (r: Vec<u8>)
    ensures
        r@ == module_bytes(module_sections(m)),
        r@.len() >= 8,
        r@.take(8) == seq![0x00u8, 0x61u8, 0x73u8, 0x6du8, 0x01u8, 0x00u8, 0x00u8, 0x00u8],
{
    m.finish()
}

/// What `wasmparser` (default features) makes of `bytes`: a valid module,
/// or the text of the error it reports.
pub uninterp spec fn wasm_check(bytes: Seq<u8>) -> Result<(), Seq<char>>;

/// `wasmparser::validate`: succeeds exactly on the modules it judges valid;
/// otherwise the error is the validator's message.
#[verifier::external_body]
pub fn validate(bytes: &[u8]) -> (r: Result<(), String>)
    ensures
        match r {
            Ok(_) => wasm_check(bytes@) is Ok,
            Err(m) => wasm_check(bytes@) == Err::<(), Seq<char>>(m@),
        },
{
    wasmparser::validate(bytes).map(|_| ()).map_err(|e| e.to_string())
}

} // verus!
