use potter_poc::aot::{aot_compilable, aot_plan, compile_to_wasm, emit_ipow, import_name, Import, WInstr, ONE_BITS};
use potter_poc::dsl::{compile, tokenize, Lexeme, Tok};
use potter_poc::wasm::validate;

fn toks(src: &str) -> Vec<Tok> {
    tokenize(src)
        .unwrap()
        .into_iter()
        .map(|l| match l {
            Lexeme::Number(t) => Tok::Num(std::str::from_utf8(&t).unwrap().parse::<f64>().unwrap().to_bits()),
            Lexeme::Token(t) => t,
        })
        .collect()
}

const LJ: &str = "4*eps*((sig/r)**12 - (sig/r)**6)";
const VARS: [&str; 3] = ["r", "eps", "sig"];

#[test]
fn aot_emits_valid_wasm() {
    // LJ is pure arithmetic + integer powers -> self-contained module.
    let lj = compile_to_wasm(toks(LJ), &VARS).unwrap();
    validate(&lj).expect("LJ wasm should validate");
    assert!(lj.starts_with(&[0x00, 0x61, 0x73, 0x6d]), "wasm magic header");
    // A transcendental potential validates too (imports env.exp).
    let morse = compile_to_wasm(toks("eps*exp(-(r-sig))"), &VARS).unwrap();
    validate(&morse).expect("morse wasm should validate");
}

#[test]
fn lj_module_is_self_contained_and_small() {
    let lj = compile_to_wasm(toks(LJ), &VARS).unwrap();
    assert_eq!(lj.len(), 136);
    let e = compile(toks(LJ), &VARS).unwrap();
    assert!(aot_plan(&e, 3).imports.is_empty());
}

#[test]
fn morse_module_imports_exp() {
    let morse = compile_to_wasm(toks("eps*(exp(-2*(r-sig)) - 2*exp(-(r-sig)))"), &VARS).unwrap();
    assert_eq!(morse.len(), 109);
    validate(&morse).unwrap();
    let needle = b"exp";
    assert!(morse.windows(3).any(|w| w == needle));
    let e = compile(toks("eps*(exp(-2*(r-sig)) - 2*exp(-(r-sig)))"), &VARS).unwrap();
    let plan = aot_plan(&e, 3);
    assert_eq!(plan.imports, vec![Import::Exp]);
    assert_eq!(plan.indices.exp, Some(0));
}

#[test]
fn imports_follow_fixed_order() {
    let e = compile(toks("r**eps + sin(r) + exp(r) + tan(r) + sqrt(r)"), &VARS).unwrap();
    let plan = aot_plan(&e, 3);
    assert_eq!(plan.imports, vec![Import::Exp, Import::Sin, Import::Tan, Import::Powf]);
    assert_eq!(plan.indices.exp, Some(0));
    assert_eq!(plan.indices.sin, Some(1));
    assert_eq!(plan.indices.tan, Some(2));
    assert_eq!(plan.indices.powf, Some(3));
    assert_eq!(plan.indices.ln, None);
    let m = compile_to_wasm(toks("r**eps + sin(r) + exp(r) + tan(r) + sqrt(r)"), &VARS).unwrap();
    validate(&m).unwrap();
    assert_eq!(import_name(Import::Log10), "log10");
}

#[test]
fn post_order_code() {
    let e = compile(toks("(r - eps) / sig"), &VARS).unwrap();
    let plan = aot_plan(&e, 3);
    assert_eq!(
        plan.body,
        vec![WInstr::LocalGet(0), WInstr::LocalGet(1), WInstr::F64Sub, WInstr::LocalGet(2), WInstr::F64Div, WInstr::End]
    );
}

#[test]
fn integer_power_chains() {
    let mut out = Vec::new();
    emit_ipow(&mut out, 3, 3);
    assert_eq!(
        out,
        vec![WInstr::LocalSet(3), WInstr::LocalGet(3), WInstr::LocalGet(3), WInstr::F64Mul, WInstr::LocalGet(3), WInstr::F64Mul]
    );
    let mut neg = Vec::new();
    emit_ipow(&mut neg, -1, 3);
    assert_eq!(
        neg,
        vec![WInstr::LocalSet(3), WInstr::LocalGet(3), WInstr::LocalSet(4), WInstr::F64Const(ONE_BITS), WInstr::LocalGet(4), WInstr::F64Div]
    );
    let mut zero = Vec::new();
    emit_ipow(&mut zero, 0, 3);
    assert_eq!(zero, vec![WInstr::Drop, WInstr::F64Const(1.0f64.to_bits())]);
}

#[test]
fn compile_errors_pass_through() {
    assert_eq!(compile_to_wasm(toks("q"), &VARS).unwrap_err(), "unknown variable 'q'");
}

#[test]
fn readiness_check() {
    let ok = compile(toks("pow(r, eps) + exp(r)"), &VARS).unwrap();
    assert!(aot_compilable(&ok));
    let bad = compile(toks("pow(r)"), &VARS).unwrap();
    assert!(!aot_compilable(&bad));
    let empty = compile(toks("exp()"), &VARS).unwrap();
    assert!(!aot_compilable(&empty));
}

#[test]
fn validator_rejects_garbage() {
    assert!(validate(&[0, 1, 2, 3]).is_err());
    assert!(validate(&[0x00, 0x61, 0x73, 0x6d, 1, 0, 0, 0]).is_ok());
}

#[test]
fn emitted_bodies_are_well_typed() {
    for src in [LJ, "eps*exp(-(r-sig))", "sqrt(r)**-3 - pow(r, sig) + log(abs(eps))**0", "-(r/sig)**2 * tan(r)"] {
        let e = compile(toks(src), &VARS).unwrap();
        let plan = aot_plan(&e, 3);
        let mut depth: usize = 0;
        for (k, i) in plan.body.iter().enumerate() {
            match *i {
                WInstr::F64Const(_) => depth += 1,
                WInstr::LocalGet(l) => {
                    assert!(l < 5);
                    depth += 1;
                },
                WInstr::LocalSet(l) => {
                    assert!(l < 5 && depth >= 1);
                    depth -= 1;
                },
                WInstr::F64Neg | WInstr::F64Sqrt | WInstr::F64Abs => assert!(depth >= 1),
                WInstr::F64Add | WInstr::F64Sub | WInstr::F64Mul | WInstr::F64Div => {
                    assert!(depth >= 2);
                    depth -= 1;
                },
                WInstr::Call(f) => {
                    let imported = plan.imports[f as usize];
                    if imported == Import::Powf {
                        assert!(depth >= 2);
                        depth -= 1;
                    } else {
                        assert!(depth >= 1);
                    }
                },
                WInstr::Drop => {
                    assert!(depth >= 1);
                    depth -= 1;
                },
                WInstr::End => {
                    assert_eq!(k, plan.body.len() - 1);
                    assert_eq!(depth, 1);
                },
            }
        }
    }
}

#[test]
fn body_size_check() {
    let e = compile(toks(LJ), &VARS).unwrap();
    assert!(potter_poc::aot::aot_body_fits(&aot_plan(&e, 3).body));
    assert!(potter_poc::aot::aot_body_fits(&[]));
    assert!(potter_poc::aot::aot_body_fits(&[WInstr::F64Const(0), WInstr::End]));
}

#[test]
fn validator_error_text_depends_on_bytes_only() {
    let a = validate(&[0, 1, 2, 3]).unwrap_err();
    let b = validate(&[0, 1, 2, 3]).unwrap_err();
    assert!(!a.is_empty());
    assert_eq!(a, b);
}
