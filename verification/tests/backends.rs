use fasteval::Evaler;
use potter_poc::aot::Import;
use potter_poc::dsl::{compile, tokenize, Expr, Func, Lexeme, Tok};
use potter_poc::fastexpr::{fasteval_compile, fasteval_message, fasteval_source, FastProgram};
use potter_poc::jit::{jit_compile, jit_plan, JInstr, JVal, JitPlan};

fn toks(src: &str) -> Vec<Tok> {
    tokenize(src)
        .unwrap()
        .into_iter()
        .map(|l| match l {
            Lexeme::Number(t) => Tok::Num(std::str::from_utf8(&t).unwrap().parse::<f64>().unwrap().to_bits()),
            Lexeme::Token(t) => t,
        })
        .collect()
}

const LJ: &str = "4*eps*((sig/r)**12 - (sig/r)**6)";
const VARS: [&str; 3] = ["r", "eps", "sig"];

fn eval(e: &Expr, env: &[f64]) -> f64 {
    match e {
        Expr::Num(v) => f64::from_bits(*v),
        Expr::Var(i) => env[*i],
        Expr::Neg(a) => -eval(a, env),
        Expr::Add(a, b) => eval(a, env) + eval(b, env),
        Expr::Sub(a, b) => eval(a, env) - eval(b, env),
        Expr::Mul(a, b) => eval(a, env) * eval(b, env),
        Expr::Div(a, b) => eval(a, env) / eval(b, env),
        Expr::Pow(a, b) => eval(a, env).powf(eval(b, env)),
        Expr::IPow(a, n) => eval(a, env).powi(*n),
        Expr::Call(f, args) => {
            let x = eval(&args[0], env);
            match f {
                Func::Exp => x.exp(),
                Func::Ln => x.ln(),
                Func::Log => x.log10(),
                Func::Sqrt => x.sqrt(),
                Func::Sin => x.sin(),
                Func::Cos => x.cos(),
                Func::Tan => x.tan(),
                Func::Abs => x.abs(),
                Func::Pow => x.powf(eval(&args[1], env)),
            }
        }
    }
}

/// Replays a plan in f64, checking that every operand is already defined.
fn run_plan(p: &JitPlan, env: &[f64; 3]) -> f64 {
    let mut vals: Vec<f64> = Vec::new();
    let val = |v: JVal, vals: &Vec<f64>| match v {
        JVal::Arg(i) => env[i],
        JVal::Inst(k) => {
            assert!(k < vals.len(), "operand defined later");
            vals[k]
        }
    };
    for ins in &p.code {
        let v = match *ins {
            JInstr::Const(b) => f64::from_bits(b),
            JInstr::Neg(x) => -val(x, &vals),
            JInstr::Add(x, y) => val(x, &vals) + val(y, &vals),
            JInstr::Sub(x, y) => val(x, &vals) - val(y, &vals),
            JInstr::Mul(x, y) => val(x, &vals) * val(y, &vals),
            JInstr::Div(x, y) => val(x, &vals) / val(y, &vals),
            JInstr::Sqrt(x) => val(x, &vals).sqrt(),
            JInstr::Abs(x) => val(x, &vals).abs(),
            JInstr::Powf(x, y) => val(x, &vals).powf(val(y, &vals)),
            JInstr::Call1(k, x) => {
                let a = val(x, &vals);
                match k {
                    Import::Exp => a.exp(),
                    Import::Ln => a.ln(),
                    Import::Log10 => a.log10(),
                    Import::Sin => a.sin(),
                    Import::Cos => a.cos(),
                    Import::Tan => a.tan(),
                    Import::Powf => panic!("powf takes two arguments"),
                }
            }
        };
        vals.push(v);
    }
    val(p.result, &vals)
}

fn fast_v(p: &FastProgram, r: f64, eps: f64, sig: f64) -> f64 {
    let mut ns = |name: &str, _args: Vec<f64>| match name {
        "r" => Some(r),
        "eps" => Some(eps),
        "sig" => Some(sig),
        _ => None,
    };
    p.instr.eval(&p.slab, &mut ns).unwrap()
}

#[test]
fn jit_plan_matches_tree_values() {
    let e = compile(toks(LJ), &VARS).unwrap();
    let p = jit_compile(toks(LJ)).unwrap();
    for &r in &[0.95_f64, 1.0, 1.2, 1.5, 2.0, 3.0] {
        assert!((eval(&e, &[r, 1.0, 1.0]) - run_plan(&p, &[r, 1.0, 1.0])).abs() < 1e-12, "v(r) mismatch at r={r}");
    }
}

#[test]
fn jit_plan_handles_transcendentals() {
    let src = "eps*exp(-r/sig) + sqrt(r)";
    let e = compile(toks(src), &VARS).unwrap();
    let p = jit_compile(toks(src)).unwrap();
    for &r in &[0.5_f64, 1.0, 2.0, 4.0] {
        assert!((eval(&e, &[r, 2.0, 1.5]) - run_plan(&p, &[r, 2.0, 1.5])).abs() < 1e-12, "transcendental mismatch at r={r}");
    }
    assert!(p.code.iter().any(|i| matches!(i, JInstr::Call1(Import::Exp, _))));
    assert!(p.code.iter().any(|i| matches!(i, JInstr::Sqrt(_))));
}

#[test]
fn jit_powers_by_squaring() {
    // r**12: squarings give r^2, r^4, r^8; the result multiplies r^4 by r^8.
    let e = compile(toks("r**12"), &VARS).unwrap();
    let p = jit_plan(&e);
    assert_eq!(
        p.code,
        vec![
            JInstr::Mul(JVal::Arg(0), JVal::Arg(0)),
            JInstr::Mul(JVal::Inst(0), JVal::Inst(0)),
            JInstr::Mul(JVal::Inst(1), JVal::Inst(1)),
            JInstr::Mul(JVal::Inst(1), JVal::Inst(2)),
        ]
    );
    assert_eq!(p.result, JVal::Inst(3));
    // negative and zero exponents
    let p = jit_plan(&compile(toks("r**-3 + r**0 + pow(r, sig)"), &VARS).unwrap());
    for &r in &[0.5_f64, 2.0] {
        let want = r.powi(-3) + 1.0 + r.powf(1.5);
        assert!((run_plan(&p, &[r, 0.0, 1.5]) - want).abs() < 1e-12);
    }
    // a bare parameter needs no instruction
    let p = jit_plan(&compile(toks("sig"), &VARS).unwrap());
    assert!(p.code.is_empty());
    assert_eq!(p.result, JVal::Arg(2));
}

#[test]
fn jit_compile_errors_pass_through() {
    assert_eq!(jit_compile(toks("1 +")).err().unwrap(), "unexpected token None");
    assert_eq!(jit_compile(toks("x")).err().unwrap(), "unknown variable 'x'");
}

#[test]
fn fasteval_source_uses_caret() {
    assert_eq!(fasteval_source(LJ), "4*eps*((sig/r)^12 - (sig/r)^6)");
    assert_eq!(fasteval_source("a***b**"), "a^*b^");
    assert_eq!(fasteval_source("\u{e9}**2*x"), "\u{e9}^2*x");
    assert_eq!(fasteval_source(""), "");
}

#[test]
fn fasteval_matches_tree_values() {
    let e = compile(toks(LJ), &VARS).unwrap();
    let f = fasteval_compile(LJ).unwrap();
    for &r in &[0.95_f64, 1.0, 1.2, 1.5, 2.0] {
        assert!((eval(&e, &[r, 1.0, 1.0]) - fast_v(&f, r, 1.0, 1.0)).abs() < 1e-12, "v(r) r={r}");
    }
}

#[test]
fn fasteval_errors_are_prefixed() {
    let m = fasteval_compile("1 +").err().unwrap();
    assert!(m.starts_with("fasteval parse error: "), "{m}");
    assert!(m.len() > "fasteval parse error: ".len());
    assert_eq!(fasteval_message("EOF"), "fasteval parse error: EOF");
}
