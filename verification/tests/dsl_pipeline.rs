use potter_poc::dsl::{
    compile, compile_program, compile_unoptimized, func_from_name, int_exponent_of_bits, tokenize,
    Expr, Func, Lexeme, Op, Program, Tok,
};

/// Tokens with each numeric literal replaced by its binary64 bit pattern.
fn toks(src: &str) -> Result<Vec<Tok>, String> {
    Ok(tokenize(src)?
        .into_iter()
        .map(|l| match l {
            Lexeme::Number(t) => Tok::Num(
                std::str::from_utf8(&t).unwrap().parse::<f64>().unwrap().to_bits(),
            ),
            Lexeme::Token(t) => t,
        })
        .collect())
}

fn eval(e: &Expr, env: &[f64]) -> f64 {
    match e {
        Expr::Num(v) => f64::from_bits(*v),
        Expr::Var(i) => env[*i],
        Expr::Neg(a) => -eval(a, env),
        Expr::Add(a, b) => eval(a, env) + eval(b, env),
        Expr::Sub(a, b) => eval(a, env) - eval(b, env),
        Expr::Mul(a, b) => eval(a, env) * eval(b, env),
        Expr::Div(a, b) => eval(a, env) / eval(b, env),
        Expr::Pow(a, b) => eval(a, env).powf(eval(b, env)),
        Expr::IPow(a, n) => eval(a, env).powi(*n),
        Expr::Call(f, args) => {
            let x = eval(&args[0], env);
            match f {
                Func::Exp => x.exp(),
                Func::Ln => x.ln(),
                Func::Log => x.log10(),
                Func::Sqrt => x.sqrt(),
                Func::Sin => x.sin(),
                Func::Cos => x.cos(),
                Func::Tan => x.tan(),
                Func::Abs => x.abs(),
                Func::Pow => x.powf(eval(&args[1], env)),
            }
        }
    }
}

fn eval_program(p: &Program, env: &[f64]) -> f64 {
    let mut s = vec![0.0; p.ops.len()];
    for (i, op) in p.ops.iter().enumerate() {
        s[i] = match *op {
            Op::Const(b) => f64::from_bits(b),
            Op::Var(j) => env[j],
            Op::Neg(a) => -s[a],
            Op::Add(a, b) => s[a] + s[b],
            Op::Sub(a, b) => s[a] - s[b],
            Op::Mul(a, b) => s[a] * s[b],
            Op::Div(a, b) => s[a] / s[b],
            Op::Pow(a, b) => s[a].powf(s[b]),
            Op::IPow(a, n) => s[a].powi(n),
            Op::Call1(f, a) => match f {
                Func::Exp => s[a].exp(),
                Func::Ln => s[a].ln(),
                Func::Log => s[a].log10(),
                Func::Sqrt => s[a].sqrt(),
                Func::Sin => s[a].sin(),
                Func::Cos => s[a].cos(),
                Func::Tan => s[a].tan(),
                Func::Abs => s[a].abs(),
                Func::Pow => unreachable!(),
            },
        };
    }
    s[p.root]
}

const LJ: &str = "4*eps*((sig/r)**12 - (sig/r)**6)";
const VARS: [&str; 3] = ["r", "eps", "sig"];

fn lj_v(r: f64) -> f64 {
    eval(&compile(toks(LJ).unwrap(), &VARS).unwrap(), &[r, 1.0, 1.0])
}

#[test]
fn dsl_matches_hardcoded_lj() {
    for &r in &[0.9_f64, 1.0, 1.1, 1.259_921, 1.5, 2.0, 3.0] {
        let hard = 4.0 * ((1.0 / r).powi(12) - (1.0 / r).powi(6));
        assert!((lj_v(r) - hard).abs() < 1e-12, "r={r}");
    }
}

#[test]
fn dsl_python_like_precedence() {
    let env: [f64; 0] = [];
    let ev = |s: &str| eval(&compile(toks(s).unwrap(), &[]).unwrap(), &env);
    assert_eq!(ev("-2**2"), -4.0);
    assert_eq!(ev("2**-1"), 0.5);
    assert_eq!(ev("2**3**2"), 512.0);
    assert_eq!(ev("-2*3"), -6.0);
}

#[test]
fn cse_matches_tree_dsl() {
    let c = compile_program(toks(LJ).unwrap(), &VARS).unwrap();
    // Sharing collapses the common (sig/r): fewer ops than the tree has nodes.
    assert!(c.len() <= 11, "expected CSE to shrink op count, got {}", c.len());
    for &r in &[0.95_f64, 1.0, 1.2, 1.5, 2.0, 3.0] {
        assert!((lj_v(r) - eval_program(&c, &[r, 1.0, 1.0])).abs() < 1e-12, "v(r) mismatch at r={r}");
    }
}
