use potter_poc::dsl::{calls_all_have_args, compile, compile_program, program_slots, tokenize, Flattener, Lexeme, Op, Tok};

fn toks(src: &str) -> Vec<Tok> {
    tokenize(src)
        .unwrap()
        .into_iter()
        .map(|l| match l {
            Lexeme::Number(t) => Tok::Num(std::str::from_utf8(&t).unwrap().parse::<f64>().unwrap().to_bits()),
            Lexeme::Token(t) => t,
        })
        .collect()
}

const LJ: &str = "4*eps*((sig/r)**12 - (sig/r)**6)";
const VARS: [&str; 3] = ["r", "eps", "sig"];

#[test]
fn lj_program_shares_sig_over_r() {
    let p = compile_program(toks(LJ), &VARS).unwrap();
    let four = 4.0f64.to_bits();
    assert_eq!(
        p.ops,
        vec![
            Op::Const(four),
            Op::Var(1),
            Op::Mul(0, 1),
            Op::Var(2),
            Op::Var(0),
            Op::Div(3, 4),
            Op::IPow(5, 12),
            Op::IPow(5, 6),
            Op::Sub(6, 7),
            Op::Mul(2, 8),
        ]
    );
    assert_eq!(p.root, 9);
    assert_eq!(p.len(), 10);
    assert_eq!(program_slots(&p), 10);
    assert!(!p.is_empty());
}

#[test]
fn repeated_leaf_is_one_slot() {
    let p = compile_program(toks("r*r"), &VARS).unwrap();
    assert_eq!(p.ops, vec![Op::Var(0), Op::Mul(0, 0)]);
    assert_eq!(p.root, 1);
}

#[test]
fn equal_literals_share_a_slot() {
    // 2 and 2.0 have the same binary64 value
    let p = compile_program(toks("2 + 2.0"), &VARS).unwrap();
    assert_eq!(p.ops, vec![Op::Const(2.0f64.to_bits()), Op::Add(0, 0)]);
}

#[test]
fn pow_call_lowers_to_pow_and_unary_calls_keep_first_argument() {
    let p = compile_program(toks("pow(r, eps) + exp(sig, r)"), &VARS).unwrap();
    assert_eq!(
        p.ops,
        vec![Op::Var(0), Op::Var(1), Op::Pow(0, 1), Op::Var(2), Op::Call1(potter_poc::dsl::Func::Exp, 3), Op::Add(2, 4)]
    );
}

#[test]
fn no_operation_repeats() {
    let p = compile_program(toks("(r+eps)*(r+eps) - (r+eps)/sig + sig/(r+eps)"), &VARS).unwrap();
    for i in 0..p.ops.len() {
        for j in 0..i {
            assert_ne!(p.ops[i], p.ops[j]);
        }
    }
    assert!(p.root < p.ops.len());
}

#[test]
fn flattener_reuses_slots() {
    let mut f = Flattener { ops: Vec::new() };
    assert_eq!(f.push(Op::Var(0)), 0);
    assert_eq!(f.push(Op::Var(1)), 1);
    assert_eq!(f.push(Op::Var(0)), 0);
    assert_eq!(f.ops.len(), 2);
}

#[test]
fn program_errors_pass_through() {
    assert_eq!(compile_program(toks("1 +"), &VARS).err().unwrap(), "unexpected token None");
}

#[test]
fn argless_calls_are_detected() {
    assert!(!calls_all_have_args(&compile(toks("1 + exp()"), &VARS).unwrap()));
    assert!(calls_all_have_args(&compile(toks("1 + exp(r)"), &VARS).unwrap()));
}

#[test]
fn program_shape_on_examples() {
    for src in [LJ, "sig", "r*r + r*r", "sqrt(r) - pow(sig, eps) * exp(-r)", "(r+eps)*(r+eps)/(r+eps)"] {
        let p = compile_program(toks(src), &VARS).unwrap();
        assert_eq!(p.root, p.ops.len() - 1);
        for (i, op) in p.ops.iter().enumerate() {
            match *op {
                Op::Var(j) => assert!(j < VARS.len()),
                Op::Call1(f, a) => {
                    assert_ne!(f, potter_poc::dsl::Func::Pow);
                    assert!(a < i);
                },
                _ => {},
            }
        }
    }
    // a one-argument `pow` call stays a call
    let p = compile_program(toks("pow(r)"), &VARS).unwrap();
    assert_eq!(p.ops, vec![Op::Var(0), Op::Call1(potter_poc::dsl::Func::Pow, 0)]);
}
