use potter_poc::dsl::{compile, compile_unoptimized, func_from_name, tokenize, Expr, Func, Lexeme, Tok};

fn toks(src: &str) -> Vec<Tok> {
    tokenize(src)
        .unwrap()
        .into_iter()
        .map(|l| match l {
            Lexeme::Number(t) => Tok::Num(std::str::from_utf8(&t).unwrap().parse::<f64>().unwrap().to_bits()),
            Lexeme::Token(t) => t,
        })
        .collect()
}

fn unopt(src: &str, vars: &[&str]) -> Result<String, String> {
    compile_unoptimized(toks(src), vars).map(|e| format!("{:?}", e))
}

fn two() -> u64 {
    2.0f64.to_bits()
}

#[test]
fn parse_errors() {
    assert_eq!(unopt("(1", &[]).unwrap_err(), "expected ')'");
    assert_eq!(unopt("exp(1", &[]).unwrap_err(), "expected ')'");
    assert_eq!(unopt("foo(1)", &[]).unwrap_err(), "unknown function 'foo'");
    assert_eq!(unopt("x", &[]).unwrap_err(), "unknown variable 'x'");
    assert_eq!(unopt("*1", &[]).unwrap_err(), "unexpected token Some(Star)");
    assert_eq!(unopt("", &[]).unwrap_err(), "unexpected token None");
    assert_eq!(unopt("1+", &[]).unwrap_err(), "unexpected token None");
    assert_eq!(unopt(")", &[]).unwrap_err(), "unexpected token Some(RParen)");
    assert_eq!(unopt("1 2", &[]).unwrap_err(), "trailing tokens after expression");
    assert_eq!(unopt("(1))", &[]).unwrap_err(), "trailing tokens after expression");
}

#[test]
fn parse_variables_resolve_to_first_slot() {
    assert_eq!(unopt("b", &["a", "b", "b"]).unwrap(), "Var(1)");
}

#[test]
fn parse_precedence_shapes() {
    let n = format!("Num({})", two());
    assert_eq!(unopt("-2**2", &[]).unwrap(), format!("Neg(Pow({n}, {n}))"));
    assert_eq!(unopt("2**2**2", &[]).unwrap(), format!("Pow({n}, Pow({n}, {n}))"));
    assert_eq!(unopt("2-2-2", &[]).unwrap(), format!("Sub(Sub({n}, {n}), {n})"));
    assert_eq!(unopt("2+2*2", &[]).unwrap(), format!("Add({n}, Mul({n}, {n}))"));
    assert_eq!(unopt("-2*2", &[]).unwrap(), format!("Mul(Neg({n}), {n})"));
    assert_eq!(unopt("+2", &[]).unwrap(), n);
}

#[test]
fn parse_calls() {
    let n = format!("Num({})", two());
    assert_eq!(unopt("sqrt(2)", &[]).unwrap(), format!("Call(Sqrt, [{n}])"));
    assert_eq!(unopt("pow(2, 2)", &[]).unwrap(), format!("Call(Pow, [{n}, {n}])"));
    assert_eq!(unopt("exp()", &[]).unwrap(), "Call(Exp, [])");
}

#[test]
fn function_names() {
    let cases: [(&str, Func); 9] = [
        ("exp", Func::Exp),
        ("ln", Func::Ln),
        ("log", Func::Log),
        ("sqrt", Func::Sqrt),
        ("sin", Func::Sin),
        ("cos", Func::Cos),
        ("tan", Func::Tan),
        ("abs", Func::Abs),
        ("pow", Func::Pow),
    ];
    for (name, f) in cases {
        assert_eq!(func_from_name(name).unwrap(), f);
    }
    assert_eq!(func_from_name("log10").unwrap_err(), "unknown function 'log10'");
    assert_eq!(func_from_name("Exp").unwrap_err(), "unknown function 'Exp'");
    assert_eq!(func_from_name("\u{e9}").unwrap_err(), "unknown function '\u{e9}'");
}

#[test]
fn non_ascii_names_are_quoted_as_written() {
    let t = vec![Tok::Ident("\u{e9}t\u{e9}".to_string())];
    assert_eq!(compile_unoptimized(t, &["x"]).unwrap_err(), "unknown variable '\u{e9}t\u{e9}'");
    let t = vec![Tok::Ident("\u{e9}".to_string())];
    assert_eq!(format!("{:?}", compile_unoptimized(t, &["\u{e9}"]).unwrap()), "Var(0)");
    let t = vec![Tok::Ident("f\u{e9}".to_string()), Tok::LParen, Tok::Num(0), Tok::RParen];
    assert_eq!(compile_unoptimized(t, &[]).unwrap_err(), "unknown function 'f\u{e9}'");
}

#[test]
fn compile_folds_integer_powers() {
    let e = compile(toks("r**12 + pow(r, -2) + r**2.5 + r**r"), &["r"]).unwrap();
    let h = 2.5f64.to_bits();
    assert_eq!(
        format!("{:?}", e),
        format!("Add(Add(Add(IPow(Var(0), 12), IPow(Var(0), -2)), Pow(Var(0), Num({h}))), Pow(Var(0), Var(0)))")
    );
    let m = compile(toks("x**--3"), &["x"]).unwrap();
    assert!(matches!(m, Expr::IPow(_, 3)));
}

#[test]
fn parenthesized_rendering_parses_back() {
    let n = format!("Num({})", two());
    assert_eq!(
        unopt("((x - (-y)) ** sin(((2 / x) * 2), y))", &["x", "y"]).unwrap(),
        format!("Pow(Sub(Var(0), Neg(Var(1))), Call(Sin, [Mul(Div({n}, Var(0)), {n}), Var(1)]))")
    );
    assert_eq!(unopt("exp()", &[]).unwrap(), "Call(Exp, [])");
}
