use potter_poc::dsl::{as_int_exp, int_exponent_of_bits, optimize, Expr};

#[test]
fn integer_valued_literals() {
    assert_eq!(int_exponent_of_bits(2.0f64.to_bits()), Some(2));
    assert_eq!(int_exponent_of_bits(12.0f64.to_bits()), Some(12));
    assert_eq!(int_exponent_of_bits((-3.0f64).to_bits()), Some(-3));
    assert_eq!(int_exponent_of_bits(1024.0f64.to_bits()), Some(1024));
    assert_eq!(int_exponent_of_bits((-1024.0f64).to_bits()), Some(-1024));
    assert_eq!(int_exponent_of_bits(0.0f64.to_bits()), Some(0));
    assert_eq!(int_exponent_of_bits((-0.0f64).to_bits()), Some(0));
    assert_eq!(int_exponent_of_bits(1.0f64.to_bits()), Some(1));
}

#[test]
fn non_integer_or_large_literals() {
    assert_eq!(int_exponent_of_bits(1025.0f64.to_bits()), None);
    assert_eq!(int_exponent_of_bits(0.5f64.to_bits()), None);
    assert_eq!(int_exponent_of_bits(2.5f64.to_bits()), None);
    assert_eq!(int_exponent_of_bits(1e300f64.to_bits()), None);
    assert_eq!(int_exponent_of_bits(f64::INFINITY.to_bits()), None);
    assert_eq!(int_exponent_of_bits(f64::NAN.to_bits()), None);
    assert_eq!(int_exponent_of_bits(f64::MIN_POSITIVE.to_bits()), None);
    assert_eq!(int_exponent_of_bits(5e-324f64.to_bits()), None);
}

#[test]
fn negated_literals() {
    let e = Expr::Neg(Box::new(Expr::Neg(Box::new(Expr::Num(7.0f64.to_bits())))));
    assert_eq!(as_int_exp(&e), Some(7));
    let f = Expr::Neg(Box::new(Expr::Num(7.0f64.to_bits())));
    assert_eq!(as_int_exp(&f), Some(-7));
    assert_eq!(as_int_exp(&Expr::Var(0)), None);
}

#[test]
fn optimize_is_idempotent_on_example() {
    let e = Expr::Pow(Box::new(Expr::Var(0)), Box::new(Expr::Num(6.0f64.to_bits())));
    let once = optimize(e);
    let s1 = format!("{:?}", once);
    let twice = optimize(once);
    assert_eq!(s1, "IPow(Var(0), 6)");
    assert_eq!(format!("{:?}", twice), s1);
}
