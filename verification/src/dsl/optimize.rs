//! Integer-power folding: `x**n` and `pow(x, n)` with an integer literal
//! exponent become `IPow(x, n)`.
use vstd::prelude::*;
use vstd::arithmetic::power2::{pow2, lemma2_to64, lemma2_to64_rest, lemma_pow2_strictly_increases, lemma_pow2_pos};
use vstd::bits::lemma_u64_shl_is_mul;
use super::expr::{Expr, ExprV, Func, args_view, lemma_args_view};

verus! {

/// The biased exponent field of a binary64 bit pattern.
pub open spec fn biased_exponent(bits: u64) -> int {
    (bits as int / 0x10_0000_0000_0000) % 0x800
}

/// The fraction (mantissa) field of a binary64 bit pattern.
pub open spec fn fraction(bits: u64) -> int {
    bits as int % 0x10_0000_0000_0000
}

/// The magnitude of the binary64 value with these bits when that value is a
/// finite integer: zero, or `(2^52 + fraction) * 2^(exponent - 1075)` when that
/// is whole. `None` for non-integers, infinities and NaNs.
pub open spec fn integer_magnitude(bits: u64) -> Option<int> {
    let e = biased_exponent(bits);
    let f = fraction(bits);
    if e == 0 {
        if f == 0 {
            Some(0)
        } else {
            None
        }
    } else if e == 0x7ff {
        None
    } else if e >= 1075 {
        Some((0x10_0000_0000_0000 + f) * pow2((e - 1075) as nat))
    } else if (0x10_0000_0000_0000 + f) % (pow2((1075 - e) as nat) as int) == 0 {
        Some((0x10_0000_0000_0000 + f) / (pow2((1075 - e) as nat) as int))
    } else {
        None
    }
}

/// The exponent a literal stands for: its value when that is an integer of
/// magnitude at most 1024 (the sign bit negates it).
pub open spec fn literal_int_exponent(bits: u64) -> Option<i32> {
    match integer_magnitude(bits) {
        Some(m) => if m <= 1024 {
            Some((if bits as int >= 0x8000_0000_0000_0000 { -m } else { m }) as i32)
        } else {
            None
        },
        None => None,
    }
}

/// The integer exponent an expression stands for: an integer literal, possibly
/// negated any number of times.
pub open spec fn int_exp(e: ExprV) -> Option<i32>
    decreases e,
{
    match e {
        ExprV::Num(b) => literal_int_exponent(b),
        ExprV::Neg(a) => match int_exp(*a) {
            Some(n) => Some((-n) as i32),
            None => None,
        },
        _ => None,
    }
}

pub proof fn lemma_int_exp_bounds(e: ExprV)
    ensures
        int_exp(e) matches Some(n) ==> -1024 <= n <= 1024,
    decreases e,
{
    match e {
        ExprV::Neg(a) => {
            lemma_int_exp_bounds(*a);
        },
        ExprV::Num(b) => {
            let ex = biased_exponent(b);
            if 0 < ex < 1075 {
                lemma_pow2_pos((1075 - ex) as nat);
            }
        },
        _ => {},
    }
}

/// The tree with every `**` / two-argument `pow` whose exponent is an integer
/// literal replaced by `IPow`, recursively.
pub open spec fn opt(e: ExprV) -> ExprV
    decreases e, 0int,
{
    match e {
        ExprV::Pow(a, b) => match int_exp(*b) {
            Some(n) => ExprV::IPow(Box::new(opt(*a)), n),
            None => ExprV::Pow(Box::new(opt(*a)), Box::new(opt(*b))),
        },
        ExprV::Call(f, args) => if f == Func::Pow && args.len() == 2 {
            match int_exp(args[1]) {
                Some(n) => ExprV::IPow(Box::new(opt(args[0])), n),
                None => ExprV::Call(Func::Pow, seq![opt(args[0]), opt(args[1])]),
            }
        } else {
            ExprV::Call(f, opt_args(args))
        },
        ExprV::Neg(a) => ExprV::Neg(Box::new(opt(*a))),
        ExprV::Add(a, b) => ExprV::Add(Box::new(opt(*a)), Box::new(opt(*b))),
        ExprV::Sub(a, b) => ExprV::Sub(Box::new(opt(*a)), Box::new(opt(*b))),
        ExprV::Mul(a, b) => ExprV::Mul(Box::new(opt(*a)), Box::new(opt(*b))),
        ExprV::Div(a, b) => ExprV::Div(Box::new(opt(*a)), Box::new(opt(*b))),
        other => other,
    }
}

pub open spec fn opt_args(s: Seq<ExprV>) -> Seq<ExprV>
    decreases s, 1int,
{
    if s.len() == 0 {
        Seq::empty()
    } else {
        opt_args(s.subrange(0, s.len() - 1)).push(opt(s[s.len() - 1]))
    }
}

pub proof fn lemma_opt_args(s: Seq<ExprV>)
    ensures
        opt_args(s).len() == s.len(),
        forall|i: int| 0 <= i < s.len() ==> #[trigger] opt_args(s)[i] == opt(s[i]),
    decreases s.len(),
{
    if s.len() > 0 {
        let p = s.subrange(0, s.len() - 1);
        lemma_opt_args(p);
        assert forall|i: int| 0 <= i < s.len() implies #[trigger] opt_args(s)[i] == opt(s[i]) by {
            if i < s.len() - 1 {
                assert(p[i] == s[i]);
            }
        }
    }
}

/// If the binary64 value with bits `bits` is an integer of magnitude at most
/// 1024, that integer (as an `i32` exponent).
pub fn int_exponent_of_bits(bits: u64) -> (r: Option<i32>)
    ensures
        r == literal_int_exponent(bits),
{
    let e = (bits / 0x10_0000_0000_0000) % 0x800;
    let f = bits % 0x10_0000_0000_0000;
    let neg = bits >= 0x8000_0000_0000_0000;
    proof {
        lemma2_to64();
        lemma2_to64_rest();
    }
    if e == 0 {
        return if f == 0 {
            Some(0)
        } else {
            None
        };
    }
    if e == 0x7ff {
        return None;
    }
    let sig: u64 = 0x10_0000_0000_0000 + f;
    if e >= 1075 {
        proof {
            lemma_pow2_pos((e - 1075) as nat);
            assert(sig * pow2((e - 1075) as nat) >= sig) by (nonlinear_arith)
                requires
                    pow2((e - 1075) as nat) >= 1;
        }
        return None;
    }
    let sh: u64 = 1075 - e;
    if sh > 53 {
        proof {
            lemma_pow2_strictly_increases(53, sh as nat);
            assert(pow2(53) == 0x20_0000_0000_0000);
            assert((sig as nat) < pow2(sh as nat));
            vstd::arithmetic::div_mod::lemma_small_mod(sig as nat, pow2(sh as nat));
        }
        return None;
    }
    proof {
        if sh < 53 {
            lemma_pow2_strictly_increases(sh as nat, 53);
        }
        assert(pow2(53) == 0x20_0000_0000_0000);
        assert(pow2(sh as nat) <= 0x20_0000_0000_0000);
        assert(1 * pow2(sh as nat) <= u64::MAX);
        lemma_u64_shl_is_mul(1, sh);
    }
    let d: u64 = 1u64 << sh;
    assert(d as int == pow2(sh as nat));
    if sig % d != 0 {
        return None;
    }
    let m = sig / d;
    if m > 1024 {
        return None;
    }
    let mi = m as i32;
    if neg {
        Some(-mi)
    } else {
        Some(mi)
    }
}

/// The integer exponent `e` stands for, if any.
pub fn as_int_exp(e: &Expr) -> (r: Option<i32>)
    ensures
        r == int_exp(e@),
        r matches Some(n) ==> -1024 <= n <= 1024,
    decreases e,
{
    proof {
        lemma_int_exp_bounds(e@);
    }
    match e {
        Expr::Num(v) => int_exponent_of_bits(*v),
        Expr::Neg(inner) => match as_int_exp(inner) {
            Some(n) => Some(-n),
            None => None,
        },
        _ => None,
    }
}

/// Fold integer powers throughout the tree.
pub fn optimize(e: Expr) -> (r: Expr)
    ensures
        r@ == opt(e@),
    decreases e,
{
    match e {
        Expr::Pow(a, b) => {
            let a = optimize(*a);
            match as_int_exp(&b) {
                Some(n) => Expr::IPow(Box::new(a), n),
                None => Expr::Pow(Box::new(a), Box::new(optimize(*b))),
            }
        },
        Expr::Call(f, args) => {
            let ghost av0 = args;
            if f == Func::Pow && args.len() == 2 {
                let ghost s = args@;
                let mut args = args;
                let exp = args.pop().unwrap();
                let base = args.pop().unwrap();
                assert(base == s[0] && exp == s[1]);
                proof {
                    lemma_args_view(s);
                }
                let base = optimize(base);
                match as_int_exp(&exp) {
                    Some(n) => Expr::IPow(Box::new(base), n),
                    None => {
                        let exp = optimize(exp);
                        let mut out: Vec<Expr> = Vec::new();
                        out.push(base);
                        out.push(exp);
                        proof {
                            lemma_args_view(out@);
                            assert(args_view(out@) =~= seq![opt(s[0]@), opt(s[1]@)]);
                        }
                        Expr::Call(Func::Pow, out)
                    },
                }
            } else {
                let ghost s = args@;
                let mut rest = args;
                let mut out: Vec<Expr> = Vec::new();
                let mut k: usize = 0;
                let n = rest.len();
                proof {
                    lemma_args_view(s);
                }
                while rest.len() > 0
                    invariant
                        n == s.len(),
                        k + rest@.len() == n,
                        rest@ == s.subrange(k as int, n as int),
                        args_view(out@) == opt_args(args_view(s).take(k as int)),
                        args_view(s).len() == s.len(),
                        forall|i: int| 0 <= i < s.len() ==> #[trigger] args_view(s)[i] == s[i]@,
                        e == Expr::Call(f, av0),
                        s == av0@,
                    decreases rest@.len(),
                {
                    let x = rest.remove(0);
                    assert(x == s[k as int]);
                    proof {
                        vstd::std_specs::vec::axiom_vec_decreases_to_view(av0);
                        vstd::seq::axiom_seq_index_decreases(av0@, k as int);
                        assert(e->Call_1 == av0);
                        assert(decreases_to!(e => e->Call_1));
                    }
                    let y = optimize(x);
                    proof {
                        lemma_args_view(out@);
                        lemma_args_view(out@.push(y));
                        assert(args_view(out@.push(y)) =~= args_view(out@).push(y@));
                        assert(args_view(s).take(k + 1).subrange(0, k as int) =~= args_view(s).take(k as int));
                    }
                    out.push(y);
                    k = k + 1;
                    proof {
                        assert(rest@ =~= s.subrange(k as int, n as int));
                    }
                }
                proof {
                    assert(args_view(s).take(k as int) =~= args_view(s));
                }
                Expr::Call(f, out)
            }
        },
        Expr::Neg(a) => Expr::Neg(Box::new(optimize(*a))),
        Expr::Add(a, b) => Expr::Add(Box::new(optimize(*a)), Box::new(optimize(*b))),
        Expr::Sub(a, b) => Expr::Sub(Box::new(optimize(*a)), Box::new(optimize(*b))),
        Expr::Mul(a, b) => Expr::Mul(Box::new(optimize(*a)), Box::new(optimize(*b))),
        Expr::Div(a, b) => Expr::Div(Box::new(optimize(*a)), Box::new(optimize(*b))),
        other => other,
    }
}

} // verus!
