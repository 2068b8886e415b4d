//! Expression trees and their mathematical model.
use vstd::prelude::*;

verus! {

/// Built-in functions the language understands.
#[derive(Clone, Copy, Debug, PartialEq, Eq, Hash, Structural)]
pub enum Func {
    Exp,
    Ln,
    Log,
    Sqrt,
    Sin,
    Cos,
    Tan,
    Abs,
    Pow,
}

/// Compiled expression tree. Variables are resolved to slot indices at compile
/// time. A numeric literal is held as the bit pattern of its IEEE-754 binary64
/// value.
#[derive(Debug)]
pub enum Expr {
    Num(u64),
    Var(usize),
    Neg(Box<Expr>),
    Add(Box<Expr>, Box<Expr>),
    Sub(Box<Expr>, Box<Expr>),
    Mul(Box<Expr>, Box<Expr>),
    Div(Box<Expr>, Box<Expr>),
    Pow(Box<Expr>, Box<Expr>),
    /// Integer power `base^n`, produced when the exponent is an integer literal.
    IPow(Box<Expr>, i32),
    Call(Func, Vec<Expr>),
}

/// The mathematical value of an `Expr`: the same tree with call arguments as a
/// sequence.
pub enum ExprV {
    Num(u64),
    Var(usize),
    Neg(Box<ExprV>),
    Add(Box<ExprV>, Box<ExprV>),
    Sub(Box<ExprV>, Box<ExprV>),
    Mul(Box<ExprV>, Box<ExprV>),
    Div(Box<ExprV>, Box<ExprV>),
    Pow(Box<ExprV>, Box<ExprV>),
    IPow(Box<ExprV>, i32),
    Call(Func, Seq<ExprV>),
}

pub open spec fn expr_view(e: Expr) -> ExprV
    decreases e, 0int,
{
    match e {
        Expr::Num(v) => ExprV::Num(v),
        Expr::Var(i) => ExprV::Var(i),
        Expr::Neg(a) => ExprV::Neg(Box::new(expr_view(*a))),
        Expr::Add(a, b) => ExprV::Add(Box::new(expr_view(*a)), Box::new(expr_view(*b))),
        Expr::Sub(a, b) => ExprV::Sub(Box::new(expr_view(*a)), Box::new(expr_view(*b))),
        Expr::Mul(a, b) => ExprV::Mul(Box::new(expr_view(*a)), Box::new(expr_view(*b))),
        Expr::Div(a, b) => ExprV::Div(Box::new(expr_view(*a)), Box::new(expr_view(*b))),
        Expr::Pow(a, b) => ExprV::Pow(Box::new(expr_view(*a)), Box::new(expr_view(*b))),
        Expr::IPow(a, n) => ExprV::IPow(Box::new(expr_view(*a)), n),
        Expr::Call(f, args) => ExprV::Call(f, args_view(args@)),
    }
}

pub open spec fn args_view(s: Seq<Expr>) -> Seq<ExprV>
    decreases s, 1int,
{
    if s.len() == 0 {
        Seq::empty()
    } else {
        args_view(s.subrange(0, s.len() - 1)).push(expr_view(s[s.len() - 1]))
    }
}

pub proof fn lemma_args_view(s: Seq<Expr>)
    ensures
        args_view(s).len() == s.len(),
        forall|i: int| 0 <= i < s.len() ==> #[trigger] args_view(s)[i] == expr_view(s[i]),
    decreases s.len(),
{
    if s.len() > 0 {
        let p = s.subrange(0, s.len() - 1);
        lemma_args_view(p);
        assert forall|i: int| 0 <= i < s.len() implies #[trigger] args_view(s)[i] == expr_view(s[i]) by {
            if i < s.len() - 1 {
                assert(p[i] == s[i]);
            }
        }
    }
}

impl View for Expr {
    type V = ExprV;

    open spec fn view(&self) -> ExprV {
        expr_view(*self)
    }
}

} // verus!
