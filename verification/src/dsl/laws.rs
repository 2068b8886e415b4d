//! Properties of the compilation pipeline that hold for every input.
use vstd::prelude::*;
use super::expr::{ExprV, Func};
use super::optimize::{int_exp, opt, opt_args, lemma_opt_args};
use super::token::{TokV, LexemeV};
use super::lexer::{lex_from, ident_end};
use super::text::bytes_as_chars;
use super::parser::{
    parse_all, parse_args, parse_expr, parse_infix, parse_prefix, tok_at, infix_op, mk_bin, func_of_name, find_var,
    BinOp, lemma_parse_positions,
};
use super::program::{
    Op, flat, wf_ops, calls_have_args, vars_below, pow_binary, ops_scoped, lemma_flat, lemma_flat_scoped,
    lemma_flat_root,
};
use super::compile::lemma_opt_calls_have_args;

verus! {

/// Folding leaves an exponent's integer value unchanged.
pub proof fn lemma_int_exp_opt(e: ExprV)
    ensures
        int_exp(opt(e)) == int_exp(e),
    decreases e,
{
    match e {
        ExprV::Neg(a) => {
            lemma_int_exp_opt(*a);
        },
        ExprV::Call(f, args) => {
            if f == Func::Pow && args.len() == 2 {
            } else {
            }
        },
        _ => {},
    }
}

/// Integer-power folding is idempotent: folding an already folded tree
/// changes nothing.
pub proof fn law_optimize_idempotent(e: ExprV)
    ensures
        opt(opt(e)) == opt(e),
    decreases e,
{
    match e {
        ExprV::Pow(a, b) => {
            lemma_int_exp_opt(*b);
            if int_exp(*b) is None {
                law_optimize_idempotent(*a);
                law_optimize_idempotent(*b);
            }
        },
        ExprV::Call(f, args) => {
            if f == Func::Pow && args.len() == 2 {
                lemma_int_exp_opt(args[1]);
                if int_exp(args[1]) is None {
                    law_optimize_idempotent(args[0]);
                    law_optimize_idempotent(args[1]);
                    let s = seq![opt(args[0]), opt(args[1])];
                    assert(s[1] == opt(args[1]));
                    assert(seq![opt(s[0]), opt(s[1])] =~= s);
                }
            } else {
                let s = opt_args(args);
                lemma_opt_args(args);
                lemma_opt_args(s);
                assert forall|i: int| 0 <= i < args.len() implies #[trigger] opt_args(s)[i] == s[i] by {
                    law_optimize_idempotent(args[i]);
                }
                assert(opt_args(s) =~= s);
            }
        },
        ExprV::Neg(a) => {
            law_optimize_idempotent(*a);
        },
        ExprV::Add(a, b) | ExprV::Sub(a, b) | ExprV::Mul(a, b) | ExprV::Div(a, b) => {
            law_optimize_idempotent(*a);
            law_optimize_idempotent(*b);
        },
        _ => {},
    }
}


pub open spec fn num(x: u64) -> ExprV {
    ExprV::Num(x)
}

pub open spec fn bx(e: ExprV) -> Box<ExprV> {
    Box::new(e)
}

/// `**` is right-associative: `x ** y ** z` is `x ** (y ** z)`.
pub proof fn law_pow_right_assoc(v: Seq<Seq<char>>, x: u64, y: u64, z: u64)
    ensures
        parse_all(seq![TokV::Num(x), TokV::Pow, TokV::Num(y), TokV::Pow, TokV::Num(z)], v)
            == Ok::<ExprV, Seq<char>>(ExprV::Pow(bx(num(x)), bx(ExprV::Pow(bx(num(y)), bx(num(z)))))),
{
    let t = seq![TokV::Num(x), TokV::Pow, TokV::Num(y), TokV::Pow, TokV::Num(z)];
    assert(parse_prefix(t, v, 4) == Ok::<(ExprV, int), Seq<char>>((num(z), 5)));
    assert(parse_infix(t, v, num(z), 5, 40) == Ok::<(ExprV, int), Seq<char>>((num(z), 5)));
    assert(parse_expr(t, v, 4, 40) == Ok::<(ExprV, int), Seq<char>>((num(z), 5)));
    let yz = ExprV::Pow(bx(num(y)), bx(num(z)));
    assert(parse_infix(t, v, yz, 5, 40) == Ok::<(ExprV, int), Seq<char>>((yz, 5)));
    assert(parse_infix(t, v, num(y), 3, 40) == Ok::<(ExprV, int), Seq<char>>((yz, 5)));
    assert(parse_prefix(t, v, 2) == Ok::<(ExprV, int), Seq<char>>((num(y), 3)));
    assert(parse_expr(t, v, 2, 40) == Ok::<(ExprV, int), Seq<char>>((yz, 5)));
    let all = ExprV::Pow(bx(num(x)), bx(yz));
    assert(parse_infix(t, v, all, 5, 0) == Ok::<(ExprV, int), Seq<char>>((all, 5)));
    assert(parse_infix(t, v, num(x), 1, 0) == Ok::<(ExprV, int), Seq<char>>((all, 5)));
    assert(parse_prefix(t, v, 0) == Ok::<(ExprV, int), Seq<char>>((num(x), 1)));
    assert(parse_expr(t, v, 0, 0) == Ok::<(ExprV, int), Seq<char>>((all, 5)));
}

/// `**` binds tighter than unary minus: `-x ** y` is `-(x ** y)`.
pub proof fn law_neg_below_pow(v: Seq<Seq<char>>, x: u64, y: u64)
    ensures
        parse_all(seq![TokV::Minus, TokV::Num(x), TokV::Pow, TokV::Num(y)], v)
            == Ok::<ExprV, Seq<char>>(ExprV::Neg(bx(ExprV::Pow(bx(num(x)), bx(num(y)))))),
{
    let t = seq![TokV::Minus, TokV::Num(x), TokV::Pow, TokV::Num(y)];
    let xy = ExprV::Pow(bx(num(x)), bx(num(y)));
    assert(parse_prefix(t, v, 3) == Ok::<(ExprV, int), Seq<char>>((num(y), 4)));
    assert(parse_infix(t, v, num(y), 4, 40) == Ok::<(ExprV, int), Seq<char>>((num(y), 4)));
    assert(parse_expr(t, v, 3, 40) == Ok::<(ExprV, int), Seq<char>>((num(y), 4)));
    assert(parse_infix(t, v, xy, 4, 35) == Ok::<(ExprV, int), Seq<char>>((xy, 4)));
    assert(parse_infix(t, v, num(x), 2, 35) == Ok::<(ExprV, int), Seq<char>>((xy, 4)));
    assert(parse_prefix(t, v, 1) == Ok::<(ExprV, int), Seq<char>>((num(x), 2)));
    assert(parse_expr(t, v, 1, 35) == Ok::<(ExprV, int), Seq<char>>((xy, 4)));
    let all = ExprV::Neg(bx(xy));
    assert(parse_prefix(t, v, 0) == Ok::<(ExprV, int), Seq<char>>((all, 4)));
    assert(parse_infix(t, v, all, 4, 0) == Ok::<(ExprV, int), Seq<char>>((all, 4)));
    assert(parse_expr(t, v, 0, 0) == Ok::<(ExprV, int), Seq<char>>((all, 4)));
}

/// `-` is left-associative: `x - y - z` is `(x - y) - z`.
pub proof fn law_sub_left_assoc(v: Seq<Seq<char>>, x: u64, y: u64, z: u64)
    ensures
        parse_all(seq![TokV::Num(x), TokV::Minus, TokV::Num(y), TokV::Minus, TokV::Num(z)], v)
            == Ok::<ExprV, Seq<char>>(ExprV::Sub(bx(ExprV::Sub(bx(num(x)), bx(num(y)))), bx(num(z)))),
{
    let t = seq![TokV::Num(x), TokV::Minus, TokV::Num(y), TokV::Minus, TokV::Num(z)];
    let xy = ExprV::Sub(bx(num(x)), bx(num(y)));
    let all = ExprV::Sub(bx(xy), bx(num(z)));
    assert(parse_prefix(t, v, 2) == Ok::<(ExprV, int), Seq<char>>((num(y), 3)));
    assert(parse_infix(t, v, num(y), 3, 11) == Ok::<(ExprV, int), Seq<char>>((num(y), 3)));
    assert(parse_expr(t, v, 2, 11) == Ok::<(ExprV, int), Seq<char>>((num(y), 3)));
    assert(parse_prefix(t, v, 4) == Ok::<(ExprV, int), Seq<char>>((num(z), 5)));
    assert(parse_infix(t, v, num(z), 5, 11) == Ok::<(ExprV, int), Seq<char>>((num(z), 5)));
    assert(parse_expr(t, v, 4, 11) == Ok::<(ExprV, int), Seq<char>>((num(z), 5)));
    assert(parse_infix(t, v, all, 5, 0) == Ok::<(ExprV, int), Seq<char>>((all, 5)));
    assert(parse_infix(t, v, xy, 3, 0) == Ok::<(ExprV, int), Seq<char>>((all, 5)));
    assert(parse_infix(t, v, num(x), 1, 0) == Ok::<(ExprV, int), Seq<char>>((all, 5)));
    assert(parse_prefix(t, v, 0) == Ok::<(ExprV, int), Seq<char>>((num(x), 1)));
    assert(parse_expr(t, v, 0, 0) == Ok::<(ExprV, int), Seq<char>>((all, 5)));
}

/// `/` is left-associative: `x / y / z` is `(x / y) / z`.
pub proof fn law_div_left_assoc(v: Seq<Seq<char>>, x: u64, y: u64, z: u64)
    ensures
        parse_all(seq![TokV::Num(x), TokV::Slash, TokV::Num(y), TokV::Slash, TokV::Num(z)], v)
            == Ok::<ExprV, Seq<char>>(ExprV::Div(bx(ExprV::Div(bx(num(x)), bx(num(y)))), bx(num(z)))),
{
    let t = seq![TokV::Num(x), TokV::Slash, TokV::Num(y), TokV::Slash, TokV::Num(z)];
    let xy = ExprV::Div(bx(num(x)), bx(num(y)));
    let all = ExprV::Div(bx(xy), bx(num(z)));
    assert(parse_prefix(t, v, 2) == Ok::<(ExprV, int), Seq<char>>((num(y), 3)));
    assert(parse_infix(t, v, num(y), 3, 21) == Ok::<(ExprV, int), Seq<char>>((num(y), 3)));
    assert(parse_expr(t, v, 2, 21) == Ok::<(ExprV, int), Seq<char>>((num(y), 3)));
    assert(parse_prefix(t, v, 4) == Ok::<(ExprV, int), Seq<char>>((num(z), 5)));
    assert(parse_infix(t, v, num(z), 5, 21) == Ok::<(ExprV, int), Seq<char>>((num(z), 5)));
    assert(parse_expr(t, v, 4, 21) == Ok::<(ExprV, int), Seq<char>>((num(z), 5)));
    assert(parse_infix(t, v, all, 5, 0) == Ok::<(ExprV, int), Seq<char>>((all, 5)));
    assert(parse_infix(t, v, xy, 3, 0) == Ok::<(ExprV, int), Seq<char>>((all, 5)));
    assert(parse_infix(t, v, num(x), 1, 0) == Ok::<(ExprV, int), Seq<char>>((all, 5)));
    assert(parse_prefix(t, v, 0) == Ok::<(ExprV, int), Seq<char>>((num(x), 1)));
    assert(parse_expr(t, v, 0, 0) == Ok::<(ExprV, int), Seq<char>>((all, 5)));
}

/// `/` and `*` bind alike, from the left: `x / y * z` is `(x / y) * z`.
pub proof fn law_div_then_mul(v: Seq<Seq<char>>, x: u64, y: u64, z: u64)
    ensures
        parse_all(seq![TokV::Num(x), TokV::Slash, TokV::Num(y), TokV::Star, TokV::Num(z)], v)
            == Ok::<ExprV, Seq<char>>(ExprV::Mul(bx(ExprV::Div(bx(num(x)), bx(num(y)))), bx(num(z)))),
{
    let t = seq![TokV::Num(x), TokV::Slash, TokV::Num(y), TokV::Star, TokV::Num(z)];
    let xy = ExprV::Div(bx(num(x)), bx(num(y)));
    let all = ExprV::Mul(bx(xy), bx(num(z)));
    assert(parse_prefix(t, v, 2) == Ok::<(ExprV, int), Seq<char>>((num(y), 3)));
    assert(parse_infix(t, v, num(y), 3, 21) == Ok::<(ExprV, int), Seq<char>>((num(y), 3)));
    assert(parse_expr(t, v, 2, 21) == Ok::<(ExprV, int), Seq<char>>((num(y), 3)));
    assert(parse_prefix(t, v, 4) == Ok::<(ExprV, int), Seq<char>>((num(z), 5)));
    assert(parse_infix(t, v, num(z), 5, 21) == Ok::<(ExprV, int), Seq<char>>((num(z), 5)));
    assert(parse_expr(t, v, 4, 21) == Ok::<(ExprV, int), Seq<char>>((num(z), 5)));
    assert(parse_infix(t, v, all, 5, 0) == Ok::<(ExprV, int), Seq<char>>((all, 5)));
    assert(parse_infix(t, v, xy, 3, 0) == Ok::<(ExprV, int), Seq<char>>((all, 5)));
    assert(parse_infix(t, v, num(x), 1, 0) == Ok::<(ExprV, int), Seq<char>>((all, 5)));
    assert(parse_prefix(t, v, 0) == Ok::<(ExprV, int), Seq<char>>((num(x), 1)));
    assert(parse_expr(t, v, 0, 0) == Ok::<(ExprV, int), Seq<char>>((all, 5)));
}

/// `*` and `/` bind alike, from the left: `x * y / z` is `(x * y) / z`.
pub proof fn law_mul_then_div(v: Seq<Seq<char>>, x: u64, y: u64, z: u64)
    ensures
        parse_all(seq![TokV::Num(x), TokV::Star, TokV::Num(y), TokV::Slash, TokV::Num(z)], v)
            == Ok::<ExprV, Seq<char>>(ExprV::Div(bx(ExprV::Mul(bx(num(x)), bx(num(y)))), bx(num(z)))),
{
    let t = seq![TokV::Num(x), TokV::Star, TokV::Num(y), TokV::Slash, TokV::Num(z)];
    let xy = ExprV::Mul(bx(num(x)), bx(num(y)));
    let all = ExprV::Div(bx(xy), bx(num(z)));
    assert(parse_prefix(t, v, 2) == Ok::<(ExprV, int), Seq<char>>((num(y), 3)));
    assert(parse_infix(t, v, num(y), 3, 21) == Ok::<(ExprV, int), Seq<char>>((num(y), 3)));
    assert(parse_expr(t, v, 2, 21) == Ok::<(ExprV, int), Seq<char>>((num(y), 3)));
    assert(parse_prefix(t, v, 4) == Ok::<(ExprV, int), Seq<char>>((num(z), 5)));
    assert(parse_infix(t, v, num(z), 5, 21) == Ok::<(ExprV, int), Seq<char>>((num(z), 5)));
    assert(parse_expr(t, v, 4, 21) == Ok::<(ExprV, int), Seq<char>>((num(z), 5)));
    assert(parse_infix(t, v, all, 5, 0) == Ok::<(ExprV, int), Seq<char>>((all, 5)));
    assert(parse_infix(t, v, xy, 3, 0) == Ok::<(ExprV, int), Seq<char>>((all, 5)));
    assert(parse_infix(t, v, num(x), 1, 0) == Ok::<(ExprV, int), Seq<char>>((all, 5)));
    assert(parse_prefix(t, v, 0) == Ok::<(ExprV, int), Seq<char>>((num(x), 1)));
    assert(parse_expr(t, v, 0, 0) == Ok::<(ExprV, int), Seq<char>>((all, 5)));
}

/// `*` binds tighter than `+`: `x + y * z` is `x + (y * z)`.
pub proof fn law_mul_binds_tighter(v: Seq<Seq<char>>, x: u64, y: u64, z: u64)
    ensures
        parse_all(seq![TokV::Num(x), TokV::Plus, TokV::Num(y), TokV::Star, TokV::Num(z)], v)
            == Ok::<ExprV, Seq<char>>(ExprV::Add(bx(num(x)), bx(ExprV::Mul(bx(num(y)), bx(num(z)))))),
{
    let t = seq![TokV::Num(x), TokV::Plus, TokV::Num(y), TokV::Star, TokV::Num(z)];
    let yz = ExprV::Mul(bx(num(y)), bx(num(z)));
    let all = ExprV::Add(bx(num(x)), bx(yz));
    assert(parse_prefix(t, v, 4) == Ok::<(ExprV, int), Seq<char>>((num(z), 5)));
    assert(parse_infix(t, v, num(z), 5, 21) == Ok::<(ExprV, int), Seq<char>>((num(z), 5)));
    assert(parse_expr(t, v, 4, 21) == Ok::<(ExprV, int), Seq<char>>((num(z), 5)));
    assert(parse_infix(t, v, yz, 5, 11) == Ok::<(ExprV, int), Seq<char>>((yz, 5)));
    assert(parse_infix(t, v, num(y), 3, 11) == Ok::<(ExprV, int), Seq<char>>((yz, 5)));
    assert(parse_prefix(t, v, 2) == Ok::<(ExprV, int), Seq<char>>((num(y), 3)));
    assert(parse_expr(t, v, 2, 11) == Ok::<(ExprV, int), Seq<char>>((yz, 5)));
    assert(parse_infix(t, v, all, 5, 0) == Ok::<(ExprV, int), Seq<char>>((all, 5)));
    assert(parse_infix(t, v, num(x), 1, 0) == Ok::<(ExprV, int), Seq<char>>((all, 5)));
    assert(parse_prefix(t, v, 0) == Ok::<(ExprV, int), Seq<char>>((num(x), 1)));
    assert(parse_expr(t, v, 0, 0) == Ok::<(ExprV, int), Seq<char>>((all, 5)));
}

/// Unary minus binds tighter than `*`: `-x * y` is `(-x) * y`.
pub proof fn law_neg_above_mul(v: Seq<Seq<char>>, x: u64, y: u64)
    ensures
        parse_all(seq![TokV::Minus, TokV::Num(x), TokV::Star, TokV::Num(y)], v)
            == Ok::<ExprV, Seq<char>>(ExprV::Mul(bx(ExprV::Neg(bx(num(x)))), bx(num(y)))),
{
    let t = seq![TokV::Minus, TokV::Num(x), TokV::Star, TokV::Num(y)];
    let nx = ExprV::Neg(bx(num(x)));
    let all = ExprV::Mul(bx(nx), bx(num(y)));
    assert(parse_prefix(t, v, 1) == Ok::<(ExprV, int), Seq<char>>((num(x), 2)));
    assert(parse_infix(t, v, num(x), 2, 35) == Ok::<(ExprV, int), Seq<char>>((num(x), 2)));
    assert(parse_expr(t, v, 1, 35) == Ok::<(ExprV, int), Seq<char>>((num(x), 2)));
    assert(parse_prefix(t, v, 0) == Ok::<(ExprV, int), Seq<char>>((nx, 2)));
    assert(parse_prefix(t, v, 3) == Ok::<(ExprV, int), Seq<char>>((num(y), 4)));
    assert(parse_infix(t, v, num(y), 4, 21) == Ok::<(ExprV, int), Seq<char>>((num(y), 4)));
    assert(parse_expr(t, v, 3, 21) == Ok::<(ExprV, int), Seq<char>>((num(y), 4)));
    assert(parse_infix(t, v, all, 4, 0) == Ok::<(ExprV, int), Seq<char>>((all, 4)));
    assert(parse_infix(t, v, nx, 2, 0) == Ok::<(ExprV, int), Seq<char>>((all, 4)));
    assert(parse_expr(t, v, 0, 0) == Ok::<(ExprV, int), Seq<char>>((all, 4)));
}

/// A unary minus may open an exponent: `x ** -y` is `x ** (-y)`.
pub proof fn law_pow_negative_exponent(v: Seq<Seq<char>>, x: u64, y: u64)
    ensures
        parse_all(seq![TokV::Num(x), TokV::Pow, TokV::Minus, TokV::Num(y)], v)
            == Ok::<ExprV, Seq<char>>(ExprV::Pow(bx(num(x)), bx(ExprV::Neg(bx(num(y)))))),
{
    let t = seq![TokV::Num(x), TokV::Pow, TokV::Minus, TokV::Num(y)];
    let ny = ExprV::Neg(bx(num(y)));
    let all = ExprV::Pow(bx(num(x)), bx(ny));
    assert(parse_prefix(t, v, 3) == Ok::<(ExprV, int), Seq<char>>((num(y), 4)));
    assert(parse_infix(t, v, num(y), 4, 35) == Ok::<(ExprV, int), Seq<char>>((num(y), 4)));
    assert(parse_expr(t, v, 3, 35) == Ok::<(ExprV, int), Seq<char>>((num(y), 4)));
    assert(parse_prefix(t, v, 2) == Ok::<(ExprV, int), Seq<char>>((ny, 4)));
    assert(parse_infix(t, v, ny, 4, 40) == Ok::<(ExprV, int), Seq<char>>((ny, 4)));
    assert(parse_expr(t, v, 2, 40) == Ok::<(ExprV, int), Seq<char>>((ny, 4)));
    assert(parse_infix(t, v, all, 4, 0) == Ok::<(ExprV, int), Seq<char>>((all, 4)));
    assert(parse_infix(t, v, num(x), 1, 0) == Ok::<(ExprV, int), Seq<char>>((all, 4)));
    assert(parse_prefix(t, v, 0) == Ok::<(ExprV, int), Seq<char>>((num(x), 1)));
    assert(parse_expr(t, v, 0, 0) == Ok::<(ExprV, int), Seq<char>>((all, 4)));
}


/// The name under which function `f` is written.
pub open spec fn func_name(f: Func) -> Seq<char> {
    match f {
        Func::Exp => "exp"@,
        Func::Ln => "ln"@,
        Func::Log => "log"@,
        Func::Sqrt => "sqrt"@,
        Func::Sin => "sin"@,
        Func::Cos => "cos"@,
        Func::Tan => "tan"@,
        Func::Abs => "abs"@,
        Func::Pow => "pow"@,
    }
}

pub proof fn lemma_func_name(f: Func)
    ensures
        func_of_name(func_name(f)) == Some(f),
{
    reveal_strlit("exp");
    reveal_strlit("ln");
    reveal_strlit("log");
    reveal_strlit("sqrt");
    reveal_strlit("sin");
    reveal_strlit("cos");
    reveal_strlit("tan");
    reveal_strlit("abs");
    reveal_strlit("pow");
    let n = func_name(f);
    // names differ in length or in their first or second character
    if f != Func::Exp { assert(n[0] != "exp"@[0] || n.len() != 3 || n[1] != "exp"@[1]); }
    if f != Func::Ln { assert(n.len() != 2); }
    if f != Func::Log { assert(n.len() != 3 || n[0] != "log"@[0] || n[1] != "log"@[1]); }
    if f != Func::Sqrt { assert(n.len() != 4); }
    if f != Func::Sin { assert(n.len() != 3 || n[0] != "sin"@[0] || n[1] != "sin"@[1]); }
    if f != Func::Cos { assert(n.len() != 3 || n[0] != "cos"@[0]); }
    if f != Func::Tan { assert(n.len() != 3 || n[0] != "tan"@[0]); }
    if f != Func::Abs { assert(n.len() != 3 || n[0] != "abs"@[0]); }
}

/// The operator token of a binary node.
pub open spec fn bin_tok(e: ExprV) -> TokV {
    match e {
        ExprV::Add(_, _) => TokV::Plus,
        ExprV::Sub(_, _) => TokV::Minus,
        ExprV::Mul(_, _) => TokV::Star,
        ExprV::Div(_, _) => TokV::Slash,
        _ => TokV::Pow,
    }
}

/// Fully parenthesized tokens of a tree over the variable names `v`:
/// every negation and binary operation is wrapped in parentheses, calls are
/// written `name(arg, ...)`.
pub open spec fn render(e: ExprV, v: Seq<Seq<char>>) -> Seq<TokV>
    decreases e, 0int,
{
    match e {
        ExprV::Num(x) => seq![TokV::Num(x)],
        ExprV::Var(i) => seq![TokV::Ident(v[i as int])],
        ExprV::Neg(a) => seq![TokV::LParen, TokV::Minus] + render(*a, v) + seq![TokV::RParen],
        ExprV::Add(a, b) | ExprV::Sub(a, b) | ExprV::Mul(a, b) | ExprV::Div(a, b) | ExprV::Pow(a, b) =>
            seq![TokV::LParen] + render(*a, v) + seq![bin_tok(e)] + render(*b, v) + seq![TokV::RParen],
        ExprV::IPow(a, _) => render(*a, v),
        ExprV::Call(f, args) => seq![TokV::Ident(func_name(f)), TokV::LParen] + render_args(args, v) + seq![TokV::RParen],
    }
}

/// Comma-separated arguments.
pub open spec fn render_args(s: Seq<ExprV>, v: Seq<Seq<char>>) -> Seq<TokV>
    decreases s, 1int,
{
    if s.len() == 0 {
        Seq::empty()
    } else if s.len() == 1 {
        render(s[0], v)
    } else {
        render(s[0], v) + seq![TokV::Comma] + render_args(s.subrange(1, s.len() as int), v)
    }
}

/// Trees the parser can produce over `v`: no `IPow`, variables in range.
pub open spec fn parsable(e: ExprV, v: Seq<Seq<char>>) -> bool
    decreases e, 0int,
{
    match e {
        ExprV::Num(_) => true,
        ExprV::Var(i) => i < v.len(),
        ExprV::Neg(a) => parsable(*a, v),
        ExprV::Add(a, b) | ExprV::Sub(a, b) | ExprV::Mul(a, b) | ExprV::Div(a, b) | ExprV::Pow(a, b) =>
            parsable(*a, v) && parsable(*b, v),
        ExprV::IPow(_, _) => false,
        ExprV::Call(_, args) => all_parsable(args, v),
    }
}

pub open spec fn all_parsable(s: Seq<ExprV>, v: Seq<Seq<char>>) -> bool
    decreases s, 1int,
{
    if s.len() == 0 {
        true
    } else {
        parsable(s[0], v) && all_parsable(s.subrange(1, s.len() as int), v)
    }
}

/// No variable name occurs twice.
pub open spec fn distinct_names(v: Seq<Seq<char>>) -> bool {
    forall|i: int, j: int| 0 <= i < j < v.len() ==> v[i] != v[j]
}

proof fn lemma_find_first(v: Seq<Seq<char>>, i: int, from: int)
    requires
        distinct_names(v),
        0 <= from <= i < v.len(),
    ensures
        find_var(v, v[i], from) == Some(i),
    decreases i - from,
{
    if from < i {
        assert(v[from] != v[i]);
        lemma_find_first(v, i, from + 1);
    }
}

pub open spec fn is_bin(e: ExprV) -> bool {
    e is Add || e is Sub || e is Mul || e is Div || e is Pow
}

pub open spec fn left(e: ExprV) -> ExprV {
    match e {
        ExprV::Add(a, _) | ExprV::Sub(a, _) | ExprV::Mul(a, _) | ExprV::Div(a, _) | ExprV::Pow(a, _) => *a,
        _ => e,
    }
}

pub open spec fn right(e: ExprV) -> ExprV {
    match e {
        ExprV::Add(_, b) | ExprV::Sub(_, b) | ExprV::Mul(_, b) | ExprV::Div(_, b) | ExprV::Pow(_, b) => *b,
        _ => e,
    }
}

pub open spec fn window(t: Seq<TokV>, pos: int, w: Seq<TokV>) -> bool {
    0 <= pos && pos + w.len() <= t.len() && t.subrange(pos, pos + w.len()) == w
}

proof fn lemma_window_split(t: Seq<TokV>, pos: int, a: Seq<TokV>, b: Seq<TokV>)
    requires
        window(t, pos, a + b),
    ensures
        window(t, pos, a),
        window(t, pos + a.len(), b),
{
    assert forall|k: int| 0 <= k < a.len() implies t.subrange(pos, pos + a.len())[k] == a[k] by {
        assert(t.subrange(pos, pos + (a + b).len())[k] == (a + b)[k]);
    }
    assert(t.subrange(pos, pos + a.len()) =~= a);
    assert forall|k: int| 0 <= k < b.len() implies t.subrange(pos + a.len(), pos + a.len() + b.len())[k] == b[k] by {
        assert(t.subrange(pos, pos + (a + b).len())[a.len() + k] == (a + b)[a.len() + k]);
    }
    assert(t.subrange(pos + a.len(), pos + a.len() + b.len()) =~= b);
}

proof fn lemma_window_at(t: Seq<TokV>, pos: int, w: Seq<TokV>, k: int)
    requires
        window(t, pos, w),
        0 <= k < w.len(),
    ensures
        tok_at(t, pos + k) == Some(w[k]),
{
    assert(t.subrange(pos, pos + w.len())[k] == w[k]);
}

/// A rendered parsable tree parses back, as a prefix form, to itself, when
/// it is not followed by `(`.
pub proof fn lemma_parse_rendered(t: Seq<TokV>, v: Seq<Seq<char>>, e: ExprV, pos: int)
    requires
        parsable(e, v),
        distinct_names(v),
        window(t, pos, render(e, v)),
        tok_at(t, pos + render(e, v).len()) != Some(TokV::LParen),
    ensures
        parse_prefix(t, v, pos) == Ok::<(ExprV, int), Seq<char>>((e, pos + render(e, v).len())),
        infix_op(tok_at(t, pos + render(e, v).len())) is None ==>
            parse_expr(t, v, pos, 0) == Ok::<(ExprV, int), Seq<char>>((e, pos + render(e, v).len())),
    decreases e, 0int,
{
    let r = render(e, v);
    let end = pos + r.len();
    match e {
        ExprV::Num(x) => {
            lemma_window_at(t, pos, r, 0);
        },
        ExprV::Var(i) => {
            lemma_window_at(t, pos, r, 0);
            lemma_find_first(v, i as int, 0);
        },
        ExprV::Neg(a) => {
            let ra = render(*a, v);
            assert(r == seq![TokV::LParen, TokV::Minus] + ra + seq![TokV::RParen]);
            assert(r =~= seq![TokV::LParen, TokV::Minus] + (ra + seq![TokV::RParen]));
            lemma_window_split(t, pos, seq![TokV::LParen, TokV::Minus], ra + seq![TokV::RParen]);
            lemma_window_split(t, pos + 2, ra, seq![TokV::RParen]);
            lemma_window_at(t, pos, r, 0);
            lemma_window_at(t, pos, r, 1);
            lemma_window_at(t, pos + 2 + ra.len(), seq![TokV::RParen], 0);
            lemma_parse_rendered(t, v, *a, pos + 2);
            let pa = pos + 2 + ra.len();
            // -a inside the parentheses
            assert(parse_infix(t, v, *a, pa, 35) == Ok::<(ExprV, int), Seq<char>>((*a, pa)));
            assert(parse_expr(t, v, pos + 2, 35) == Ok::<(ExprV, int), Seq<char>>((*a, pa)));
            assert(parse_prefix(t, v, pos + 1) == Ok::<(ExprV, int), Seq<char>>((e, pa)));
            assert(parse_infix(t, v, e, pa, 0) == Ok::<(ExprV, int), Seq<char>>((e, pa)));
            assert(parse_expr(t, v, pos + 1, 0) == Ok::<(ExprV, int), Seq<char>>((e, pa)));
        },
        ExprV::Add(a, b) | ExprV::Sub(a, b) | ExprV::Mul(a, b) | ExprV::Div(a, b) | ExprV::Pow(a, b) => {
            let ra = render(*a, v);
            let rb = render(*b, v);
            let op = bin_tok(e);
            assert(r == seq![TokV::LParen] + ra + seq![op] + rb + seq![TokV::RParen]);
            assert(r =~= seq![TokV::LParen] + (ra + (seq![op] + (rb + seq![TokV::RParen]))));
            lemma_window_split(t, pos, seq![TokV::LParen], ra + (seq![op] + (rb + seq![TokV::RParen])));
            lemma_window_split(t, pos + 1, ra, seq![op] + (rb + seq![TokV::RParen]));
            lemma_window_split(t, pos + 1 + ra.len(), seq![op], rb + seq![TokV::RParen]);
            lemma_window_split(t, pos + 2 + ra.len(), rb, seq![TokV::RParen]);
            lemma_window_at(t, pos, seq![TokV::LParen], 0);
            let pa = pos + 1 + ra.len();
            let pb = pa + 1 + rb.len();
            lemma_window_at(t, pa, seq![op], 0);
            lemma_window_at(t, pb, seq![TokV::RParen], 0);
            lemma_render_len(*a, v);
            lemma_render_len(*b, v);
            lemma_parse_rendered(t, v, *a, pos + 1);
            lemma_parse_rendered(t, v, *b, pa + 1);
            let (lbp, rbp, bop) = infix_op(Some(op))->0;
            assert(mk_bin(bop, *a, *b) == e);
            // b stops at the closing parenthesis
            assert(parse_infix(t, v, *b, pb, rbp) == Ok::<(ExprV, int), Seq<char>>((*b, pb)));
            assert(parse_expr(t, v, pa + 1, rbp) == Ok::<(ExprV, int), Seq<char>>((*b, pb)));
            assert(parse_infix(t, v, e, pb, 0) == Ok::<(ExprV, int), Seq<char>>((e, pb)));
            assert(parse_infix(t, v, *a, pa, 0) == Ok::<(ExprV, int), Seq<char>>((e, pb)));
            assert(parse_expr(t, v, pos + 1, 0) == Ok::<(ExprV, int), Seq<char>>((e, pb)));
        },
        ExprV::IPow(_, _) => {},
        ExprV::Call(f, args) => {
            let ra = render_args(args, v);
            assert(r == seq![TokV::Ident(func_name(f)), TokV::LParen] + ra + seq![TokV::RParen]);
            assert(r =~= seq![TokV::Ident(func_name(f)), TokV::LParen] + (ra + seq![TokV::RParen]));
            lemma_window_split(t, pos, seq![TokV::Ident(func_name(f)), TokV::LParen], ra + seq![TokV::RParen]);
            lemma_window_split(t, pos + 2, ra, seq![TokV::RParen]);
            lemma_window_at(t, pos, r, 0);
            lemma_window_at(t, pos, r, 1);
            lemma_window_at(t, pos + 2 + ra.len(), seq![TokV::RParen], 0);
            lemma_func_name(f);
            if args.len() == 0 {
                assert(args =~= Seq::<ExprV>::empty());
                assert(ra.len() == 0);
            } else {
                lemma_parse_rendered_args(t, v, args, pos + 2);
                assert(all_parsable(args, v));
                assert(parsable(args[0], v));
                lemma_render_len(args[0], v);
                if args.len() > 1 {
                    assert(ra == render(args[0], v) + seq![TokV::Comma]
                        + render_args(args.subrange(1, args.len() as int), v));
                }
                assert(ra[0] == render(args[0], v)[0]);
                lemma_window_at(t, pos + 2, ra, 0);
            }
        },
    }
    if infix_op(tok_at(t, end)) is None {
        assert(parse_infix(t, v, e, end, 0) == Ok::<(ExprV, int), Seq<char>>((e, end)));
    }
}

proof fn lemma_render_len(e: ExprV, v: Seq<Seq<char>>)
    requires
        parsable(e, v),
    ensures
        render(e, v).len() >= 1,
        render(e, v)[0] != TokV::RParen,
{
}

/// Rendered arguments followed by `)` parse back to themselves.
proof fn lemma_parse_rendered_args(t: Seq<TokV>, v: Seq<Seq<char>>, args: Seq<ExprV>, pos: int)
    requires
        args.len() >= 1,
        all_parsable(args, v),
        distinct_names(v),
        window(t, pos, render_args(args, v)),
        tok_at(t, pos + render_args(args, v).len()) == Some(TokV::RParen),
    ensures
        parse_args(t, v, pos) == Ok::<(Seq<ExprV>, int), Seq<char>>((args, pos + render_args(args, v).len())),
        render_args(args, v).len() >= 1,
    decreases args, 1int,
{
    let a = args[0];
    let ra = render(a, v);
    let rs = render_args(args, v);
    if args.len() == 1 {
        assert(rs == ra);
        lemma_parse_rendered(t, v, a, pos);
        assert(args =~= seq![a]);
    } else {
        let rest = args.subrange(1, args.len() as int);
        let rr = render_args(rest, v);
        assert(rs == ra + seq![TokV::Comma] + rr);
        assert(rs =~= ra + (seq![TokV::Comma] + rr));
        lemma_window_split(t, pos, ra, seq![TokV::Comma] + rr);
        lemma_window_split(t, pos + ra.len(), seq![TokV::Comma], rr);
        lemma_window_at(t, pos + ra.len(), seq![TokV::Comma], 0);
        lemma_parse_rendered(t, v, a, pos);
        lemma_parse_rendered_args(t, v, rest, pos + ra.len() + 1);
        assert(seq![a] + rest =~= args);
    }
}

/// Parsing is a left inverse of fully parenthesized rendering: every tree
/// the parser can produce over distinct variable names is recovered from its
/// rendering.
pub proof fn law_parse_render(e: ExprV, v: Seq<Seq<char>>)
    requires
        parsable(e, v),
        distinct_names(v),
    ensures
        parse_all(render(e, v), v) == Ok::<ExprV, Seq<char>>(e),
{
    let t = render(e, v);
    assert(t.subrange(0, t.len() as int) =~= t);
    lemma_parse_rendered(t, v, e, 0);
}


/// Folding integer powers keeps variables in range and two-argument `pow` calls.
pub proof fn lemma_opt_scoped(e: ExprV, nv: int)
    ensures
        vars_below(e, nv) ==> vars_below(opt(e), nv),
        pow_binary(e) ==> pow_binary(opt(e)),
    decreases e,
{
    match e {
        ExprV::Neg(a) | ExprV::IPow(a, _) => {
            lemma_opt_scoped(*a, nv);
        },
        ExprV::Add(a, b) | ExprV::Sub(a, b) | ExprV::Mul(a, b) | ExprV::Div(a, b) | ExprV::Pow(a, b) => {
            lemma_opt_scoped(*a, nv);
            lemma_opt_scoped(*b, nv);
        },
        ExprV::Call(f, args) => {
            lemma_opt_args(args);
            assert forall|k: int| 0 <= k < args.len() implies
                (vars_below(args[k], nv) ==> vars_below(opt(args[k]), nv))
                && (pow_binary(args[k]) ==> pow_binary(opt(args[k]))) by {
                lemma_opt_scoped(args[k], nv);
            }
            if f == Func::Pow && args.len() == 2 {
                let s = seq![opt(args[0]), opt(args[1])];
                assert(vars_below(e, nv) ==> vars_below(args[0], nv) && vars_below(args[1], nv));
                assert(pow_binary(e) ==> pow_binary(args[0]) && pow_binary(args[1]));
                assert(vars_below(e, nv) ==> forall|k: int| 0 <= k < s.len() ==> vars_below(#[trigger] s[k], nv));
                assert(pow_binary(e) ==> forall|k: int| 0 <= k < s.len() ==> pow_binary(#[trigger] s[k]));
            } else {
                let s = opt_args(args);
                if vars_below(e, nv) {
                    assert forall|k: int| 0 <= k < s.len() implies vars_below(#[trigger] s[k], nv) by {
                        assert(vars_below(args[k], nv));
                    }
                }
                if pow_binary(e) {
                    assert forall|k: int| 0 <= k < s.len() implies pow_binary(#[trigger] s[k]) by {
                        assert(pow_binary(args[k]));
                    }
                }
            }
        },
        _ => {},
    }
}

proof fn lemma_find_var_range(v: Seq<Seq<char>>, name: Seq<char>, from: int)
    requires
        0 <= from,
    ensures
        find_var(v, name, from) matches Some(k) ==> from <= k < v.len(),
    decreases v.len() - from,
{
    if 0 <= from < v.len() && v[from] != name {
        lemma_find_var_range(v, name, from + 1);
    }
}

/// Every tree the parser produces reads only the variables it was given.
pub proof fn lemma_parse_scoped(t: Seq<TokV>, v: Seq<Seq<char>>, pos: int, min_bp: u8, lhs: ExprV)
    requires
        0 <= pos <= t.len(),
        v.len() <= usize::MAX,
    ensures
        parse_prefix(t, v, pos) matches Ok((e, _)) ==> vars_below(e, v.len() as int),
        parse_expr(t, v, pos, min_bp) matches Ok((e, _)) ==> vars_below(e, v.len() as int),
        vars_below(lhs, v.len() as int) ==> (parse_infix(t, v, lhs, pos, min_bp) matches Ok((e, _)) ==> vars_below(
            e,
            v.len() as int,
        )),
        parse_args(t, v, pos) matches Ok((s, _)) ==> forall|k: int| 0 <= k < s.len() ==> vars_below(#[trigger] s[k], v.len() as int),
    decreases t.len() - pos,
{
    let nv = v.len() as int;
    lemma_parse_positions(t, v, pos, min_bp, lhs);
    lemma_parse_positions(t, v, pos, 0, lhs);
    // prefix
    match tok_at(t, pos) {
        Some(TokV::Minus) | Some(TokV::Plus) => {
            lemma_parse_scoped(t, v, pos + 1, 35, lhs);
        },
        Some(TokV::LParen) => {
            lemma_parse_scoped(t, v, pos + 1, 0, lhs);
        },
        Some(TokV::Ident(name)) => {
            if tok_at(t, pos + 1) == Some(TokV::LParen) {
                if tok_at(t, pos + 2) != Some(TokV::RParen) {
                    lemma_parse_scoped(t, v, pos + 2, 0, lhs);
                }
            } else {
                lemma_find_var_range(v, name, 0);
            }
        },
        _ => {},
    }
    // infix
    match infix_op(tok_at(t, pos)) {
        Some((lbp, rbp, op)) => {
            if lbp >= min_bp {
                lemma_parse_scoped(t, v, pos + 1, rbp, lhs);
                if let Ok((rhs, p2)) = parse_expr(t, v, pos + 1, rbp) {
                    if pos < p2 <= t.len() {
                        lemma_parse_scoped(t, v, p2, min_bp, mk_bin(op, lhs, rhs));
                    }
                }
            }
        },
        None => {},
    }
    // expression, at `min_bp` and at 0
    if let Ok((e, p)) = parse_prefix(t, v, pos) {
        if pos < p <= t.len() {
            lemma_parse_scoped(t, v, p, min_bp, e);
            lemma_parse_scoped(t, v, p, 0, e);
        }
    }
    // arguments
    if let Ok((a, p)) = parse_expr(t, v, pos, 0) {
        if pos < p <= t.len() && tok_at(t, p) == Some(TokV::Comma) {
            lemma_parse_scoped(t, v, p + 1, 0, lhs);
            if let Ok((rest, q)) = parse_args(t, v, p + 1) {
                let s = seq![a] + rest;
                assert forall|k: int| 0 <= k < s.len() implies vars_below(#[trigger] s[k], nv) by {
                    if k > 0 {
                        assert(s[k] == rest[k - 1]);
                    }
                }
            }
        }
    }
}

/// The shape of every compiled program: its root is the last slot, operands
/// refer to earlier slots, no operation occurs twice, every variable slot is
/// one of the given variables, and, when every `pow` call of the source has
/// two arguments, no operation is a one-argument `pow` call.
pub proof fn law_program_shape(t: Seq<TokV>, v: Seq<Seq<char>>)
    requires
        v.len() <= usize::MAX,
        parse_all(t, v) matches Ok(e) ==> calls_have_args(e) && flat(Seq::empty(), opt(e)).0.len() <= usize::MAX,
    ensures
        parse_all(t, v) matches Ok(e) ==> ({
            let (o, r) = flat(Seq::empty(), opt(e));
            &&& r == o.len() - 1
            &&& wf_ops(o)
            &&& ops_scoped(o, v.len() as int, pow_binary(e))
        }),
{
    if let Ok(e) = parse_all(t, v) {
        lemma_parse_scoped(t, v, 0, 0, ExprV::Num(0));
        lemma_opt_scoped(e, v.len() as int);
        lemma_opt_calls_have_args(e);
        let o0 = Seq::<Op>::empty();
        lemma_flat(o0, opt(e));
        lemma_flat_root(o0, opt(e));
        lemma_flat_scoped(o0, opt(e), v.len() as int, pow_binary(e));
    }
}


/// A byte that may continue an identifier: an ASCII letter of either case,
/// a digit, or `_`.
pub open spec fn word_byte(c: u8) -> bool {
    (65 <= c && c <= 90) || (97 <= c && c <= 122) || (48 <= c && c <= 57) || c == 95
}

proof fn lemma_ident_to_end(b: Seq<u8>, i: int)
    requires
        0 <= i <= b.len(),
        forall|k: int| 0 <= k < b.len() ==> word_byte(#[trigger] b[k]),
    ensures
        ident_end(b, i) == b.len(),
    decreases b.len() - i,
{
    if i < b.len() {
        assert(word_byte(b[i]));
        lemma_ident_to_end(b, i + 1);
    }
}

/// A source made of ASCII letters (upper or lower case), digits and `_`,
/// not starting with a digit, is one identifier: its own characters.
pub proof fn law_word_is_identifier(b: Seq<u8>)
    requires
        b.len() >= 1,
        forall|k: int| 0 <= k < b.len() ==> word_byte(#[trigger] b[k]),
        !(48 <= b[0] && b[0] <= 57),
    ensures
        lex_from(b, 0) == Ok::<Seq<LexemeV>, Seq<char>>(seq![LexemeV::Token(TokV::Ident(bytes_as_chars(b)))]),
{
    assert(word_byte(b[0]));
    lemma_ident_to_end(b, 0);
    assert(b.subrange(0, b.len() as int) =~= b);
    assert(lex_from(b, b.len() as int) == Ok::<Seq<LexemeV>, Seq<char>>(seq![]));
    assert(seq![LexemeV::Token(TokV::Ident(bytes_as_chars(b)))] + Seq::<LexemeV>::empty()
        =~= seq![LexemeV::Token(TokV::Ident(bytes_as_chars(b)))]);
}


/// `t` is `e` with some powers folded: node for node and function for
/// function the same tree, except that a power `a ** b` or `pow(a, b)` may
/// become the integer power `IPow(a', n)` when `b` is the integer literal `n`.
pub open spec fn folded_from(t: ExprV, e: ExprV) -> bool
    decreases e,
{
    match e {
        ExprV::Num(_) | ExprV::Var(_) => t == e,
        ExprV::Neg(a) => t matches ExprV::Neg(ta) && folded_from(*ta, *a),
        ExprV::Add(a, b) => t matches ExprV::Add(ta, tb) && folded_from(*ta, *a) && folded_from(*tb, *b),
        ExprV::Sub(a, b) => t matches ExprV::Sub(ta, tb) && folded_from(*ta, *a) && folded_from(*tb, *b),
        ExprV::Mul(a, b) => t matches ExprV::Mul(ta, tb) && folded_from(*ta, *a) && folded_from(*tb, *b),
        ExprV::Div(a, b) => t matches ExprV::Div(ta, tb) && folded_from(*ta, *a) && folded_from(*tb, *b),
        ExprV::IPow(a, n) => t matches ExprV::IPow(ta, m) && m == n && folded_from(*ta, *a),
        ExprV::Pow(a, b) => match t {
            ExprV::Pow(ta, tb) => folded_from(*ta, *a) && folded_from(*tb, *b),
            ExprV::IPow(ta, n) => int_exp(*b) == Some(n) && folded_from(*ta, *a),
            _ => false,
        },
        ExprV::Call(f, args) => if f == Func::Pow && args.len() == 2 {
            match t {
                ExprV::Call(g, s) => g == Func::Pow && s.len() == 2 && folded_from(s[0], args[0])
                    && folded_from(s[1], args[1]),
                ExprV::IPow(ta, n) => int_exp(args[1]) == Some(n) && folded_from(*ta, args[0]),
                _ => false,
            }
        } else {
            t matches ExprV::Call(g, s) && g == f && s.len() == args.len()
                && forall|i: int| 0 <= i < args.len() ==> folded_from(#[trigger] s[i], args[i])
        },
    }
}

proof fn lemma_folded_refl(e: ExprV)
    ensures
        folded_from(e, e),
    decreases e,
{
    match e {
        ExprV::Neg(a) | ExprV::IPow(a, _) => {
            lemma_folded_refl(*a);
        },
        ExprV::Add(a, b) | ExprV::Sub(a, b) | ExprV::Mul(a, b) | ExprV::Div(a, b) | ExprV::Pow(a, b) => {
            lemma_folded_refl(*a);
            lemma_folded_refl(*b);
        },
        ExprV::Call(f, args) => {
            assert forall|i: int| 0 <= i < args.len() implies folded_from(#[trigger] args[i], args[i]) by {
                lemma_folded_refl(args[i]);
            }
        },
        _ => {},
    }
}

/// Optimizing only folds powers: every other node, every call's function and
/// every variable and literal stays as it was.
pub proof fn law_optimize_only_folds_powers(e: ExprV)
    ensures
        folded_from(opt(e), e),
    decreases e,
{
    match e {
        ExprV::Neg(a) => {
            law_optimize_only_folds_powers(*a);
        },
        ExprV::IPow(a, _) => {
            lemma_folded_refl(*a);
        },
        ExprV::Add(a, b) | ExprV::Sub(a, b) | ExprV::Mul(a, b) | ExprV::Div(a, b) | ExprV::Pow(a, b) => {
            law_optimize_only_folds_powers(*a);
            law_optimize_only_folds_powers(*b);
        },
        ExprV::Call(f, args) => {
            lemma_opt_args(args);
            assert forall|i: int| 0 <= i < args.len() implies folded_from(#[trigger] opt(args[i]), args[i]) by {
                law_optimize_only_folds_powers(args[i]);
            }
            if f == Func::Pow && args.len() == 2 {
                let s = seq![opt(args[0]), opt(args[1])];
                assert(folded_from(s[0], args[0]) && folded_from(s[1], args[1]));
            } else {
                let s = opt_args(args);
                assert forall|i: int| 0 <= i < args.len() implies folded_from(#[trigger] s[i], args[i]) by {
                    assert(s[i] == opt(args[i]));
                }
            }
        },
        _ => {},
    }
}

} // verus!
