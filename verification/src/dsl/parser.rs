//! Precedence-climbing (Pratt) parser from tokens to expression trees.
use vstd::prelude::*;
use vstd::string::StringExecFns;
use super::expr::{Expr, ExprV, Func, args_view, lemma_args_view};
use super::token::{Tok, TokV, toks_view};
use super::text::enclosed;

verus! {

/// The infix operators.
#[derive(Clone, Copy, Debug, PartialEq, Eq, Structural)]
pub enum BinOp {
    Add,
    Sub,
    Mul,
    Div,
    Pow,
}

pub open spec fn tok_at(t: Seq<TokV>, p: int) -> Option<TokV> {
    if 0 <= p < t.len() {
        Some(t[p])
    } else {
        None
    }
}

/// Left and right binding powers of an infix operator token: `+ -` bind at
/// 10/11, `* /` at 20/21, and `**` at 41/40 (right-associative and tighter
/// than unary minus, whose operand is parsed at 35).
pub open spec fn infix_op(t: Option<TokV>) -> Option<(u8, u8, BinOp)> {
    match t {
        Some(TokV::Plus) => Some((10u8, 11u8, BinOp::Add)),
        Some(TokV::Minus) => Some((10u8, 11u8, BinOp::Sub)),
        Some(TokV::Star) => Some((20u8, 21u8, BinOp::Mul)),
        Some(TokV::Slash) => Some((20u8, 21u8, BinOp::Div)),
        Some(TokV::Pow) => Some((41u8, 40u8, BinOp::Pow)),
        _ => None,
    }
}

pub open spec fn mk_bin(op: BinOp, a: ExprV, b: ExprV) -> ExprV {
    match op {
        BinOp::Add => ExprV::Add(Box::new(a), Box::new(b)),
        BinOp::Sub => ExprV::Sub(Box::new(a), Box::new(b)),
        BinOp::Mul => ExprV::Mul(Box::new(a), Box::new(b)),
        BinOp::Div => ExprV::Div(Box::new(a), Box::new(b)),
        BinOp::Pow => ExprV::Pow(Box::new(a), Box::new(b)),
    }
}

/// The built-in function named by `name`, if any.
pub open spec fn func_of_name(name: Seq<char>) -> Option<Func> {
    if name == "exp"@ {
        Some(Func::Exp)
    } else if name == "ln"@ {
        Some(Func::Ln)
    } else if name == "log"@ {
        Some(Func::Log)
    } else if name == "sqrt"@ {
        Some(Func::Sqrt)
    } else if name == "sin"@ {
        Some(Func::Sin)
    } else if name == "cos"@ {
        Some(Func::Cos)
    } else if name == "tan"@ {
        Some(Func::Tan)
    } else if name == "abs"@ {
        Some(Func::Abs)
    } else if name == "pow"@ {
        Some(Func::Pow)
    } else {
        None
    }
}

/// The first index `k >= from` whose variable name is `name`.
pub open spec fn find_var(vars: Seq<Seq<char>>, name: Seq<char>, from: int) -> Option<int>
    decreases vars.len() - from,
{
    if 0 <= from < vars.len() {
        if vars[from] == name {
            Some(from)
        } else {
            find_var(vars, name, from + 1)
        }
    } else {
        None
    }
}

/// The variable names, as character sequences.
pub open spec fn vars_view(vars: Seq<&str>) -> Seq<Seq<char>> {
    vars.map_values(|v: &str| v@)
}

pub open spec fn expected_rparen_msg() -> Seq<char> {
    "expected ')'"@
}

pub open spec fn unknown_function_msg(name: Seq<char>) -> Seq<char> {
    "unknown function '"@ + name + "'"@
}

pub open spec fn unknown_variable_msg(name: Seq<char>) -> Seq<char> {
    "unknown variable '"@ + name + "'"@
}

/// `{:?}` of the token options that can start no operand.
pub open spec fn tok_debug(t: Option<TokV>) -> Seq<char> {
    match t {
        None => "None"@,
        Some(TokV::Star) => "Some(Star)"@,
        Some(TokV::Slash) => "Some(Slash)"@,
        Some(TokV::Pow) => "Some(Pow)"@,
        Some(TokV::RParen) => "Some(RParen)"@,
        Some(TokV::Comma) => "Some(Comma)"@,
        Some(TokV::Plus) => "Some(Plus)"@,
        Some(TokV::Minus) => "Some(Minus)"@,
        Some(TokV::LParen) => "Some(LParen)"@,
        _ => Seq::empty(),
    }
}

pub open spec fn unexpected_token_msg(t: Option<TokV>) -> Seq<char> {
    "unexpected token "@ + tok_debug(t)
}

pub open spec fn trailing_msg() -> Seq<char> {
    "trailing tokens after expression"@
}

/// Parse an expression at `pos` whose infix operators bind at least `min_bp`;
/// the result is the tree and the position after it.
pub open spec fn parse_expr(t: Seq<TokV>, v: Seq<Seq<char>>, pos: int, min_bp: u8) -> Result<(ExprV, int), Seq<char>>
    decreases t.len() - pos, 1int,
{
    if 0 <= pos <= t.len() {
        match parse_prefix(t, v, pos) {
            Ok((lhs, p)) => if pos < p <= t.len() {
                parse_infix(t, v, lhs, p, min_bp)
            } else {
                Err(Seq::empty())
            },
            Err(m) => Err(m),
        }
    } else {
        Err(Seq::empty())
    }
}

/// Extend `lhs` with infix operators at `pos` binding at least `min_bp`.
pub open spec fn parse_infix(t: Seq<TokV>, v: Seq<Seq<char>>, lhs: ExprV, pos: int, min_bp: u8) -> Result<(ExprV, int), Seq<char>>
    decreases t.len() - pos, 1int,
{
    match infix_op(tok_at(t, pos)) {
        None => Ok((lhs, pos)),
        Some((lbp, rbp, op)) => if lbp < min_bp {
            Ok((lhs, pos))
        } else {
            match parse_expr(t, v, pos + 1, rbp) {
                Ok((rhs, p2)) => if pos < p2 <= t.len() {
                    parse_infix(t, v, mk_bin(op, lhs, rhs), p2, min_bp)
                } else {
                    Err(Seq::empty())
                },
                Err(m) => Err(m),
            }
        },
    }
}

/// Parse a prefix form (number, unary sign, parenthesis, call, variable) at `pos`.
pub open spec fn parse_prefix(t: Seq<TokV>, v: Seq<Seq<char>>, pos: int) -> Result<(ExprV, int), Seq<char>>
    decreases t.len() - pos, 0int,
{
    match tok_at(t, pos) {
        Some(TokV::Num(x)) => Ok((ExprV::Num(x), pos + 1)),
        Some(TokV::Minus) => match parse_expr(t, v, pos + 1, 35) {
            Ok((e, p)) => Ok((ExprV::Neg(Box::new(e)), p)),
            Err(m) => Err(m),
        },
        Some(TokV::Plus) => parse_expr(t, v, pos + 1, 35),
        Some(TokV::LParen) => match parse_expr(t, v, pos + 1, 0) {
            Ok((e, p)) => if tok_at(t, p) == Some(TokV::RParen) {
                Ok((e, p + 1))
            } else {
                Err(expected_rparen_msg())
            },
            Err(m) => Err(m),
        },
        Some(TokV::Ident(name)) => if tok_at(t, pos + 1) == Some(TokV::LParen) {
            let args = if tok_at(t, pos + 2) == Some(TokV::RParen) {
                Ok((Seq::<ExprV>::empty(), pos + 2))
            } else {
                parse_args(t, v, pos + 2)
            };
            match args {
                Ok((a, p)) => if tok_at(t, p) == Some(TokV::RParen) {
                    match func_of_name(name) {
                        Some(f) => Ok((ExprV::Call(f, a), p + 1)),
                        None => Err(unknown_function_msg(name)),
                    }
                } else {
                    Err(expected_rparen_msg())
                },
                Err(m) => Err(m),
            }
        } else {
            match find_var(v, name, 0) {
                Some(k) => Ok((ExprV::Var(k as usize), pos + 1)),
                None => Err(unknown_variable_msg(name)),
            }
        },
        other => Err(unexpected_token_msg(other)),
    }
}

/// Parse comma-separated call arguments at `pos`.
pub open spec fn parse_args(t: Seq<TokV>, v: Seq<Seq<char>>, pos: int) -> Result<(Seq<ExprV>, int), Seq<char>>
    decreases t.len() - pos, 2int,
{
    if 0 <= pos <= t.len() {
        match parse_expr(t, v, pos, 0) {
            Ok((a, p)) => if pos < p <= t.len() {
                if tok_at(t, p) == Some(TokV::Comma) {
                    match parse_args(t, v, p + 1) {
                        Ok((rest, q)) => Ok((seq![a] + rest, q)),
                        Err(m) => Err(m),
                    }
                } else {
                    Ok((seq![a], p))
                }
            } else {
                Err(Seq::empty())
            },
            Err(m) => Err(m),
        }
    } else {
        Err(Seq::empty())
    }
}

/// A whole token sequence as one expression.
pub open spec fn parse_all(t: Seq<TokV>, v: Seq<Seq<char>>) -> Result<ExprV, Seq<char>> {
    match parse_expr(t, v, 0, 0) {
        Ok((e, p)) => if p != t.len() {
            Err(trailing_msg())
        } else {
            Ok(e)
        },
        Err(m) => Err(m),
    }
}

/// Every parse step that succeeds consumes input and stays within it.
pub proof fn lemma_parse_positions(t: Seq<TokV>, v: Seq<Seq<char>>, pos: int, min_bp: u8, lhs: ExprV)
    requires
        0 <= pos <= t.len(),
    ensures
        parse_expr(t, v, pos, min_bp) matches Ok((_, p)) ==> pos < p <= t.len(),
        parse_prefix(t, v, pos) matches Ok((_, p)) ==> pos < p <= t.len(),
        parse_infix(t, v, lhs, pos, min_bp) matches Ok((_, p)) ==> pos <= p <= t.len(),
        parse_args(t, v, pos) matches Ok((_, p)) ==> pos < p <= t.len(),
    decreases t.len() - pos,
{
    // prefix
    match tok_at(t, pos) {
        Some(TokV::Minus) | Some(TokV::Plus) | Some(TokV::LParen) => {
            lemma_parse_positions(t, v, pos + 1, 35, lhs);
            lemma_parse_positions(t, v, pos + 1, 0, lhs);
        },
        Some(TokV::Ident(name)) => {
            if tok_at(t, pos + 1) == Some(TokV::LParen) && tok_at(t, pos + 2) != Some(TokV::RParen) {
                lemma_parse_positions(t, v, pos + 2, 0, lhs);
            }
        },
        _ => {},
    }
    // infix
    match infix_op(tok_at(t, pos)) {
        Some((lbp, rbp, op)) => {
            if lbp >= min_bp {
                lemma_parse_positions(t, v, pos + 1, rbp, lhs);
                if let Ok((rhs, p2)) = parse_expr(t, v, pos + 1, rbp) {
                    lemma_parse_positions(t, v, p2, min_bp, mk_bin(op, lhs, rhs));
                }
            }
        },
        None => {},
    }
    // expr and args: the recursive facts at later positions
    if let Ok((e, p)) = parse_prefix(t, v, pos) {
        lemma_parse_positions(t, v, p, min_bp, e);
    }
    if let Ok((a, p)) = parse_expr(t, v, pos, 0) {
        if pos < p <= t.len() && tok_at(t, p) == Some(TokV::Comma) {
            lemma_parse_positions(t, v, p + 1, 0, lhs);
        }
    }
}


/// Whether two byte strings are equal.
pub fn bytes_eq(a: &[u8], b: &[u8]) -> (r: bool)
    ensures
        r == (a@ == b@),
{
    if a.len() != b.len() {
        return false;
    }
    let mut k: usize = 0;
    while k < a.len()
        invariant
            a@.len() == b@.len(),
            0 <= k <= a@.len(),
            forall|j: int| 0 <= j < k ==> a@[j] == b@[j],
        decreases a@.len() - k,
    {
        if a[k] != b[k] {
            return false;
        }
        k = k + 1;
    }
    proof {
        assert(a@ =~= b@);
    }
    true
}

/// Whether two strings hold the same characters.
pub fn str_eq(a: &str, b: &str) -> (r: bool)
    ensures
        r == (a@ == b@),
{
    let r = bytes_eq(a.as_bytes(), b.as_bytes());
    proof {
        vstd::utf8::encode_utf8_decode_utf8(a@);
        vstd::utf8::encode_utf8_decode_utf8(b@);
    }
    r
}

/// Index of the first variable named `name`.
pub fn position_of(vars: &[&str], name: &str) -> (r: Option<usize>)
    ensures
        match r {
            Some(k) => find_var(vars_view(vars@), name@, 0) == Some(k as int),
            None => find_var(vars_view(vars@), name@, 0) is None,
        },
{
    let ghost vs = vars_view(vars@);
    let mut k: usize = 0;
    while k < vars.len()
        invariant
            0 <= k <= vars@.len(),
            vs == vars_view(vars@),
            find_var(vs, name@, 0) == find_var(vs, name@, k as int),
        decreases vars@.len() - k,
    {
        let v: &str = vars[k];
        assert(vs[k as int] == v@);
        if str_eq(v, name) {
            return Some(k);
        }
        k = k + 1;
    }
    None
}

/// The built-in function named by `name`, or the error message.
pub fn func_from_name(name: &str) -> (r: Result<Func, String>)
    ensures
        match r {
            Ok(f) => func_of_name(name@) == Some(f),
            Err(m) => func_of_name(name@) is None && m@ == unknown_function_msg(name@),
        },
{
    if str_eq(name, "exp") {
        Ok(Func::Exp)
    } else if str_eq(name, "ln") {
        Ok(Func::Ln)
    } else if str_eq(name, "log") {
        Ok(Func::Log)
    } else if str_eq(name, "sqrt") {
        Ok(Func::Sqrt)
    } else if str_eq(name, "sin") {
        Ok(Func::Sin)
    } else if str_eq(name, "cos") {
        Ok(Func::Cos)
    } else if str_eq(name, "tan") {
        Ok(Func::Tan)
    } else if str_eq(name, "abs") {
        Ok(Func::Abs)
    } else if str_eq(name, "pow") {
        Ok(Func::Pow)
    } else {
        Err(enclosed("unknown function '", name, "'"))
    }
}

fn mk_bin_expr(op: BinOp, a: Expr, b: Expr) -> (r: Expr)
    ensures
        r@ == mk_bin(op, a@, b@),
{
    match op {
        BinOp::Add => Expr::Add(Box::new(a), Box::new(b)),
        BinOp::Sub => Expr::Sub(Box::new(a), Box::new(b)),
        BinOp::Mul => Expr::Mul(Box::new(a), Box::new(b)),
        BinOp::Div => Expr::Div(Box::new(a), Box::new(b)),
        BinOp::Pow => Expr::Pow(Box::new(a), Box::new(b)),
    }
}

fn infix_of(t: Option<&Tok>) -> (r: Option<(u8, u8, BinOp)>)
    ensures
        r == infix_op(match t { Some(x) => Some(x@), None => None }),
{
    match t {
        Some(Tok::Plus) => Some((10, 11, BinOp::Add)),
        Some(Tok::Minus) => Some((10, 11, BinOp::Sub)),
        Some(Tok::Star) => Some((20, 21, BinOp::Mul)),
        Some(Tok::Slash) => Some((20, 21, BinOp::Div)),
        Some(Tok::Pow) => Some((41, 40, BinOp::Pow)),
        _ => None,
    }
}

fn unexpected_token(t: &Option<Tok>) -> (m: String)
    ensures
        m@ == unexpected_token_msg(match t { Some(x) => Some(x@), None => None }),
{
    let mut m = String::from_str("unexpected token ");
    match t {
        None => m.append("None"),
        Some(Tok::Star) => m.append("Some(Star)"),
        Some(Tok::Slash) => m.append("Some(Slash)"),
        Some(Tok::Pow) => m.append("Some(Pow)"),
        Some(Tok::RParen) => m.append("Some(RParen)"),
        Some(Tok::Comma) => m.append("Some(Comma)"),
        Some(Tok::Plus) => m.append("Some(Plus)"),
        Some(Tok::Minus) => m.append("Some(Minus)"),
        Some(Tok::LParen) => m.append("Some(LParen)"),
        _ => {
            proof {
                assert(m@ + Seq::<char>::empty() =~= m@);
            }
        },
    }
    m
}

/// Parser state: the tokens, the read position and the variable names.
pub struct Parser<'a> {
    pub toks: Vec<Tok>,
    pub pos: usize,
    pub vars: &'a [&'a str],
}

impl<'a> Parser<'a> {
    pub open spec fn tv(&self) -> Seq<TokV> {
        toks_view(self.toks@)
    }

    pub open spec fn vv(&self) -> Seq<Seq<char>> {
        vars_view(self.vars@)
    }

    /// The token at the read position.
    pub fn peek(&self) -> (r: Option<&Tok>)
        ensures
            match r { Some(x) => Some(x@), None => None } == tok_at(self.tv(), self.pos as int),
    {
        if self.pos < self.toks.len() {
            Some(&self.toks[self.pos])
        } else {
            None
        }
    }

    /// The token at the read position, advancing past it if there is one.
    pub fn next(&mut self) -> (r: Option<Tok>)
        ensures
            final(self).toks@ == old(self).toks@,
            final(self).vars == old(self).vars,
            match r { Some(x) => Some(x@), None => None } == tok_at(old(self).tv(), old(self).pos as int),
            final(self).pos == if r is Some { old(self).pos + 1 } else { old(self).pos as int },
    {
        if self.pos < self.toks.len() {
            let t = self.toks[self.pos].duplicate();
            self.pos = self.pos + 1;
            Some(t)
        } else {
            None
        }
    }

    /// Parse an expression whose infix operators bind at least `min_bp`.
    pub fn parse_expr(&mut self, min_bp: u8) -> (res: Result<Expr, String>)
        requires
            old(self).pos <= old(self).toks@.len(),
        ensures
            final(self).toks@ == old(self).toks@,
            final(self).vars == old(self).vars,
            final(self).pos <= final(self).toks@.len(),
            match (res, parse_expr(old(self).tv(), old(self).vv(), old(self).pos as int, min_bp)) {
                (Ok(e), Ok((se, p))) => e@ == se && final(self).pos == p,
                (Err(m), Err(sm)) => m@ == sm,
                _ => false,
            },
        decreases old(self).toks@.len() - old(self).pos, 1int,
    {
        let ghost t = self.tv();
        let ghost v = self.vv();
        let ghost pos0 = self.pos as int;
        proof {
            lemma_parse_positions(t, v, pos0, min_bp, ExprV::Num(0));
        }
        let mut lhs = match self.parse_prefix() {
            Ok(e) => e,
            Err(m) => return Err(m),
        };
        loop
            invariant
                self.toks@ == old(self).toks@,
                self.vars == old(self).vars,
                t == self.tv(),
                v == self.vv(),
                pos0 == old(self).pos as int,
                pos0 < self.pos <= self.toks@.len(),
                parse_expr(t, v, pos0, min_bp) == parse_infix(t, v, lhs@, self.pos as int, min_bp),
            ensures
                self.toks@ == old(self).toks@,
                self.vars == old(self).vars,
                self.pos <= self.toks@.len(),
                parse_expr(t, v, pos0, min_bp) == Ok::<(ExprV, int), Seq<char>>((lhs@, self.pos as int)),
            decreases self.toks@.len() - self.pos,
        {
            let info = infix_of(self.peek());
            let (lbp, rbp, op) = match info {
                Some(x) => x,
                None => break,
            };
            if lbp < min_bp {
                break;
            }
            let ghost p1 = self.pos as int;
            proof {
                lemma_parse_positions(t, v, p1 + 1, rbp, lhs@);
            }
            self.next();
            let rhs = match self.parse_expr(rbp) {
                Ok(r) => r,
                Err(m) => return Err(m),
            };
            proof {
                lemma_parse_positions(t, v, self.pos as int, min_bp, mk_bin(op, lhs@, rhs@));
            }
            lhs = mk_bin_expr(op, lhs, rhs);
        }
        Ok(lhs)
    }

    /// Parse a prefix form: number, unary sign, parenthesis, call or variable.
    pub fn parse_prefix(&mut self) -> (res: Result<Expr, String>)
        requires
            old(self).pos <= old(self).toks@.len(),
        ensures
            final(self).toks@ == old(self).toks@,
            final(self).vars == old(self).vars,
            final(self).pos <= final(self).toks@.len(),
            match (res, parse_prefix(old(self).tv(), old(self).vv(), old(self).pos as int)) {
                (Ok(e), Ok((se, p))) => e@ == se && final(self).pos == p,
                (Err(m), Err(sm)) => m@ == sm,
                _ => false,
            },
        decreases old(self).toks@.len() - old(self).pos, 0int,
    {
        let ghost t = self.tv();
        let ghost v = self.vv();
        let ghost pos0 = self.pos as int;
        let tok = self.next();
        match tok {
            Some(Tok::Num(x)) => Ok(Expr::Num(x)),
            Some(Tok::Minus) => {
                match self.parse_expr(35) {
                    Ok(e) => Ok(Expr::Neg(Box::new(e))),
                    Err(m) => Err(m),
                }
            },
            Some(Tok::Plus) => self.parse_expr(35),
            Some(Tok::LParen) => {
                let e = match self.parse_expr(0) {
                    Ok(e) => e,
                    Err(m) => return Err(m),
                };
                match self.next() {
                    Some(Tok::RParen) => Ok(e),
                    _ => Err(String::from_str("expected ')'")),
                }
            },
            Some(Tok::Ident(name)) => {
                if matches!(self.peek(), Some(Tok::LParen)) {
                    self.next();
                    let mut args: Vec<Expr> = Vec::new();
                    let ghost pos2 = self.pos as int;
                    if !matches!(self.peek(), Some(Tok::RParen)) {
                        loop
                            invariant_except_break
                                parse_args(t, v, pos2) == (match parse_args(t, v, self.pos as int) {
                                    Ok((rest, q)) => Ok((args_view(args@) + rest, q)),
                                    Err(m) => Err(m),
                                }),
                            invariant
                                self.toks@ == old(self).toks@,
                                self.vars == old(self).vars,
                                t == self.tv(),
                                v == self.vv(),
                                pos0 + 2 <= pos2 <= self.pos <= self.toks@.len(),
                                pos2 == pos0 + 2,
                                pos0 == old(self).pos as int,
                                tok_at(t, pos0) == Some(TokV::Ident(name@)),
                                tok_at(t, pos0 + 1) == Some(TokV::LParen),
                                tok_at(t, pos0 + 2) != Some(TokV::RParen),
                            ensures
                                self.toks@ == old(self).toks@,
                                self.vars == old(self).vars,
                                self.pos <= self.toks@.len(),
                                parse_args(t, v, pos2) == Ok::<(Seq<ExprV>, int), Seq<char>>((args_view(args@), self.pos as int)),
                            decreases self.toks@.len() - self.pos,
                        {
                            let ghost q = self.pos as int;
                            let ghost av0 = args_view(args@);
                            proof {
                                lemma_parse_positions(t, v, q, 0, ExprV::Num(0));
                            }
                            let a = match self.parse_expr(0) {
                                Ok(a) => a,
                                Err(m) => return Err(m),
                            };
                            let ghost p = self.pos as int;
                            proof {
                                lemma_args_view(args@);
                                lemma_args_view(args@.push(a));
                                assert(args_view(args@.push(a)) =~= av0.push(a@));
                            }
                            args.push(a);
                            if matches!(self.peek(), Some(Tok::Comma)) {
                                proof {
                                    assert(tok_at(t, p) == Some(TokV::Comma));
                                    assert(parse_args(t, v, q) == (match parse_args(t, v, p + 1) {
                                        Ok((rest, r)) => Ok((seq![a@] + rest, r)),
                                        Err(m) => Err(m),
                                    }));
                                    match parse_args(t, v, p + 1) {
                                        Ok((rest, r)) => {
                                            assert(av0 + (seq![a@] + rest) =~= av0.push(a@) + rest);
                                        },
                                        Err(_) => {},
                                    }
                                }
                                self.next();
                            } else {
                                proof {
                                    assert(tok_at(t, p) != Some(TokV::Comma));
                                    assert(parse_args(t, v, q) == Ok::<(Seq<ExprV>, int), Seq<char>>((seq![a@], p)));
                                    assert(av0 + seq![a@] =~= av0.push(a@));
                                }
                                break;
                            }
                        }
                    } else {
                        proof {
                            assert(args_view(args@) =~= Seq::<ExprV>::empty());
                        }
                    }
                    match self.next() {
                        Some(Tok::RParen) => {},
                        _ => return Err(String::from_str("expected ')'")),
                    }
                    match func_from_name(name.as_str()) {
                        Ok(f) => Ok(Expr::Call(f, args)),
                        Err(m) => Err(m),
                    }
                } else {
                    match position_of(self.vars, name.as_str()) {
                        Some(k) => Ok(Expr::Var(k)),
                        None => Err(enclosed("unknown variable '", name.as_str(), "'")),
                    }
                }
            },
            other => Err(unexpected_token(&other)),
        }
    }
}

/// Parse a whole token sequence as one expression over the variables `vars`
/// (in the order of the evaluation environment).
pub fn parse_only(toks: Vec<Tok>, vars: &[&str]) -> (res: Result<Expr, String>)
    ensures
        match (res, parse_all(toks_view(toks@), vars_view(vars@))) {
            (Ok(e), Ok(se)) => e@ == se,
            (Err(m), Err(sm)) => m@ == sm,
            _ => false,
        },
{
    let mut p = Parser { toks, pos: 0, vars };
    let e = match p.parse_expr(0) {
        Ok(e) => e,
        Err(m) => return Err(m),
    };
    if p.pos != p.toks.len() {
        return Err(String::from_str("trailing tokens after expression"));
    }
    Ok(e)
}

} // verus!
