//! Value-numbered operation lists (common-subexpression elimination).
use vstd::prelude::*;
use super::expr::{Expr, ExprV, Func, args_view, lemma_args_view};

verus! {

/// One operation of a flattened program; operands are slot indices of earlier
/// operations, constants are binary64 bit patterns.
#[derive(Clone, Copy, Debug, PartialEq, Eq, Hash, Structural)]
pub enum Op {
    Const(u64),
    Var(usize),
    Neg(usize),
    Add(usize, usize),
    Sub(usize, usize),
    Mul(usize, usize),
    Div(usize, usize),
    Pow(usize, usize),
    IPow(usize, i32),
    Call1(Func, usize),
}

/// A compiled, common-subexpression-eliminated expression: a flat operation
/// list evaluated in order, the result being the value of slot `root`.
pub struct Program {
    pub ops: Vec<Op>,
    pub root: usize,
}

impl Program {
    /// Number of distinct operations after sharing.
    pub fn len(&self) -> (n: usize)
        ensures
            n == self.ops@.len(),
    {
        self.ops.len()
    }

    /// Whether the program holds no operation.
    pub fn is_empty(&self) -> (b: bool)
        ensures
            b == (self.ops@.len() == 0),
    {
        self.ops.len() == 0
    }
}

/// Number of scratch slots an evaluation needs (the operation count).
pub fn program_slots(p: &Program) -> (n: usize)
    ensures
        n == p.ops@.len(),
{
    p.ops.len()
}


/// Every call in the tree has at least one argument.
pub open spec fn calls_have_args(e: ExprV) -> bool
    decreases e, 0int,
{
    match e {
        ExprV::Num(_) | ExprV::Var(_) => true,
        ExprV::Neg(a) | ExprV::IPow(a, _) => calls_have_args(*a),
        ExprV::Add(a, b) | ExprV::Sub(a, b) | ExprV::Mul(a, b) | ExprV::Div(a, b) | ExprV::Pow(a, b) =>
            calls_have_args(*a) && calls_have_args(*b),
        ExprV::Call(_, args) => args.len() >= 1 && all_calls_have_args(args),
    }
}

pub open spec fn all_calls_have_args(s: Seq<ExprV>) -> bool
    decreases s, 1int,
{
    if s.len() == 0 {
        true
    } else {
        all_calls_have_args(s.subrange(0, s.len() - 1)) && calls_have_args(s[s.len() - 1])
    }
}

pub proof fn lemma_all_calls_have_args(s: Seq<ExprV>)
    ensures
        all_calls_have_args(s) <==> forall|i: int| 0 <= i < s.len() ==> calls_have_args(#[trigger] s[i]),
    decreases s.len(),
{
    if s.len() > 0 {
        let p = s.subrange(0, s.len() - 1);
        lemma_all_calls_have_args(p);
        if all_calls_have_args(s) {
            assert forall|i: int| 0 <= i < s.len() implies calls_have_args(#[trigger] s[i]) by {
                if i < s.len() - 1 {
                    assert(p[i] == s[i]);
                }
            }
        }
        if forall|i: int| 0 <= i < s.len() ==> calls_have_args(#[trigger] s[i]) {
            assert forall|i: int| 0 <= i < p.len() implies calls_have_args(#[trigger] p[i]) by {
                assert(p[i] == s[i]);
            }
            assert(calls_have_args(s[s.len() - 1]));
        }
    }
}

/// The operand slots of `op` all lie below `i`.
pub open spec fn refs_below(op: Op, i: int) -> bool {
    match op {
        Op::Const(_) | Op::Var(_) => true,
        Op::Neg(a) | Op::IPow(a, _) | Op::Call1(_, a) => a < i,
        Op::Add(a, b) | Op::Sub(a, b) | Op::Mul(a, b) | Op::Div(a, b) | Op::Pow(a, b) => a < i && b < i,
    }
}

/// A well-formed operation list: no operation occurs twice, and every operand
/// refers to an earlier slot.
pub open spec fn wf_ops(ops: Seq<Op>) -> bool {
    &&& forall|i: int, j: int| 0 <= i < j < ops.len() ==> #[trigger] ops[i] != #[trigger] ops[j]
    &&& forall|i: int| 0 <= i < ops.len() ==> refs_below(#[trigger] ops[i], i)
}

/// The slot of `op`: its existing slot when present, else a new last slot.
pub open spec fn push_op(ops: Seq<Op>, op: Op) -> (Seq<Op>, int) {
    if exists|i: int| 0 <= i < ops.len() && ops[i] == op {
        (ops, choose|i: int| 0 <= i < ops.len() && ops[i] == op)
    } else {
        (ops.push(op), ops.len() as int)
    }
}

/// Post-order flattening of `e` onto `ops`: the extended list and the slot of `e`.
pub open spec fn flat(ops: Seq<Op>, e: ExprV) -> (Seq<Op>, int)
    decreases e,
{
    match e {
        ExprV::Num(v) => push_op(ops, Op::Const(v)),
        ExprV::Var(i) => push_op(ops, Op::Var(i)),
        ExprV::Neg(a) => {
            let (o1, x) = flat(ops, *a);
            push_op(o1, Op::Neg(x as usize))
        },
        ExprV::Add(a, b) => {
            let (o1, x) = flat(ops, *a);
            let (o2, y) = flat(o1, *b);
            push_op(o2, Op::Add(x as usize, y as usize))
        },
        ExprV::Sub(a, b) => {
            let (o1, x) = flat(ops, *a);
            let (o2, y) = flat(o1, *b);
            push_op(o2, Op::Sub(x as usize, y as usize))
        },
        ExprV::Mul(a, b) => {
            let (o1, x) = flat(ops, *a);
            let (o2, y) = flat(o1, *b);
            push_op(o2, Op::Mul(x as usize, y as usize))
        },
        ExprV::Div(a, b) => {
            let (o1, x) = flat(ops, *a);
            let (o2, y) = flat(o1, *b);
            push_op(o2, Op::Div(x as usize, y as usize))
        },
        ExprV::Pow(a, b) => {
            let (o1, x) = flat(ops, *a);
            let (o2, y) = flat(o1, *b);
            push_op(o2, Op::Pow(x as usize, y as usize))
        },
        ExprV::IPow(a, n) => {
            let (o1, x) = flat(ops, *a);
            push_op(o1, Op::IPow(x as usize, n))
        },
        ExprV::Call(f, args) => if f == Func::Pow && args.len() == 2 {
            let (o1, x) = flat(ops, args[0]);
            let (o2, y) = flat(o1, args[1]);
            push_op(o2, Op::Pow(x as usize, y as usize))
        } else if args.len() >= 1 {
            let (o1, x) = flat(ops, args[0]);
            push_op(o1, Op::Call1(f, x as usize))
        } else {
            (ops, 0)
        },
    }
}

/// The expression tree that slot `i` of a well-formed list computes.
pub open spec fn unfold(ops: Seq<Op>, i: int) -> ExprV
    decreases i,
{
    if 0 <= i < ops.len() && refs_below(ops[i], i) {
        match ops[i] {
            Op::Const(v) => ExprV::Num(v),
            Op::Var(j) => ExprV::Var(j),
            Op::Neg(a) => ExprV::Neg(Box::new(unfold(ops, a as int))),
            Op::Add(a, b) => ExprV::Add(Box::new(unfold(ops, a as int)), Box::new(unfold(ops, b as int))),
            Op::Sub(a, b) => ExprV::Sub(Box::new(unfold(ops, a as int)), Box::new(unfold(ops, b as int))),
            Op::Mul(a, b) => ExprV::Mul(Box::new(unfold(ops, a as int)), Box::new(unfold(ops, b as int))),
            Op::Div(a, b) => ExprV::Div(Box::new(unfold(ops, a as int)), Box::new(unfold(ops, b as int))),
            Op::Pow(a, b) => ExprV::Pow(Box::new(unfold(ops, a as int)), Box::new(unfold(ops, b as int))),
            Op::IPow(a, n) => ExprV::IPow(Box::new(unfold(ops, a as int)), n),
            Op::Call1(f, a) => ExprV::Call(f, seq![unfold(ops, a as int)]),
        }
    } else {
        ExprV::Num(0)
    }
}

/// The tree as a flattened program computes it: a two-argument `pow` call
/// becomes `Pow`, and a one-argument function keeps only its first argument.
pub open spec fn lower(e: ExprV) -> ExprV
    decreases e,
{
    match e {
        ExprV::Num(v) => ExprV::Num(v),
        ExprV::Var(i) => ExprV::Var(i),
        ExprV::Neg(a) => ExprV::Neg(Box::new(lower(*a))),
        ExprV::Add(a, b) => ExprV::Add(Box::new(lower(*a)), Box::new(lower(*b))),
        ExprV::Sub(a, b) => ExprV::Sub(Box::new(lower(*a)), Box::new(lower(*b))),
        ExprV::Mul(a, b) => ExprV::Mul(Box::new(lower(*a)), Box::new(lower(*b))),
        ExprV::Div(a, b) => ExprV::Div(Box::new(lower(*a)), Box::new(lower(*b))),
        ExprV::Pow(a, b) => ExprV::Pow(Box::new(lower(*a)), Box::new(lower(*b))),
        ExprV::IPow(a, n) => ExprV::IPow(Box::new(lower(*a)), n),
        ExprV::Call(f, args) => if f == Func::Pow && args.len() == 2 {
            ExprV::Pow(Box::new(lower(args[0])), Box::new(lower(args[1])))
        } else if args.len() >= 1 {
            ExprV::Call(f, seq![lower(args[0])])
        } else {
            ExprV::Call(f, Seq::empty())
        },
    }
}

/// Slots below `ops.len()` keep their meaning when the list is extended.
pub proof fn lemma_unfold_prefix(ops: Seq<Op>, o: Seq<Op>, i: int)
    requires
        ops.len() <= o.len(),
        o.subrange(0, ops.len() as int) == ops,
        0 <= i < ops.len(),
    ensures
        unfold(o, i) == unfold(ops, i),
    decreases i,
{
    assert(o[i] == ops[i]);
    match ops[i] {
        Op::Neg(a) | Op::IPow(a, _) | Op::Call1(_, a) => {
            if a < i {
                lemma_unfold_prefix(ops, o, a as int);
            }
        },
        Op::Add(a, b) | Op::Sub(a, b) | Op::Mul(a, b) | Op::Div(a, b) | Op::Pow(a, b) => {
            if a < i && b < i {
                lemma_unfold_prefix(ops, o, a as int);
                lemma_unfold_prefix(ops, o, b as int);
            }
        },
        _ => {},
    }
}

pub proof fn lemma_push_op(ops: Seq<Op>, op: Op)
    ensures
        ({
            let (o, r) = push_op(ops, op);
            &&& 0 <= r < o.len()
            &&& ops.len() <= o.len() <= ops.len() + 1
            &&& o.subrange(0, ops.len() as int) == ops
            &&& o[r] == op
            &&& (wf_ops(ops) && refs_below(op, ops.len() as int)) ==> wf_ops(o) && refs_below(op, r)
        }),
{
    if exists|i: int| 0 <= i < ops.len() && ops[i] == op {
        let r = choose|i: int| 0 <= i < ops.len() && ops[i] == op;
        if wf_ops(ops) {
            assert(refs_below(ops[r], r));
        }
        assert(ops.subrange(0, ops.len() as int) =~= ops);
    } else {
        let o = ops.push(op);
        assert(o.subrange(0, ops.len() as int) =~= ops);
        if wf_ops(ops) && refs_below(op, ops.len() as int) {
            assert forall|i: int, j: int| 0 <= i < j < o.len() implies #[trigger] o[i] != #[trigger] o[j] by {
                if j == ops.len() {
                    assert(o[i] == ops[i]);
                } else {
                    assert(o[i] == ops[i] && o[j] == ops[j]);
                }
            }
            assert forall|i: int| 0 <= i < o.len() implies refs_below(#[trigger] o[i], i) by {
                if i < ops.len() {
                    assert(o[i] == ops[i]);
                }
            }
        }
    }
}

proof fn lemma_extend_trans(a: Seq<Op>, b: Seq<Op>, c: Seq<Op>)
    requires
        a.len() <= b.len() <= c.len(),
        b.subrange(0, a.len() as int) == a,
        c.subrange(0, b.len() as int) == b,
    ensures
        c.subrange(0, a.len() as int) == a,
{
    assert forall|i: int| 0 <= i < a.len() implies c.subrange(0, a.len() as int)[i] == a[i] by {
        assert(c.subrange(0, b.len() as int)[i] == c[i]);
        assert(b.subrange(0, a.len() as int)[i] == b[i]);
    }
    assert(c.subrange(0, a.len() as int) =~= a);
}

/// Flattening only appends, and the returned slot is in range.
pub proof fn lemma_flat_shape(ops: Seq<Op>, e: ExprV)
    requires
        calls_have_args(e),
    ensures
        ({
            let (o, r) = flat(ops, e);
            &&& 0 <= r < o.len()
            &&& ops.len() <= o.len()
            &&& o.subrange(0, ops.len() as int) == ops
        }),
    decreases e,
{
    match e {
        ExprV::Num(v) => {
            lemma_push_op(ops, Op::Const(v));
        },
        ExprV::Var(i) => {
            lemma_push_op(ops, Op::Var(i));
        },
        ExprV::Neg(a) => {
            lemma_flat_shape(ops, *a);
            let (o1, x) = flat(ops, *a);
            lemma_push_op(o1, Op::Neg(x as usize));
            lemma_extend_trans(ops, o1, push_op(o1, Op::Neg(x as usize)).0);
        },
        ExprV::IPow(a, n) => {
            lemma_flat_shape(ops, *a);
            let (o1, x) = flat(ops, *a);
            lemma_push_op(o1, Op::IPow(x as usize, n));
            lemma_extend_trans(ops, o1, push_op(o1, Op::IPow(x as usize, n)).0);
        },
        ExprV::Add(a, b) | ExprV::Sub(a, b) | ExprV::Mul(a, b) | ExprV::Div(a, b) | ExprV::Pow(a, b) => {
            lemma_flat_shape(ops, *a);
            let (o1, x) = flat(ops, *a);
            lemma_flat_shape(o1, *b);
            let (o2, y) = flat(o1, *b);
            lemma_extend_trans(ops, o1, o2);
            let (o, r) = flat(ops, e);
            lemma_push_op(o2, with_operands(kind_of(e), x as usize, y as usize));
            lemma_extend_trans(ops, o2, o);
        },
        ExprV::Call(f, args) => {
            lemma_all_calls_have_args(args);
            if f == Func::Pow && args.len() == 2 {
                lemma_flat_shape(ops, args[0]);
                let (o1, x) = flat(ops, args[0]);
                lemma_flat_shape(o1, args[1]);
                let (o2, y) = flat(o1, args[1]);
                lemma_extend_trans(ops, o1, o2);
                lemma_push_op(o2, Op::Pow(x as usize, y as usize));
                lemma_extend_trans(ops, o2, push_op(o2, Op::Pow(x as usize, y as usize)).0);
            } else {
                lemma_flat_shape(ops, args[0]);
                let (o1, x) = flat(ops, args[0]);
                lemma_push_op(o1, Op::Call1(f, x as usize));
                lemma_extend_trans(ops, o1, push_op(o1, Op::Call1(f, x as usize)).0);
            }
        },
    }
}

/// A binary operation of kind `kind` on the given slots.
pub open spec fn with_operands(kind: Op, x: usize, y: usize) -> Op {
    match kind {
        Op::Add(_, _) => Op::Add(x, y),
        Op::Sub(_, _) => Op::Sub(x, y),
        Op::Mul(_, _) => Op::Mul(x, y),
        Op::Div(_, _) => Op::Div(x, y),
        _ => Op::Pow(x, y),
    }
}

/// The operation kind of a binary tree node.
pub open spec fn kind_of(e: ExprV) -> Op {
    match e {
        ExprV::Add(_, _) => Op::Add(0, 0),
        ExprV::Sub(_, _) => Op::Sub(0, 0),
        ExprV::Mul(_, _) => Op::Mul(0, 0),
        ExprV::Div(_, _) => Op::Div(0, 0),
        _ => Op::Pow(0, 0),
    }
}

/// Flattening keeps a well-formed list well formed, and the slot it returns
/// computes the lowered expression (provided the list fits in memory).
#[verifier::spinoff_prover]
#[verifier::rlimit(60)]
pub proof fn lemma_flat(ops: Seq<Op>, e: ExprV)
    requires
        wf_ops(ops),
        calls_have_args(e),
        flat(ops, e).0.len() <= usize::MAX,
    ensures
        wf_ops(flat(ops, e).0),
        unfold(flat(ops, e).0, flat(ops, e).1) == lower(e),
    decreases e,
{
    lemma_flat_shape(ops, e);
    match e {
        ExprV::Num(v) => {
            lemma_push_op(ops, Op::Const(v));
        },
        ExprV::Var(i) => {
            lemma_push_op(ops, Op::Var(i));
        },
        ExprV::Neg(a) => {
            lemma_flat_shape(ops, *a);
            let (o1, x) = flat(ops, *a);
            lemma_flat(ops, *a);
            lemma_push_op(o1, Op::Neg(x as usize));
            let (o, r) = push_op(o1, Op::Neg(x as usize));
            lemma_unfold_prefix(o1, o, x);
        },
        ExprV::IPow(a, n) => {
            lemma_flat_shape(ops, *a);
            let (o1, x) = flat(ops, *a);
            lemma_flat(ops, *a);
            lemma_push_op(o1, Op::IPow(x as usize, n));
            let (o, r) = push_op(o1, Op::IPow(x as usize, n));
            lemma_unfold_prefix(o1, o, x);
        },
        ExprV::Add(a, b) | ExprV::Sub(a, b) | ExprV::Mul(a, b) | ExprV::Div(a, b) | ExprV::Pow(a, b) => {
            lemma_flat_shape(ops, *a);
            let (o1, x) = flat(ops, *a);
            lemma_flat_shape(o1, *b);
            let (o2, y) = flat(o1, *b);
            let op = with_operands(kind_of(e), x as usize, y as usize);
            lemma_push_op(o2, op);
            lemma_flat(ops, *a);
            lemma_flat(o1, *b);
            let (o, r) = push_op(o2, op);
            lemma_unfold_prefix(o1, o2, x);
            lemma_unfold_prefix(o2, o, x);
            lemma_unfold_prefix(o2, o, y);
        },
        ExprV::Call(f, args) => {
            lemma_all_calls_have_args(args);
            if f == Func::Pow && args.len() == 2 {
                lemma_flat_shape(ops, args[0]);
                let (o1, x) = flat(ops, args[0]);
                lemma_flat_shape(o1, args[1]);
                let (o2, y) = flat(o1, args[1]);
                let op = Op::Pow(x as usize, y as usize);
                lemma_push_op(o2, op);
                lemma_flat(ops, args[0]);
                lemma_flat(o1, args[1]);
                let (o, r) = push_op(o2, op);
                lemma_unfold_prefix(o1, o2, x);
                lemma_unfold_prefix(o2, o, x);
                lemma_unfold_prefix(o2, o, y);
            } else {
                lemma_flat_shape(ops, args[0]);
                let (o1, x) = flat(ops, args[0]);
                lemma_flat(ops, args[0]);
                lemma_push_op(o1, Op::Call1(f, x as usize));
                let (o, r) = push_op(o1, Op::Call1(f, x as usize));
                lemma_unfold_prefix(o1, o, x);
            }
        },
    }
}


/// The last step of flattening a node whose lowered tree has size `n`: when
/// every slot added for its operands computes a smaller tree, the node's own
/// slot is new (the last one) or was already present before the node.
proof fn lemma_root_step(ops: Seq<Op>, o2: Seq<Op>, op: Op, n: nat)
    requires
        wf_ops(o2),
        ops.len() <= o2.len(),
        forall|i: int| ops.len() <= i < o2.len() ==> size(#[trigger] unfold(o2, i)) < n,
        size(unfold(push_op(o2, op).0, push_op(o2, op).1)) == n,
    ensures
        ({
            let (o, r) = push_op(o2, op);
            &&& forall|i: int| ops.len() <= i < o.len() ==> size(#[trigger] unfold(o, i)) <= n
            &&& (r == o.len() - 1 || r < ops.len())
        }),
{
    lemma_push_op(o2, op);
    let (o, r) = push_op(o2, op);
    assert forall|i: int| ops.len() <= i < o.len() implies size(#[trigger] unfold(o, i)) <= n by {
        if i < o2.len() {
            lemma_unfold_prefix(o2, o, i);
        }
    }
    if o.len() == o2.len() && r >= ops.len() {
        assert(size(unfold(o2, r)) < n);
    }
}

/// Flattening `e` onto `ops` adds only slots that compute trees no larger than
/// `lower(e)`, and `e`'s slot is either the last one or one already in `ops`.
#[verifier::spinoff_prover]
#[verifier::rlimit(80)]
pub proof fn lemma_flat_root(ops: Seq<Op>, e: ExprV)
    requires
        wf_ops(ops),
        calls_have_args(e),
        flat(ops, e).0.len() <= usize::MAX,
    ensures
        ({
            let (o, r) = flat(ops, e);
            &&& forall|i: int| ops.len() <= i < o.len() ==> size(#[trigger] unfold(o, i)) <= size(lower(e))
            &&& (r == o.len() - 1 || r < ops.len())
        }),
    decreases e,
{
    lemma_flat_shape(ops, e);
    lemma_flat(ops, e);
    let n = size(lower(e));
    match e {
        ExprV::Num(v) => {
            lemma_root_step(ops, ops, Op::Const(v), n);
        },
        ExprV::Var(i) => {
            lemma_root_step(ops, ops, Op::Var(i), n);
        },
        ExprV::Neg(a) | ExprV::IPow(a, _) => {
            lemma_flat_shape(ops, *a);
            lemma_flat(ops, *a);
            lemma_flat_root(ops, *a);
            let (o1, x) = flat(ops, *a);
            let op = if e is Neg { Op::Neg(x as usize) } else { Op::IPow(x as usize, e->IPow_1) };
            assert(flat(ops, e) == push_op(o1, op));
            lemma_root_step(ops, o1, op, n);
        },
        ExprV::Add(a, b) | ExprV::Sub(a, b) | ExprV::Mul(a, b) | ExprV::Div(a, b) | ExprV::Pow(a, b) => {
            lemma_flat_shape(ops, *a);
            let (o1, x) = flat(ops, *a);
            lemma_flat_shape(o1, *b);
            let (o2, y) = flat(o1, *b);
            lemma_push_op(o2, with_operands(kind_of(e), x as usize, y as usize));
            lemma_flat(ops, *a);
            lemma_flat_root(ops, *a);
            lemma_flat(o1, *b);
            lemma_flat_root(o1, *b);
            assert forall|i: int| ops.len() <= i < o2.len() implies size(#[trigger] unfold(o2, i)) < n by {
                if i < o1.len() {
                    lemma_unfold_prefix(o1, o2, i);
                }
            }
            lemma_root_step(ops, o2, with_operands(kind_of(e), x as usize, y as usize), n);
        },
        ExprV::Call(f, args) => {
            lemma_all_calls_have_args(args);
            if f == Func::Pow && args.len() == 2 {
                lemma_flat_shape(ops, args[0]);
                let (o1, x) = flat(ops, args[0]);
                lemma_flat_shape(o1, args[1]);
                let (o2, y) = flat(o1, args[1]);
                lemma_push_op(o2, Op::Pow(x as usize, y as usize));
                lemma_flat(ops, args[0]);
                lemma_flat_root(ops, args[0]);
                lemma_flat(o1, args[1]);
                lemma_flat_root(o1, args[1]);
                assert forall|i: int| ops.len() <= i < o2.len() implies size(#[trigger] unfold(o2, i)) < n by {
                    if i < o1.len() {
                        lemma_unfold_prefix(o1, o2, i);
                    }
                }
                lemma_root_step(ops, o2, Op::Pow(x as usize, y as usize), n);
            } else {
                lemma_flat_shape(ops, args[0]);
                lemma_flat(ops, args[0]);
                lemma_flat_root(ops, args[0]);
                let (o1, x) = flat(ops, args[0]);
                let l = seq![lower(args[0])];
                assert(l.subrange(0, 0) =~= Seq::<ExprV>::empty());
                assert(sizes(Seq::<ExprV>::empty()) == 0);
                assert(sizes(l) == size(lower(args[0])));
                lemma_root_step(ops, o1, Op::Call1(f, x as usize), n);
            }
        },
    }
}

/// Every variable index in `e` is below `nv`.
pub open spec fn vars_below(e: ExprV, nv: int) -> bool
    decreases e,
{
    match e {
        ExprV::Num(_) => true,
        ExprV::Var(i) => i < nv,
        ExprV::Neg(a) | ExprV::IPow(a, _) => vars_below(*a, nv),
        ExprV::Add(a, b) | ExprV::Sub(a, b) | ExprV::Mul(a, b) | ExprV::Div(a, b) | ExprV::Pow(a, b) =>
            vars_below(*a, nv) && vars_below(*b, nv),
        ExprV::Call(_, args) => forall|k: int| 0 <= k < args.len() ==> vars_below(#[trigger] args[k], nv),
    }
}

/// Every `pow` call in `e` has two arguments.
pub open spec fn pow_binary(e: ExprV) -> bool
    decreases e,
{
    match e {
        ExprV::Num(_) | ExprV::Var(_) => true,
        ExprV::Neg(a) | ExprV::IPow(a, _) => pow_binary(*a),
        ExprV::Add(a, b) | ExprV::Sub(a, b) | ExprV::Mul(a, b) | ExprV::Div(a, b) | ExprV::Pow(a, b) =>
            pow_binary(*a) && pow_binary(*b),
        ExprV::Call(f, args) => (f == Func::Pow ==> args.len() == 2)
            && forall|k: int| 0 <= k < args.len() ==> pow_binary(#[trigger] args[k]),
    }
}

/// Every `Var` operation reads a slot below `nv`, and (when `no_pow1`) no
/// operation is a one-argument `pow` call.
pub open spec fn ops_scoped(ops: Seq<Op>, nv: int, no_pow1: bool) -> bool {
    forall|i: int| 0 <= i < ops.len() ==> match #[trigger] ops[i] {
        Op::Var(j) => j < nv,
        Op::Call1(f, _) => no_pow1 ==> f != Func::Pow,
        _ => true,
    }
}

proof fn lemma_push_scoped(ops: Seq<Op>, op: Op, nv: int, no_pow1: bool)
    requires
        ops_scoped(ops, nv, no_pow1),
        ops_scoped(seq![op], nv, no_pow1),
    ensures
        ops_scoped(push_op(ops, op).0, nv, no_pow1),
{
    if !(exists|i: int| 0 <= i < ops.len() && ops[i] == op) {
        let o = ops.push(op);
        assert forall|i: int| 0 <= i < o.len() implies match #[trigger] o[i] {
            Op::Var(j) => j < nv,
            Op::Call1(f, _) => no_pow1 ==> f != Func::Pow,
            _ => true,
        } by {
            if i < ops.len() {
                assert(o[i] == ops[i]);
            } else {
                assert(o[i] == seq![op][0]);
            }
        }
    }
}

/// Flattening a tree whose variables lie below `nv` (and, when `no_pow1`,
/// whose `pow` calls have two arguments) adds only such operations.
pub proof fn lemma_flat_scoped(ops: Seq<Op>, e: ExprV, nv: int, no_pow1: bool)
    requires
        ops_scoped(ops, nv, no_pow1),
        vars_below(e, nv),
        no_pow1 ==> pow_binary(e),
        calls_have_args(e),
    ensures
        ops_scoped(flat(ops, e).0, nv, no_pow1),
    decreases e,
{
    match e {
        ExprV::Num(v) => {
            lemma_push_scoped(ops, Op::Const(v), nv, no_pow1);
        },
        ExprV::Var(i) => {
            lemma_push_scoped(ops, Op::Var(i), nv, no_pow1);
        },
        ExprV::Neg(a) => {
            lemma_flat_scoped(ops, *a, nv, no_pow1);
            let (o1, x) = flat(ops, *a);
            lemma_push_scoped(o1, Op::Neg(x as usize), nv, no_pow1);
        },
        ExprV::IPow(a, n) => {
            lemma_flat_scoped(ops, *a, nv, no_pow1);
            let (o1, x) = flat(ops, *a);
            lemma_push_scoped(o1, Op::IPow(x as usize, n), nv, no_pow1);
        },
        ExprV::Add(a, b) | ExprV::Sub(a, b) | ExprV::Mul(a, b) | ExprV::Div(a, b) | ExprV::Pow(a, b) => {
            lemma_flat_scoped(ops, *a, nv, no_pow1);
            let (o1, x) = flat(ops, *a);
            lemma_flat_scoped(o1, *b, nv, no_pow1);
            let (o2, y) = flat(o1, *b);
            lemma_push_scoped(o2, with_operands(kind_of(e), x as usize, y as usize), nv, no_pow1);
        },
        ExprV::Call(f, args) => {
            lemma_all_calls_have_args(args);
            assert(vars_below(args[0], nv));
            assert(no_pow1 ==> pow_binary(args[0]));
            if f == Func::Pow && args.len() == 2 {
                assert(vars_below(args[1], nv));
                assert(no_pow1 ==> pow_binary(args[1]));
                lemma_flat_scoped(ops, args[0], nv, no_pow1);
                let (o1, x) = flat(ops, args[0]);
                lemma_flat_scoped(o1, args[1], nv, no_pow1);
                let (o2, y) = flat(o1, args[1]);
                lemma_push_scoped(o2, Op::Pow(x as usize, y as usize), nv, no_pow1);
            } else {
                lemma_flat_scoped(ops, args[0], nv, no_pow1);
                let (o1, x) = flat(ops, args[0]);
                lemma_push_scoped(o1, Op::Call1(f, x as usize), nv, no_pow1);
            }
        },
    }
}

/// Builds a program slot by slot, sharing identical operations.
pub struct Flattener {
    pub ops: Vec<Op>,
}

impl Flattener {
    /// The slot of `op`: the existing one if `op` is already present (the
    /// list holds no duplicates, so there is at most one), else a new one.
    pub fn push(&mut self, op: Op) -> (i: usize)
        requires
            wf_ops(old(self).ops@),
        ensures
            (final(self).ops@, i as int) == push_op(old(self).ops@, op),
    {
        let mut k: usize = 0;
        while k < self.ops.len()
            invariant
                k <= self.ops@.len(),
                self.ops@ == old(self).ops@,
                wf_ops(self.ops@),
                forall|j: int| 0 <= j < k ==> self.ops@[j] != op,
            decreases self.ops@.len() - k,
        {
            if self.ops[k] == op {
                proof {
                    let c = choose|i: int| 0 <= i < self.ops@.len() && self.ops@[i] == op;
                    assert(self.ops@[c] == self.ops@[k as int]);
                    if c < k {
                        assert(self.ops@[c] != self.ops@[k as int]);
                    } else if c > k {
                        assert(self.ops@[k as int] != self.ops@[c]);
                    }
                    assert(c == k);
                }
                return k;
            }
            k = k + 1;
        }
        let i = self.ops.len();
        self.ops.push(op);
        i
    }

    /// Flatten `e` post-order onto the list; the slot computing `e`.
    pub fn build(&mut self, e: &Expr) -> (r: usize)
        requires
            wf_ops(old(self).ops@),
            calls_have_args(e@),
        ensures
            (final(self).ops@, r as int) == flat(old(self).ops@, e@),
            wf_ops(final(self).ops@),
        decreases e,
    {
        let r = match e {
            Expr::Num(v) => self.push(Op::Const(*v)),
            Expr::Var(i) => self.push(Op::Var(*i)),
            Expr::Neg(a) => {
                let x = self.build(a);
                self.push(Op::Neg(x))
            },
            Expr::Add(a, b) => {
                let x = self.build(a);
                let y = self.build(b);
                self.push(Op::Add(x, y))
            },
            Expr::Sub(a, b) => {
                let x = self.build(a);
                let y = self.build(b);
                self.push(Op::Sub(x, y))
            },
            Expr::Mul(a, b) => {
                let x = self.build(a);
                let y = self.build(b);
                self.push(Op::Mul(x, y))
            },
            Expr::Div(a, b) => {
                let x = self.build(a);
                let y = self.build(b);
                self.push(Op::Div(x, y))
            },
            Expr::Pow(a, b) => {
                let x = self.build(a);
                let y = self.build(b);
                self.push(Op::Pow(x, y))
            },
            Expr::IPow(a, n) => {
                let x = self.build(a);
                self.push(Op::IPow(x, *n))
            },
            Expr::Call(f, args) => {
                proof {
                    assert(e@ == ExprV::Call(*f, args_view(args@)));
                    lemma_args_view(args@);
                    lemma_all_calls_have_args(args_view(args@));
                    vstd::std_specs::vec::axiom_vec_decreases_to_view(*args);
                    vstd::seq::axiom_seq_index_decreases(args@, 0);
                    assert(decreases_to!(e => e->Call_1));
                    assert(calls_have_args(args_view(args@)[0]));
                    assert(args_view(args@)[0] == args@[0]@);
                    if args@.len() == 2 {
                        vstd::seq::axiom_seq_index_decreases(args@, 1);
                        assert(calls_have_args(args_view(args@)[1]));
                    }
                }
                if *f == Func::Pow && args.len() == 2 {
                    let x = self.build(&args[0]);
                    let y = self.build(&args[1]);
                    self.push(Op::Pow(x, y))
                } else {
                    let x = self.build(&args[0]);
                    self.push(Op::Call1(*f, x))
                }
            },
        };
        let count = self.ops.len();
        proof {
            assert(flat(old(self).ops@, e@).0.len() == count);
            lemma_flat(old(self).ops@, e@);
        }
        r
    }
}


/// In a well-formed operation list distinct slots compute distinct trees:
/// every subexpression is computed in exactly one slot.
pub proof fn law_slots_distinct(ops: Seq<Op>, i: int, j: int)
    requires
        wf_ops(ops),
        0 <= i < ops.len(),
        0 <= j < ops.len(),
        i != j,
    ensures
        unfold(ops, i) != unfold(ops, j),
    decreases i + j,
{
    assert(refs_below(ops[i], i));
    assert(refs_below(ops[j], j));
    if unfold(ops, i) == unfold(ops, j) {
        match (ops[i], ops[j]) {
            (Op::Neg(a), Op::Neg(b)) | (Op::IPow(a, _), Op::IPow(b, _)) | (Op::Call1(_, a), Op::Call1(_, b)) => {
                if a != b {
                    law_slots_distinct(ops, a as int, b as int);
                }
                if let (Op::Call1(_, _), Op::Call1(_, _)) = (ops[i], ops[j]) {
                    assert(unfold(ops, i)->Call_1[0] == unfold(ops, a as int));
                    assert(unfold(ops, j)->Call_1[0] == unfold(ops, b as int));
                }
            },
            (Op::Add(a, b), Op::Add(c, d)) | (Op::Sub(a, b), Op::Sub(c, d)) | (Op::Mul(a, b), Op::Mul(c, d))
            | (Op::Div(a, b), Op::Div(c, d)) | (Op::Pow(a, b), Op::Pow(c, d)) => {
                if a != c {
                    law_slots_distinct(ops, a as int, c as int);
                }
                if b != d {
                    law_slots_distinct(ops, b as int, d as int);
                }
            },
            _ => {},
        }
        if i < j {
            assert(ops[i] != ops[j]);
        } else {
            assert(ops[j] != ops[i]);
        }
    }
}

/// Number of nodes of a tree.
pub open spec fn size(e: ExprV) -> nat
    decreases e, 0int,
{
    match e {
        ExprV::Num(_) | ExprV::Var(_) => 1,
        ExprV::Neg(a) | ExprV::IPow(a, _) => 1 + size(*a),
        ExprV::Add(a, b) | ExprV::Sub(a, b) | ExprV::Mul(a, b) | ExprV::Div(a, b) | ExprV::Pow(a, b) =>
            1 + size(*a) + size(*b),
        ExprV::Call(_, args) => 1 + sizes(args),
    }
}

pub open spec fn sizes(s: Seq<ExprV>) -> nat
    decreases s, 1int,
{
    if s.len() == 0 {
        0
    } else {
        sizes(s.subrange(0, s.len() - 1)) + size(s[s.len() - 1])
    }
}

proof fn lemma_sizes_ge(s: Seq<ExprV>, i: int)
    requires
        0 <= i < s.len(),
    ensures
        sizes(s) >= size(s[i]),
        i + 1 < s.len() ==> sizes(s) >= size(s[i]) + size(s[i + 1]),
    decreases s.len(),
{
    let p = s.subrange(0, s.len() - 1);
    if i < s.len() - 1 {
        lemma_sizes_ge(p, i);
        assert(p[i] == s[i]);
        if i + 1 < s.len() - 1 {
            assert(p[i + 1] == s[i + 1]);
        } else if i + 1 == s.len() - 1 {
        }
    }
}

/// Flattening adds at most one operation per tree node: a program never has
/// more operations than its tree has nodes.
pub proof fn law_flat_size(ops: Seq<Op>, e: ExprV)
    requires
        calls_have_args(e),
    ensures
        flat(ops, e).0.len() <= ops.len() + size(e),
    decreases e,
{
    lemma_flat_shape(ops, e);
    match e {
        ExprV::Num(v) => {
            lemma_push_op(ops, Op::Const(v));
        },
        ExprV::Var(i) => {
            lemma_push_op(ops, Op::Var(i));
        },
        ExprV::Neg(a) => {
            law_flat_size(ops, *a);
            let (o1, x) = flat(ops, *a);
            lemma_push_op(o1, Op::Neg(x as usize));
        },
        ExprV::IPow(a, n) => {
            law_flat_size(ops, *a);
            let (o1, x) = flat(ops, *a);
            lemma_push_op(o1, Op::IPow(x as usize, n));
        },
        ExprV::Add(a, b) | ExprV::Sub(a, b) | ExprV::Mul(a, b) | ExprV::Div(a, b) | ExprV::Pow(a, b) => {
            law_flat_size(ops, *a);
            let (o1, x) = flat(ops, *a);
            law_flat_size(o1, *b);
            let (o2, y) = flat(o1, *b);
            lemma_push_op(o2, with_operands(kind_of(e), x as usize, y as usize));
        },
        ExprV::Call(f, args) => {
            lemma_all_calls_have_args(args);
            lemma_sizes_ge(args, 0);
            if f == Func::Pow && args.len() == 2 {
                law_flat_size(ops, args[0]);
                let (o1, x) = flat(ops, args[0]);
                law_flat_size(o1, args[1]);
                let (o2, y) = flat(o1, args[1]);
                lemma_push_op(o2, Op::Pow(x as usize, y as usize));
            } else {
                law_flat_size(ops, args[0]);
                let (o1, x) = flat(ops, args[0]);
                lemma_push_op(o1, Op::Call1(f, x as usize));
            }
        },
    }
}

} // verus!
