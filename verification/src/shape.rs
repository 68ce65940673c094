use vstd::prelude::*;
use crate::interval::{clamp64, imin, imax, Interval, sat_add, sat_sub, sat_neg, sat_mul, min64,
    max64};

verus! {

/// An implicit-function expression over the coordinates `x`, `y`, `z`.
///
/// The sign of the evaluated value separates "inside" (non-positive) from
/// "outside" (positive).  `Min` and `Max` combine shapes (union and
/// intersection of the regions they bound) and are the points where
/// interval evaluation can decide a branch and record it in a [`Trace`].
#[derive(Debug)]
pub enum Expr {
    /// The `x` coordinate.
    X,
    /// The `y` coordinate.
    Y,
    /// The `z` coordinate.
    Z,
    /// A constant.
    Const(i64),
    /// Clamped negation.
    Neg(Box<Expr>),
    /// Clamped addition.
    Add(Box<Expr>, Box<Expr>),
    /// Clamped subtraction.
    Sub(Box<Expr>, Box<Expr>),
    /// Clamped multiplication.
    Mul(Box<Expr>, Box<Expr>),
    /// Exact minimum of the operands.
    Min(Box<Expr>, Box<Expr>),
    /// Exact maximum of the operands.
    Max(Box<Expr>, Box<Expr>),
}

/// One recorded decision at a `Min` or `Max` node.
#[derive(Debug, Clone, Copy, PartialEq, Eq, Structural)]
pub enum Choice {
    /// The left operand alone decides the value over the whole box.
    Left,
    /// The right operand alone decides the value over the whole box.
    Right,
    /// Neither operand dominates over the box.
    Both,
}

/// A record of the sign-decided choices made during one interval
/// evaluation, mirroring the structure of the evaluated expression.
/// Traces compare by structure, in time proportional to their size.
#[derive(Debug)]
pub enum Trace {
    /// At a coordinate or constant.
    Leaf,
    /// Below a unary node.
    Un(Box<Trace>),
    /// Below an ordinary binary node.
    Bin(Box<Trace>, Box<Trace>),
    /// At a `Min` or `Max` node: the decision and the operand traces.
    Pick(Choice, Box<Trace>, Box<Trace>),
}

/// The number of nodes in an expression; simplification never grows it.
pub open spec fn size(e: Expr) -> nat
    decreases e,
{
    match e {
        Expr::X => 1,
        Expr::Y => 1,
        Expr::Z => 1,
        Expr::Const(_) => 1,
        Expr::Neg(a) => 1 + size(*a),
        Expr::Add(a, b) => 1 + size(*a) + size(*b),
        Expr::Sub(a, b) => 1 + size(*a) + size(*b),
        Expr::Mul(a, b) => 1 + size(*a) + size(*b),
        Expr::Min(a, b) => 1 + size(*a) + size(*b),
        Expr::Max(a, b) => 1 + size(*a) + size(*b),
    }
}

/// The value of an expression at a point, in clamped 64-bit arithmetic.
pub open spec fn eval(e: Expr, x: int, y: int, z: int) -> int
    decreases e,
{
    match e {
        Expr::X => x,
        Expr::Y => y,
        Expr::Z => z,
        Expr::Const(c) => c as int,
        Expr::Neg(a) => clamp64(-eval(*a, x, y, z)),
        Expr::Add(a, b) => clamp64(eval(*a, x, y, z) + eval(*b, x, y, z)),
        Expr::Sub(a, b) => clamp64(eval(*a, x, y, z) - eval(*b, x, y, z)),
        Expr::Mul(a, b) => clamp64(eval(*a, x, y, z) * eval(*b, x, y, z)),
        Expr::Min(a, b) => imin(eval(*a, x, y, z), eval(*b, x, y, z)),
        Expr::Max(a, b) => imax(eval(*a, x, y, z), eval(*b, x, y, z)),
    }
}

/// Evaluation at representable coordinates stays representable: every
/// operation clamps into the scalar range, and the coordinates
/// themselves are in it.
pub proof fn lemma_eval_in_range(e: Expr, x: int, y: int, z: int)
    requires
        i64::MIN as int <= x <= i64::MAX as int,
        i64::MIN as int <= y <= i64::MAX as int,
        i64::MIN as int <= z <= i64::MAX as int,
    ensures
        i64::MIN as int <= eval(e, x, y, z) <= i64::MAX as int,
    decreases e,
{
    match e {
        Expr::Neg(a) => lemma_eval_in_range(*a, x, y, z),
        Expr::Add(a, b) => {
            lemma_eval_in_range(*a, x, y, z);
            lemma_eval_in_range(*b, x, y, z);
        },
        Expr::Sub(a, b) => {
            lemma_eval_in_range(*a, x, y, z);
            lemma_eval_in_range(*b, x, y, z);
        },
        Expr::Mul(a, b) => {
            lemma_eval_in_range(*a, x, y, z);
            lemma_eval_in_range(*b, x, y, z);
        },
        Expr::Min(a, b) => {
            lemma_eval_in_range(*a, x, y, z);
            lemma_eval_in_range(*b, x, y, z);
        },
        Expr::Max(a, b) => {
            lemma_eval_in_range(*a, x, y, z);
            lemma_eval_in_range(*b, x, y, z);
        },
        _ => {},
    }
}

/// An axis-aligned box of coordinates, one interval per axis.
#[derive(Debug, Clone, Copy)]
pub struct Aabb {
    pub x: Interval,
    pub y: Interval,
    pub z: Interval,
}

impl Aabb {
    pub open spec fn wf(self) -> bool {
        self.x.wf() && self.y.wf() && self.z.wf()
    }

    pub open spec fn holds(self, x: int, y: int, z: int) -> bool {
        self.x.holds(x) && self.y.holds(y) && self.z.holds(z)
    }
}

/// Whether a trace has the same shape as an expression.
pub open spec fn trace_matches(e: Expr, t: Trace) -> bool
    decreases e,
{
    match e {
        Expr::X => t is Leaf,
        Expr::Y => t is Leaf,
        Expr::Z => t is Leaf,
        Expr::Const(_) => t is Leaf,
        Expr::Neg(a) => t matches Trace::Un(ta) && trace_matches(*a, *ta),
        Expr::Add(a, b) => t matches Trace::Bin(ta, tb) && trace_matches(*a, *ta)
            && trace_matches(*b, *tb),
        Expr::Sub(a, b) => t matches Trace::Bin(ta, tb) && trace_matches(*a, *ta)
            && trace_matches(*b, *tb),
        Expr::Mul(a, b) => t matches Trace::Bin(ta, tb) && trace_matches(*a, *ta)
            && trace_matches(*b, *tb),
        Expr::Min(a, b) => t matches Trace::Pick(_, ta, tb) && trace_matches(*a, *ta)
            && trace_matches(*b, *tb),
        Expr::Max(a, b) => t matches Trace::Pick(_, ta, tb) && trace_matches(*a, *ta)
            && trace_matches(*b, *tb),
    }
}

/// Whether every decision recorded in the trace truly holds pointwise
/// over the whole box: `Left` at a `Min` means the left operand is the
/// smaller one everywhere in the box, and so on.  Interval evaluation
/// only ever records decisions with this property.
pub open spec fn trace_valid(e: Expr, t: Trace, b: Aabb) -> bool
    decreases e,
{
    match e {
        Expr::Neg(a) => t matches Trace::Un(ta) ==> trace_valid(*a, *ta, b),
        Expr::Add(a, b2) => t matches Trace::Bin(ta, tb) ==> trace_valid(*a, *ta, b)
            && trace_valid(*b2, *tb, b),
        Expr::Sub(a, b2) => t matches Trace::Bin(ta, tb) ==> trace_valid(*a, *ta, b)
            && trace_valid(*b2, *tb, b),
        Expr::Mul(a, b2) => t matches Trace::Bin(ta, tb) ==> trace_valid(*a, *ta, b)
            && trace_valid(*b2, *tb, b),
        Expr::Min(a, b2) => t matches Trace::Pick(c, ta, tb) ==> trace_valid(*a, *ta, b)
            && trace_valid(*b2, *tb, b) && match c {
            Choice::Left => forall|x: int, y: int, z: int|
                b.holds(x, y, z) ==> #[trigger] eval(*a, x, y, z) <= eval(*b2, x, y, z),
            Choice::Right => forall|x: int, y: int, z: int|
                b.holds(x, y, z) ==> eval(*a, x, y, z) >= #[trigger] eval(*b2, x, y, z),
            Choice::Both => true,
        },
        Expr::Max(a, b2) => t matches Trace::Pick(c, ta, tb) ==> trace_valid(*a, *ta, b)
            && trace_valid(*b2, *tb, b) && match c {
            Choice::Left => forall|x: int, y: int, z: int|
                b.holds(x, y, z) ==> #[trigger] eval(*a, x, y, z) >= eval(*b2, x, y, z),
            Choice::Right => forall|x: int, y: int, z: int|
                b.holds(x, y, z) ==> eval(*a, x, y, z) <= #[trigger] eval(*b2, x, y, z),
            Choice::Both => true,
        },
        _ => true,
    }
}

/// What interval evaluation returns over a box: the deterministic
/// bottom-up combination of the per-operation interval rules.
pub open spec fn spec_interval(e: Expr, b: Aabb) -> Interval
    decreases e,
{
    match e {
        Expr::X => b.x,
        Expr::Y => b.y,
        Expr::Z => b.z,
        Expr::Const(c) => Interval { lo: c, hi: c },
        Expr::Neg(a) => crate::interval::neg_spec(spec_interval(*a, b)),
        Expr::Add(a, b2) => crate::interval::add_spec(spec_interval(*a, b), spec_interval(*b2, b)),
        Expr::Sub(a, b2) => crate::interval::sub_spec(spec_interval(*a, b), spec_interval(*b2, b)),
        Expr::Mul(a, b2) => crate::interval::mul_spec(spec_interval(*a, b), spec_interval(*b2, b)),
        Expr::Min(a, b2) => crate::interval::min_spec(spec_interval(*a, b), spec_interval(*b2, b)),
        Expr::Max(a, b2) => crate::interval::max_spec(spec_interval(*a, b), spec_interval(*b2, b)),
    }
}

/// What interval evaluation's trace records over a box: at each `Min`
/// or `Max`, the deterministic decision the operand intervals allow.
pub open spec fn spec_trace(e: Expr, b: Aabb) -> Trace
    decreases e,
{
    match e {
        Expr::X => Trace::Leaf,
        Expr::Y => Trace::Leaf,
        Expr::Z => Trace::Leaf,
        Expr::Const(_) => Trace::Leaf,
        Expr::Neg(a) => Trace::Un(Box::new(spec_trace(*a, b))),
        Expr::Add(a, b2) => Trace::Bin(Box::new(spec_trace(*a, b)), Box::new(spec_trace(*b2, b))),
        Expr::Sub(a, b2) => Trace::Bin(Box::new(spec_trace(*a, b)), Box::new(spec_trace(*b2, b))),
        Expr::Mul(a, b2) => Trace::Bin(Box::new(spec_trace(*a, b)), Box::new(spec_trace(*b2, b))),
        Expr::Min(a, b2) => Trace::Pick(
            if spec_interval(*a, b).hi <= spec_interval(*b2, b).lo {
                Choice::Left
            } else if spec_interval(*b2, b).hi <= spec_interval(*a, b).lo {
                Choice::Right
            } else {
                Choice::Both
            },
            Box::new(spec_trace(*a, b)),
            Box::new(spec_trace(*b2, b)),
        ),
        Expr::Max(a, b2) => Trace::Pick(
            if spec_interval(*b2, b).hi <= spec_interval(*a, b).lo {
                Choice::Left
            } else if spec_interval(*a, b).hi <= spec_interval(*b2, b).lo {
                Choice::Right
            } else {
                Choice::Both
            },
            Box::new(spec_trace(*a, b)),
            Box::new(spec_trace(*b2, b)),
        ),
    }
}

/// The expression obtained by committing the decided choices of a trace:
/// a decided `Min` or `Max` node is replaced by its winning operand.  A
/// trace that does not match the expression leaves it unchanged.
pub open spec fn spec_simplify(e: Expr, t: Trace) -> Expr
    decreases e,
{
    match e {
        Expr::Neg(a) => if let Trace::Un(ta) = t {
            Expr::Neg(Box::new(spec_simplify(*a, *ta)))
        } else {
            e
        },
        Expr::Add(a, b) => if let Trace::Bin(ta, tb) = t {
            Expr::Add(Box::new(spec_simplify(*a, *ta)), Box::new(spec_simplify(*b, *tb)))
        } else {
            e
        },
        Expr::Sub(a, b) => if let Trace::Bin(ta, tb) = t {
            Expr::Sub(Box::new(spec_simplify(*a, *ta)), Box::new(spec_simplify(*b, *tb)))
        } else {
            e
        },
        Expr::Mul(a, b) => if let Trace::Bin(ta, tb) = t {
            Expr::Mul(Box::new(spec_simplify(*a, *ta)), Box::new(spec_simplify(*b, *tb)))
        } else {
            e
        },
        Expr::Min(a, b) => if let Trace::Pick(c, ta, tb) = t {
            match c {
                Choice::Left => spec_simplify(*a, *ta),
                Choice::Right => spec_simplify(*b, *tb),
                Choice::Both => Expr::Min(
                    Box::new(spec_simplify(*a, *ta)),
                    Box::new(spec_simplify(*b, *tb)),
                ),
            }
        } else {
            e
        },
        Expr::Max(a, b) => if let Trace::Pick(c, ta, tb) = t {
            match c {
                Choice::Left => spec_simplify(*a, *ta),
                Choice::Right => spec_simplify(*b, *tb),
                Choice::Both => Expr::Max(
                    Box::new(spec_simplify(*a, *ta)),
                    Box::new(spec_simplify(*b, *tb)),
                ),
            }
        } else {
            e
        },
        _ => e,
    }
}

/// Committing a trace never grows an expression.
pub proof fn lemma_simplify_size(e: Expr, t: Trace)
    ensures
        size(spec_simplify(e, t)) <= size(e),
    decreases e,
{
    match e {
        Expr::Neg(a) => {
            if let Trace::Un(ta) = t {
                lemma_simplify_size(*a, *ta);
            }
        },
        Expr::Add(a, b) => {
            if let Trace::Bin(ta, tb) = t {
                lemma_simplify_size(*a, *ta);
                lemma_simplify_size(*b, *tb);
            }
        },
        Expr::Sub(a, b) => {
            if let Trace::Bin(ta, tb) = t {
                lemma_simplify_size(*a, *ta);
                lemma_simplify_size(*b, *tb);
            }
        },
        Expr::Mul(a, b) => {
            if let Trace::Bin(ta, tb) = t {
                lemma_simplify_size(*a, *ta);
                lemma_simplify_size(*b, *tb);
            }
        },
        Expr::Min(a, b) => {
            if let Trace::Pick(c, ta, tb) = t {
                lemma_simplify_size(*a, *ta);
                lemma_simplify_size(*b, *tb);
            }
        },
        Expr::Max(a, b) => {
            if let Trace::Pick(c, ta, tb) = t {
                lemma_simplify_size(*a, *ta);
                lemma_simplify_size(*b, *tb);
            }
        },
        _ => {},
    }
}

/// Committing a trace whose decisions hold over a box preserves the value
/// of the expression at every point of that box.
pub proof fn lemma_simplify_eval(e: Expr, t: Trace, b: Aabb, x: int, y: int, z: int)
    requires
        trace_valid(e, t, b),
        b.holds(x, y, z),
    ensures
        eval(spec_simplify(e, t), x, y, z) == eval(e, x, y, z),
    decreases e,
{
    match e {
        Expr::Neg(a) => {
            if let Trace::Un(ta) = t {
                lemma_simplify_eval(*a, *ta, b, x, y, z);
            }
        },
        Expr::Add(a, b2) => {
            if let Trace::Bin(ta, tb) = t {
                lemma_simplify_eval(*a, *ta, b, x, y, z);
                lemma_simplify_eval(*b2, *tb, b, x, y, z);
            }
        },
        Expr::Sub(a, b2) => {
            if let Trace::Bin(ta, tb) = t {
                lemma_simplify_eval(*a, *ta, b, x, y, z);
                lemma_simplify_eval(*b2, *tb, b, x, y, z);
            }
        },
        Expr::Mul(a, b2) => {
            if let Trace::Bin(ta, tb) = t {
                lemma_simplify_eval(*a, *ta, b, x, y, z);
                lemma_simplify_eval(*b2, *tb, b, x, y, z);
            }
        },
        Expr::Min(a, b2) => {
            if let Trace::Pick(c, ta, tb) = t {
                lemma_simplify_eval(*a, *ta, b, x, y, z);
                lemma_simplify_eval(*b2, *tb, b, x, y, z);
            }
        },
        Expr::Max(a, b2) => {
            if let Trace::Pick(c, ta, tb) = t {
                lemma_simplify_eval(*a, *ta, b, x, y, z);
                lemma_simplify_eval(*b2, *tb, b, x, y, z);
            }
        },
        _ => {},
    }
}

impl Expr {
    /// The number of nodes, as a machine integer.
    pub fn node_count(&self) -> (n: usize)
        requires
            size(*self) <= usize::MAX,
        ensures
            n == size(*self),
        decreases *self,
    {
        match self {
            Expr::X => 1,
            Expr::Y => 1,
            Expr::Z => 1,
            Expr::Const(_) => 1,
            Expr::Neg(a) => 1 + a.node_count(),
            Expr::Add(a, b) => 1 + a.node_count() + b.node_count(),
            Expr::Sub(a, b) => 1 + a.node_count() + b.node_count(),
            Expr::Mul(a, b) => 1 + a.node_count() + b.node_count(),
            Expr::Min(a, b) => 1 + a.node_count() + b.node_count(),
            Expr::Max(a, b) => 1 + a.node_count() + b.node_count(),
        }
    }

    /// A structurally equal copy.
    pub fn duplicate(&self) -> (r: Expr)
        ensures
            r == *self,
        decreases *self,
    {
        match self {
            Expr::X => Expr::X,
            Expr::Y => Expr::Y,
            Expr::Z => Expr::Z,
            Expr::Const(c) => Expr::Const(*c),
            Expr::Neg(a) => Expr::Neg(Box::new(a.duplicate())),
            Expr::Add(a, b) => Expr::Add(Box::new(a.duplicate()), Box::new(b.duplicate())),
            Expr::Sub(a, b) => Expr::Sub(Box::new(a.duplicate()), Box::new(b.duplicate())),
            Expr::Mul(a, b) => Expr::Mul(Box::new(a.duplicate()), Box::new(b.duplicate())),
            Expr::Min(a, b) => Expr::Min(Box::new(a.duplicate()), Box::new(b.duplicate())),
            Expr::Max(a, b) => Expr::Max(Box::new(a.duplicate()), Box::new(b.duplicate())),
        }
    }

    /// The value at a point, in clamped 64-bit arithmetic.
    pub fn eval_at(&self, x: i64, y: i64, z: i64) -> (r: i64)
        ensures
            r as int == eval(*self, x as int, y as int, z as int),
        decreases *self,
    {
        match self {
            Expr::X => x,
            Expr::Y => y,
            Expr::Z => z,
            Expr::Const(c) => *c,
            Expr::Neg(a) => sat_neg(a.eval_at(x, y, z)),
            Expr::Add(a, b) => sat_add(a.eval_at(x, y, z), b.eval_at(x, y, z)),
            Expr::Sub(a, b) => sat_sub(a.eval_at(x, y, z), b.eval_at(x, y, z)),
            Expr::Mul(a, b) => sat_mul(a.eval_at(x, y, z), b.eval_at(x, y, z)),
            Expr::Min(a, b) => min64(a.eval_at(x, y, z), b.eval_at(x, y, z)),
            Expr::Max(a, b) => max64(a.eval_at(x, y, z), b.eval_at(x, y, z)),
        }
    }

    /// Interval evaluation over a box, with a trace of decided choices.
    ///
    /// The returned interval bounds the value of the expression at every
    /// point of the box, and every decision in the returned trace holds
    /// pointwise over the box.
    pub fn eval_interval(&self, b: &Aabb) -> (r: (Interval, Trace))
        requires
            b.wf(),
        ensures
            r.0 == spec_interval(*self, *b),
            r.1 == spec_trace(*self, *b),
            r.0.wf(),
            forall|x: int, y: int, z: int|
                b.holds(x, y, z) ==> r.0.holds(#[trigger] eval(*self, x, y, z)),
            trace_matches(*self, r.1),
            trace_valid(*self, r.1, *b),
        decreases *self,
    {
        match self {
            Expr::X => (b.x, Trace::Leaf),
            Expr::Y => (b.y, Trace::Leaf),
            Expr::Z => (b.z, Trace::Leaf),
            Expr::Const(c) => (Interval::point(*c), Trace::Leaf),
            Expr::Neg(a) => {
                let (ia, ta) = a.eval_interval(b);
                let iv = ia.neg();
                proof {
                    assert forall|x: int, y: int, z: int| b.holds(x, y, z) implies iv.holds(
                        #[trigger] eval(*self, x, y, z),
                    ) by {
                        assert(ia.holds(eval(**a, x, y, z)));
                        assert(eval(*self, x, y, z) == clamp64(-eval(**a, x, y, z)));
                    }
                }
                (iv, Trace::Un(Box::new(ta)))
            },
            Expr::Add(a, b2) => {
                let (ia, ta) = a.eval_interval(b);
                let (ib, tb) = b2.eval_interval(b);
                let iv = ia.add(ib);
                proof {
                    assert forall|x: int, y: int, z: int| b.holds(x, y, z) implies iv.holds(
                        #[trigger] eval(*self, x, y, z),
                    ) by {
                        assert(ia.holds(eval(**a, x, y, z)));
                        assert(ib.holds(eval(**b2, x, y, z)));
                        assert(eval(*self, x, y, z) == clamp64(
                            eval(**a, x, y, z) + eval(**b2, x, y, z),
                        ));
                    }
                }
                (iv, Trace::Bin(Box::new(ta), Box::new(tb)))
            },
            Expr::Sub(a, b2) => {
                let (ia, ta) = a.eval_interval(b);
                let (ib, tb) = b2.eval_interval(b);
                let iv = ia.sub(ib);
                proof {
                    assert forall|x: int, y: int, z: int| b.holds(x, y, z) implies iv.holds(
                        #[trigger] eval(*self, x, y, z),
                    ) by {
                        assert(ia.holds(eval(**a, x, y, z)));
                        assert(ib.holds(eval(**b2, x, y, z)));
                        assert(eval(*self, x, y, z) == clamp64(
                            eval(**a, x, y, z) - eval(**b2, x, y, z),
                        ));
                    }
                }
                (iv, Trace::Bin(Box::new(ta), Box::new(tb)))
            },
            Expr::Mul(a, b2) => {
                let (ia, ta) = a.eval_interval(b);
                let (ib, tb) = b2.eval_interval(b);
                let iv = ia.mul(ib);
                proof {
                    assert forall|x: int, y: int, z: int| b.holds(x, y, z) implies iv.holds(
                        #[trigger] eval(*self, x, y, z),
                    ) by {
                        assert(ia.holds(eval(**a, x, y, z)));
                        assert(ib.holds(eval(**b2, x, y, z)));
                        assert(eval(*self, x, y, z) == clamp64(
                            eval(**a, x, y, z) * eval(**b2, x, y, z),
                        ));
                    }
                }
                (iv, Trace::Bin(Box::new(ta), Box::new(tb)))
            },
            Expr::Min(a, b2) => {
                let (ia, ta) = a.eval_interval(b);
                let (ib, tb) = b2.eval_interval(b);
                let c = if ia.hi <= ib.lo {
                    Choice::Left
                } else if ib.hi <= ia.lo {
                    Choice::Right
                } else {
                    Choice::Both
                };
                let iv = ia.min_i(ib);
                proof {
                    assert forall|x: int, y: int, z: int| b.holds(x, y, z) implies iv.holds(
                        #[trigger] eval(*self, x, y, z),
                    ) by {
                        assert(ia.holds(eval(**a, x, y, z)));
                        assert(ib.holds(eval(**b2, x, y, z)));
                        assert(eval(*self, x, y, z) == imin(
                            eval(**a, x, y, z),
                            eval(**b2, x, y, z),
                        ));
                    }
                    if c is Left {
                        assert forall|x: int, y: int, z: int| b.holds(x, y, z) implies #[trigger]
                            eval(**a, x, y, z) <= eval(**b2, x, y, z) by {
                            assert(ia.holds(eval(**a, x, y, z)));
                            assert(ib.holds(eval(**b2, x, y, z)));
                        }
                    }
                    if c is Right {
                        assert forall|x: int, y: int, z: int| b.holds(x, y, z) implies eval(
                            **a,
                            x,
                            y,
                            z,
                        ) >= #[trigger] eval(**b2, x, y, z) by {
                            assert(ia.holds(eval(**a, x, y, z)));
                            assert(ib.holds(eval(**b2, x, y, z)));
                        }
                    }
                }
                (iv, Trace::Pick(c, Box::new(ta), Box::new(tb)))
            },
            Expr::Max(a, b2) => {
                let (ia, ta) = a.eval_interval(b);
                let (ib, tb) = b2.eval_interval(b);
                let c = if ib.hi <= ia.lo {
                    Choice::Left
                } else if ia.hi <= ib.lo {
                    Choice::Right
                } else {
                    Choice::Both
                };
                let iv = ia.max_i(ib);
                proof {
                    assert forall|x: int, y: int, z: int| b.holds(x, y, z) implies iv.holds(
                        #[trigger] eval(*self, x, y, z),
                    ) by {
                        assert(ia.holds(eval(**a, x, y, z)));
                        assert(ib.holds(eval(**b2, x, y, z)));
                        assert(eval(*self, x, y, z) == imax(
                            eval(**a, x, y, z),
                            eval(**b2, x, y, z),
                        ));
                    }
                    if c is Left {
                        assert forall|x: int, y: int, z: int| b.holds(x, y, z) implies #[trigger]
                            eval(**a, x, y, z) >= eval(**b2, x, y, z) by {
                            assert(ia.holds(eval(**a, x, y, z)));
                            assert(ib.holds(eval(**b2, x, y, z)));
                        }
                    }
                    if c is Right {
                        assert forall|x: int, y: int, z: int| b.holds(x, y, z) implies eval(
                            **a,
                            x,
                            y,
                            z,
                        ) <= #[trigger] eval(**b2, x, y, z) by {
                            assert(ia.holds(eval(**a, x, y, z)));
                            assert(ib.holds(eval(**b2, x, y, z)));
                        }
                    }
                }
                (iv, Trace::Pick(c, Box::new(ta), Box::new(tb)))
            },
        }
    }
    pub fn simplify_with(&self, t: &Trace) -> (r: Expr)
        ensures
            r == spec_simplify(*self, *t),
        decreases *self,
    {
        match self {
            Expr::Neg(a) => {
                if let Trace::Un(ta) = t {
                    Expr::Neg(Box::new(a.simplify_with(ta)))
                } else {
                    self.duplicate()
                }
            },
            Expr::Add(a, b) => {
                if let Trace::Bin(ta, tb) = t {
                    Expr::Add(Box::new(a.simplify_with(ta)), Box::new(b.simplify_with(tb)))
                } else {
                    self.duplicate()
                }
            },
            Expr::Sub(a, b) => {
                if let Trace::Bin(ta, tb) = t {
                    Expr::Sub(Box::new(a.simplify_with(ta)), Box::new(b.simplify_with(tb)))
                } else {
                    self.duplicate()
                }
            },
            Expr::Mul(a, b) => {
                if let Trace::Bin(ta, tb) = t {
                    Expr::Mul(Box::new(a.simplify_with(ta)), Box::new(b.simplify_with(tb)))
                } else {
                    self.duplicate()
                }
            },
            Expr::Min(a, b) => {
                if let Trace::Pick(c, ta, tb) = t {
                    match c {
                        Choice::Left => a.simplify_with(ta),
                        Choice::Right => b.simplify_with(tb),
                        Choice::Both => Expr::Min(
                            Box::new(a.simplify_with(ta)),
                            Box::new(b.simplify_with(tb)),
                        ),
                    }
                } else {
                    self.duplicate()
                }
            },
            Expr::Max(a, b) => {
                if let Trace::Pick(c, ta, tb) = t {
                    match c {
                        Choice::Left => a.simplify_with(ta),
                        Choice::Right => b.simplify_with(tb),
                        Choice::Both => Expr::Max(
                            Box::new(a.simplify_with(ta)),
                            Box::new(b.simplify_with(tb)),
                        ),
                    }
                } else {
                    self.duplicate()
                }
            },
            _ => self.duplicate(),
        }
    }
}

/// Whether a trace records at least one decided (`Left` or `Right`)
/// choice; only such a trace can shrink an expression.
pub open spec fn spec_has_decision(t: Trace) -> bool
    decreases t,
{
    match t {
        Trace::Leaf => false,
        Trace::Un(a) => spec_has_decision(*a),
        Trace::Bin(a, b) => spec_has_decision(*a) || spec_has_decision(*b),
        Trace::Pick(c, a, b) => !(c is Both) || spec_has_decision(*a) || spec_has_decision(*b),
    }
}

impl Trace {
    /// Whether at least one choice in the trace is decided.
    pub fn has_decision(&self) -> (r: bool)
        ensures
            r == spec_has_decision(*self),
        decreases *self,
    {
        match self {
            Trace::Leaf => false,
            Trace::Un(a) => a.has_decision(),
            Trace::Bin(a, b) => a.has_decision() || b.has_decision(),
            Trace::Pick(c, a, b) => !matches!(c, Choice::Both) || a.has_decision()
                || b.has_decision(),
        }
    }

    /// A structurally equal copy.
    pub fn duplicate(&self) -> (r: Trace)
        ensures
            r == *self,
        decreases *self,
    {
        match self {
            Trace::Leaf => Trace::Leaf,
            Trace::Un(a) => Trace::Un(Box::new(a.duplicate())),
            Trace::Bin(a, b) => Trace::Bin(Box::new(a.duplicate()), Box::new(b.duplicate())),
            Trace::Pick(c, a, b) => Trace::Pick(*c, Box::new(a.duplicate()), Box::new(
                b.duplicate(),
            )),
        }
    }

    /// Overwrites this trace with a copy of another, reusing the binding.
    pub fn copy_from(&mut self, other: &Trace)
        ensures
            *final(self) == *other,
    {
        *self = other.duplicate();
    }
}

impl PartialEq for Trace {
    /// Structural equality, in time proportional to the smaller trace.
    fn eq(&self, other: &Self) -> bool
        decreases *self,
    {
        match (self, other) {
            (Trace::Leaf, Trace::Leaf) => true,
            (Trace::Un(a), Trace::Un(b)) => **a == **b,
            (Trace::Bin(a1, a2), Trace::Bin(b1, b2)) => **a1 == **b1 && **a2 == **b2,
            (Trace::Pick(c1, a1, a2), Trace::Pick(c2, b1, b2)) => c1 == c2 && **a1 == **b1
                && **a2 == **b2,
            _ => false,
        }
    }
}

impl vstd::std_specs::cmp::PartialEqSpecImpl for Trace {
    open spec fn obeys_eq_spec() -> bool {
        true
    }

    open spec fn eq_spec(&self, other: &Trace) -> bool {
        *self == *other
    }
}

impl Eq for Trace {

}

/// The gradient of an expression at a point, as formal forward-mode
/// derivatives of the clamped evaluation (clamping treated as the
/// identity, which it is away from the range edges).  At a `Min` or
/// `Max` the winning operand's gradient is taken, the left one on ties.
pub open spec fn grad(e: Expr, x: int, y: int, z: int) -> (int, int, int)
    decreases e,
{
    match e {
        Expr::X => (1, 0, 0),
        Expr::Y => (0, 1, 0),
        Expr::Z => (0, 0, 1),
        Expr::Const(_) => (0, 0, 0),
        Expr::Neg(a) => {
            let (gx, gy, gz) = grad(*a, x, y, z);
            (clamp64(-gx), clamp64(-gy), clamp64(-gz))
        },
        Expr::Add(a, b) => {
            let (ax, ay, az) = grad(*a, x, y, z);
            let (bx, by, bz) = grad(*b, x, y, z);
            (clamp64(ax + bx), clamp64(ay + by), clamp64(az + bz))
        },
        Expr::Sub(a, b) => {
            let (ax, ay, az) = grad(*a, x, y, z);
            let (bx, by, bz) = grad(*b, x, y, z);
            (clamp64(ax - bx), clamp64(ay - by), clamp64(az - bz))
        },
        Expr::Mul(a, b) => {
            let fa = eval(*a, x, y, z);
            let fb = eval(*b, x, y, z);
            let (ax, ay, az) = grad(*a, x, y, z);
            let (bx, by, bz) = grad(*b, x, y, z);
            (
                clamp64(clamp64(fa * bx) + clamp64(fb * ax)),
                clamp64(clamp64(fa * by) + clamp64(fb * ay)),
                clamp64(clamp64(fa * bz) + clamp64(fb * az)),
            )
        },
        Expr::Min(a, b) => if eval(*a, x, y, z) <= eval(*b, x, y, z) {
            grad(*a, x, y, z)
        } else {
            grad(*b, x, y, z)
        },
        Expr::Max(a, b) => if eval(*a, x, y, z) >= eval(*b, x, y, z) {
            grad(*a, x, y, z)
        } else {
            grad(*b, x, y, z)
        },
    }
}

impl Expr {
    /// The value and gradient at a point, in clamped 64-bit arithmetic.
    pub fn grad_at(&self, x: i64, y: i64, z: i64) -> (r: (i64, i64, i64, i64))
        ensures
            r.0 as int == eval(*self, x as int, y as int, z as int),
            (r.1 as int, r.2 as int, r.3 as int) == grad(
                *self,
                x as int,
                y as int,
                z as int,
            ),
        decreases *self,
    {
        match self {
            Expr::X => (x, 1, 0, 0),
            Expr::Y => (y, 0, 1, 0),
            Expr::Z => (z, 0, 0, 1),
            Expr::Const(c) => (*c, 0, 0, 0),
            Expr::Neg(a) => {
                let (f, gx, gy, gz) = a.grad_at(x, y, z);
                (sat_neg(f), sat_neg(gx), sat_neg(gy), sat_neg(gz))
            },
            Expr::Add(a, b) => {
                let (fa, ax, ay, az) = a.grad_at(x, y, z);
                let (fb, bx, by, bz) = b.grad_at(x, y, z);
                (sat_add(fa, fb), sat_add(ax, bx), sat_add(ay, by), sat_add(az, bz))
            },
            Expr::Sub(a, b) => {
                let (fa, ax, ay, az) = a.grad_at(x, y, z);
                let (fb, bx, by, bz) = b.grad_at(x, y, z);
                (sat_sub(fa, fb), sat_sub(ax, bx), sat_sub(ay, by), sat_sub(az, bz))
            },
            Expr::Mul(a, b) => {
                let (fa, ax, ay, az) = a.grad_at(x, y, z);
                let (fb, bx, by, bz) = b.grad_at(x, y, z);
                (
                    sat_mul(fa, fb),
                    sat_add(sat_mul(fa, bx), sat_mul(fb, ax)),
                    sat_add(sat_mul(fa, by), sat_mul(fb, ay)),
                    sat_add(sat_mul(fa, bz), sat_mul(fb, az)),
                )
            },
            Expr::Min(a, b) => {
                let (fa, ax, ay, az) = a.grad_at(x, y, z);
                let (fb, bx, by, bz) = b.grad_at(x, y, z);
                if fa <= fb {
                    (fa, ax, ay, az)
                } else {
                    (fb, bx, by, bz)
                }
            },
            Expr::Max(a, b) => {
                let (fa, ax, ay, az) = a.grad_at(x, y, z);
                let (fb, bx, by, bz) = b.grad_at(x, y, z);
                if fa >= fb {
                    (fa, ax, ay, az)
                } else {
                    (fb, bx, by, bz)
                }
            },
        }
    }
}

} // verus!
