use vstd::prelude::*;
use std::sync::Arc;
use crate::interval::Interval;
use crate::shape::{Aabb, Expr, Trace, eval, size, spec_simplify, lemma_simplify_size,
    trace_valid, trace_matches};

verus! {

/// Relies on std's `Arc::try_unwrap`: when this is the sole reference it
/// returns the inner value, otherwise it gives the same `Arc` back.
#[verifier::external_body]
fn arc_try_unwrap(v: Arc<Tape>) -> (r: Result<Tape, Arc<Tape>>)
    ensures
        match r {
            Ok(t) => t == v,
            Err(e) => e == v,
        },
{
    Arc::try_unwrap(v)
}

/// Relies on std's `Clone` for `Arc`: the clone shares the same inner
/// value.
#[verifier::external_body]
fn arc_clone(a: &Arc<Tape>) -> (r: Arc<Tape>)
    ensures
        r == *a,
{
    Arc::clone(a)
}

/// A recyclable backing buffer for a shape; pools keep these between
/// builds to avoid allocation churn.
#[derive(Debug, Clone, Copy)]
pub struct ShapeStorage {
    /// Capacity hint carried from the shape that last used this buffer.
    pub cap: usize,
}

impl Default for ShapeStorage {
    /// A fresh, empty buffer.
    fn default() -> (r: Self)
        ensures
            r.cap == 0,
    {
        ShapeStorage { cap: 0 }
    }
}

/// A recyclable backing buffer for an evaluation tape.
#[derive(Debug, Clone, Copy)]
pub struct TapeStorage {
    /// Capacity hint carried from the tape that last used this buffer.
    pub cap: usize,
}

impl Default for TapeStorage {
    /// A fresh, empty buffer.
    fn default() -> (r: Self)
        ensures
            r.cap == 0,
    {
        TapeStorage { cap: 0 }
    }
}

/// Scratch state threaded through shape simplification.  The ghost call
/// counter lets contracts say when a cached result was reused instead of
/// running a new simplification.
pub struct Workspace {
    /// How many shape simplifications have run through this workspace.
    pub calls: Ghost<nat>,
}

impl Workspace {
    /// A fresh workspace with no recorded simplifications.
    pub fn new() -> (w: Workspace)
        ensures
            w.calls@ == 0,
    {
        Workspace { calls: Ghost(0) }
    }
}

/// An implicit-surface shape: an expression together with its backing
/// storage and a cached node count (its `size`, the cost proxy used when
/// deciding whether a simplification is worth adopting).
#[derive(Debug)]
pub struct Shape {
    expr: Expr,
    size: usize,
    store: ShapeStorage,
}

impl View for Shape {
    type V = Expr;

    closed spec fn view(&self) -> Expr {
        self.expr
    }
}

impl Clone for Shape {
    /// A structurally equal copy.
    fn clone(&self) -> (r: Self)
        ensures
            r == *self,
    {
        proof {
            use_type_invariant(self);
        }
        Shape { expr: self.expr.duplicate(), size: self.size, store: self.store }
    }
}

impl Shape {
    #[verifier::type_invariant]
    spec fn inv(self) -> bool {
        self.size == size(self.expr)
    }

    /// The backing storage this shape owns (and releases on recycling).
    pub closed spec fn store_of(self) -> ShapeStorage {
        self.store
    }

    /// Wraps an expression as a shape with fresh storage.
    pub fn new(expr: Expr) -> (s: Shape)
        requires
            size(expr) <= usize::MAX,
        ensures
            s@ == expr,
            s.store_of() == (ShapeStorage { cap: 0 }),
    {
        let n = expr.node_count();
        Shape { expr, size: n, store: ShapeStorage { cap: 0 } }
    }

    /// The node count of the underlying expression, a proxy for its
    /// evaluation cost.
    pub fn size(&self) -> (n: usize)
        ensures
            n == size(self@),
    {
        proof {
            use_type_invariant(self);
        }
        self.size
    }

    /// Builds a tape for tracing interval evaluation, consuming a storage
    /// buffer.
    pub fn interval_tape(&self, store: TapeStorage) -> (t: Tape)
        ensures
            t@ == self@,
            t.store_of() == store,
    {
        Tape { expr: self.expr.duplicate(), store }
    }

    /// Builds a tape for bulk float evaluation, consuming a storage
    /// buffer.
    pub fn float_slice_tape(&self, store: TapeStorage) -> (t: Tape)
        ensures
            t@ == self@,
            t.store_of() == store,
    {
        Tape { expr: self.expr.duplicate(), store }
    }

    /// Builds a tape for bulk gradient evaluation, consuming a storage
    /// buffer.
    pub fn grad_slice_tape(&self, store: TapeStorage) -> (t: Tape)
        ensures
            t@ == self@,
            t.store_of() == store,
    {
        Tape { expr: self.expr.duplicate(), store }
    }

    /// Commits the decided choices of a trace, producing the (never
    /// larger) simplified shape.  The storage buffer is reused for the
    /// new shape; the workspace records that a simplification ran.
    pub fn simplify(&self, t: &Trace, store: ShapeStorage, ws: &mut Workspace) -> (r: Shape)
        ensures
            r@ == spec_simplify(self@, *t),
            r.store_of() == store,
            final(ws).calls@ == old(ws).calls@ + 1,
    {
        proof {
            use_type_invariant(self);
            lemma_simplify_size(self.expr, *t);
        }
        let expr = self.expr.simplify_with(t);
        let n = expr.node_count();
        ws.calls = Ghost(ws.calls@ + 1);
        Shape { expr, size: n, store }
    }

    /// Releases the shape's backing storage for reuse: the buffer this
    /// shape owns, never a fresh one.
    pub fn recycle(self) -> (r: Option<ShapeStorage>)
        ensures
            r == Some(self.store_of()),
    {
        Some(self.store)
    }
}

/// An executable linearization of a shape's expression, consumed by one
/// evaluator flavor.  Its view is the expression it evaluates.
#[derive(Debug)]
pub struct Tape {
    expr: Expr,
    store: TapeStorage,
}

impl View for Tape {
    type V = Expr;

    closed spec fn view(&self) -> Expr {
        self.expr
    }
}

impl Tape {
    /// The backing storage this tape owns (and releases on recycling).
    pub closed spec fn store_of(self) -> TapeStorage {
        self.store
    }

    /// Releases the tape's backing storage for reuse: the buffer this
    /// tape owns, never a fresh one.
    pub fn recycle(self) -> (r: TapeStorage)
        ensures
            r == self.store_of(),
    {
        self.store
    }

    /// Interval evaluation over a box: the returned interval bounds the
    /// shape's value at every point of the box, and the returned trace
    /// records only decisions that hold pointwise over the whole box.
    pub fn eval_interval(&self, b: &Aabb) -> (r: (Interval, Trace))
        requires
            b.wf(),
        ensures
            r.0 == crate::shape::spec_interval(self@, *b),
            r.1 == crate::shape::spec_trace(self@, *b),
            r.0.wf(),
            forall|x: int, y: int, z: int|
                b.holds(x, y, z) ==> r.0.holds(#[trigger] eval(self@, x, y, z)),
            trace_matches(self@, r.1),
            trace_valid(self@, r.1, *b),
    {
        self.expr.eval_interval(b)
    }

    /// Pointwise evaluation at one coordinate triple.
    pub fn eval_point(&self, x: i64, y: i64, z: i64) -> (r: i64)
        ensures
            r as int == eval(self@, x as int, y as int, z as int),
    {
        self.expr.eval_at(x, y, z)
    }

    /// Bulk value-and-gradient evaluation over parallel coordinate
    /// slices; each entry is `(f, df/dx, df/dy, df/dz)`.
    pub fn eval_grad_slice(&self, xs: &Vec<i64>, ys: &Vec<i64>, zs: &Vec<i64>) -> (r: Vec<
        (i64, i64, i64, i64),
    >)
        requires
            xs@.len() == ys@.len(),
            xs@.len() == zs@.len(),
        ensures
            r@.len() == xs@.len(),
            forall|i: int|
                0 <= i < r@.len() ==> #[trigger] r@[i].0 as int == eval(
                    self@,
                    xs@[i] as int,
                    ys@[i] as int,
                    zs@[i] as int,
                ) && (r@[i].1 as int, r@[i].2 as int, r@[i].3 as int) == crate::shape::grad(
                    self@,
                    xs@[i] as int,
                    ys@[i] as int,
                    zs@[i] as int,
                ),
    {
        let mut out: Vec<(i64, i64, i64, i64)> = Vec::new();
        let mut i: usize = 0;
        while i < xs.len()
            invariant
                0 <= i <= xs@.len(),
                xs@.len() == ys@.len(),
                xs@.len() == zs@.len(),
                out@.len() == i,
                forall|j: int|
                    0 <= j < i ==> #[trigger] out@[j].0 as int == eval(
                        self@,
                        xs@[j] as int,
                        ys@[j] as int,
                        zs@[j] as int,
                    ) && (out@[j].1 as int, out@[j].2 as int, out@[j].3 as int)
                        == crate::shape::grad(self@, xs@[j] as int, ys@[j] as int, zs@[j] as int),
            decreases xs@.len() - i,
        {
            out.push(self.expr.grad_at(xs[i], ys[i], zs[i]));
            i = i + 1;
        }
        out
    }

    /// Bulk evaluation over parallel coordinate slices.
    pub fn eval_float_slice(&self, xs: &Vec<i64>, ys: &Vec<i64>, zs: &Vec<i64>) -> (r: Vec<i64>)
        requires
            xs@.len() == ys@.len(),
            xs@.len() == zs@.len(),
        ensures
            r@.len() == xs@.len(),
            forall|i: int|
                0 <= i < r@.len() ==> #[trigger] r@[i] as int == eval(
                    self@,
                    xs@[i] as int,
                    ys@[i] as int,
                    zs@[i] as int,
                ),
    {
        let mut out: Vec<i64> = Vec::new();
        let mut i: usize = 0;
        while i < xs.len()
            invariant
                0 <= i <= xs@.len(),
                xs@.len() == ys@.len(),
                xs@.len() == zs@.len(),
                out@.len() == i,
                forall|j: int|
                    0 <= j < i ==> #[trigger] out@[j] as int == eval(
                        self@,
                        xs@[j] as int,
                        ys@[j] as int,
                        zs@[j] as int,
                    ),
            decreases xs@.len() - i,
        {
            out.push(self.expr.eval_at(xs[i], ys[i], zs[i]));
            i = i + 1;
        }
        out
    }
}

/// The acceptance rule for a simplification: committing the trace must
/// make the expression strictly smaller, else regenerating tapes would
/// cost more than the smaller shape saves.
pub open spec fn shrinks(e: Expr, t: Trace) -> bool {
    size(spec_simplify(e, t)) < size(e)
}

/// The shape pool after one fresh simplification attempt: the storages
/// freed by recycling a stale child land first; building the candidate
/// pops one buffer when any is available; and when the candidate is
/// rejected its buffer goes straight back (a pop of an empty pool used
/// a fresh buffer, which is what returns).
pub open spec fn pool_after_attempt(
    old_pool: Seq<ShapeStorage>,
    freed: Seq<ShapeStorage>,
    took: bool,
) -> Seq<ShapeStorage> {
    let p = old_pool + freed;
    if took {
        if p.len() > 0 {
            p.subrange(0, p.len() - 1)
        } else {
            p
        }
    } else {
        if p.len() > 0 {
            p
        } else {
            p.push(ShapeStorage { cap: 0 })
        }
    }
}

/// A `RenderHandle` bundles a shape, its lazily built evaluation tapes,
/// and the most recent simplification, cached as a child handle keyed by
/// the trace that produced it.
///
/// Tapes are stored behind `Arc`, so a handle clones cheaply into worker
/// threads; the clone drops the child chain, which is per-recursion-path
/// state.
#[derive(Debug)]
pub struct RenderHandle {
    shape: Shape,
    i_tape: Option<Arc<Tape>>,
    f_tape: Option<Arc<Tape>>,
    g_tape: Option<Arc<Tape>>,
    next: Option<Box<(Trace, RenderHandle)>>,
}

impl RenderHandle {
    /// The expression of the shape this handle renders.
    pub closed spec fn expr_of(self) -> Expr {
        self.shape@
    }

    /// The expression loaded in the interval tape, if it was built.
    pub closed spec fn itape_expr(self) -> Option<Expr> {
        match self.i_tape {
            Some(t) => Some(t@),
            None => None,
        }
    }

    /// The expression loaded in the float tape, if it was built.
    pub closed spec fn ftape_expr(self) -> Option<Expr> {
        match self.f_tape {
            Some(t) => Some(t@),
            None => None,
        }
    }

    /// The expression loaded in the gradient tape, if it was built.
    pub closed spec fn gtape_expr(self) -> Option<Expr> {
        match self.g_tape {
            Some(t) => Some(t@),
            None => None,
        }
    }

    /// The cached simplification, as the trace that produced it and the
    /// child handle, if present.
    pub closed spec fn next_of(self) -> Option<(Trace, RenderHandle)> {
        match self.next {
            Some(b) => Some(*b),
            None => None,
        }
    }

    /// The number of handles in the child chain, this one included.
    pub closed spec fn chain_len(self) -> nat
        decreases self,
    {
        1 + match self.next {
            Some(b) => (*b).1.chain_len(),
            None => 0,
        }
    }

    /// The number of built tapes in the child chain.
    pub closed spec fn tape_slots(self) -> nat
        decreases self,
    {
        (if self.i_tape is Some {
            1nat
        } else {
            0nat
        }) + (if self.f_tape is Some {
            1nat
        } else {
            0nat
        }) + (if self.g_tape is Some {
            1nat
        } else {
            0nat
        }) + match self.next {
            Some(b) => (*b).1.tape_slots(),
            None => 0nat,
        }
    }

    /// The shape storages the chain owns, in the order recycling
    /// releases them: the child chain's first (deepest child first),
    /// this handle's own shape storage last — children may hold storage
    /// popped for their parent, so parents release after them.
    pub closed spec fn chain_shape_stores(self) -> Seq<ShapeStorage>
        decreases self,
    {
        (match self.next {
            Some(b) => (*b).1.chain_shape_stores(),
            None => Seq::empty(),
        }) + seq![self.shape.store_of()]
    }

    /// Whether `s` is the backing buffer of one of the chain's built
    /// tapes; only such buffers may ever be pushed by recycling.
    pub closed spec fn has_tape_store(self, s: TapeStorage) -> bool
        decreases self,
    {
        ||| (self.i_tape matches Some(t) && t.store_of() == s)
        ||| (self.f_tape matches Some(t) && t.store_of() == s)
        ||| (self.g_tape matches Some(t) && t.store_of() == s)
        ||| (self.next matches Some(b) && (*b).1.has_tape_store(s))
    }

    /// The shape storages a call with trace `tr` frees by recycling a
    /// cached child built from a different trace; empty when the cache
    /// is empty or matches.
    pub closed spec fn stale_child_stores(self, tr: Trace) -> Seq<ShapeStorage> {
        match self.next_of() {
            Some((t, c)) => if t != tr {
                c.chain_shape_stores()
            } else {
                Seq::empty()
            },
            None => Seq::empty(),
        }
    }

    /// The tape-slot count of such a stale child: a bound on how many
    /// tape buffers recycling it can free.
    pub closed spec fn stale_child_tape_slots(self, tr: Trace) -> nat {
        match self.next_of() {
            Some((t, c)) => if t != tr {
                c.tape_slots()
            } else {
                0nat
            },
            None => 0nat,
        }
    }

    /// Whether `s` is a tape buffer of such a stale child.
    pub closed spec fn stale_child_has_tape(self, tr: Trace, s: TapeStorage) -> bool {
        match self.next_of() {
            Some((t, c)) => t != tr && c.has_tape_store(s),
            None => false,
        }
    }

    /// Well-formedness: every built tape holds this handle's expression,
    /// and a cached child is exactly the committed simplification of this
    /// shape under the stored trace, strictly smaller than this shape.
    pub closed spec fn wf(self) -> bool
        decreases self,
    {
        &&& (self.i_tape matches Some(t) ==> t@ == self.shape@)
        &&& (self.f_tape matches Some(t) ==> t@ == self.shape@)
        &&& (self.g_tape matches Some(t) ==> t@ == self.shape@)
        &&& match self.next {
            Some(b) => {
                &&& (*b).1.wf()
                &&& size((*b).1.shape@) < size(self.shape@)
                &&& (*b).1.shape@ == spec_simplify(self.shape@, (*b).0)
            },
            None => true,
        }
    }

    /// A cached child is always strictly simpler than its parent, and is
    /// exactly the simplification of the parent under the stored trace.
    pub proof fn lemma_child_monotonic(h: RenderHandle)
        requires
            h.wf(),
        ensures
            match h.next_of() {
                Some((t, c)) => size(c.expr_of()) < size(h.expr_of()) && c.expr_of()
                    == spec_simplify(h.expr_of(), t),
                None => true,
            },
    {
    }

    /// Builds a new handle for the given shape: no tapes are populated,
    /// and no simplification is cached.
    pub fn new(shape: Shape) -> (h: RenderHandle)
        ensures
            h.wf(),
            h.expr_of() == shape@,
            h.itape_expr() is None,
            h.ftape_expr() is None,
            h.gtape_expr() is None,
            h.next_of() is None,
    {
        RenderHandle { shape, i_tape: None, f_tape: None, g_tape: None, next: None }
    }

    /// Returns a tape for tracing interval evaluation, building it on
    /// first use from a pooled storage buffer (or a fresh one when the
    /// pool is empty).
    pub fn i_tape(&mut self, storage: &mut Vec<TapeStorage>) -> (t: &Tape)
        requires
            old(self).wf(),
        ensures
            final(self).wf(),
            t@ == old(self).expr_of(),
            final(self).expr_of() == old(self).expr_of(),
            final(self).itape_expr() == Some(old(self).expr_of()),
            final(self).ftape_expr() == old(self).ftape_expr(),
            final(self).gtape_expr() == old(self).gtape_expr(),
            final(self).next_of() == old(self).next_of(),
            old(self).itape_expr() is Some ==> *final(self) == *old(self) && *final(storage) == *old(storage),
            old(self).itape_expr() is None ==> final(storage)@ == (if old(storage)@.len() > 0 {
                old(storage)@.subrange(0, old(storage)@.len() - 1)
            } else {
                old(storage)@
            }) && t.store_of() == (if old(storage)@.len() > 0 {
                old(storage)@[old(storage)@.len() - 1]
            } else {
                (TapeStorage { cap: 0 })
            }),
    {
        if self.i_tape.is_none() {
            let store = match storage.pop() {
                Some(s) => s,
                None => TapeStorage { cap: 0 },
            };
            self.i_tape = Some(Arc::new(self.shape.interval_tape(store)));
        }
        let a = self.i_tape.as_ref().unwrap();
        &**a
    }

    /// Returns a tape for bulk float evaluation, building it on first
    /// use.
    pub fn f_tape(&mut self, storage: &mut Vec<TapeStorage>) -> (t: &Tape)
        requires
            old(self).wf(),
        ensures
            final(self).wf(),
            t@ == old(self).expr_of(),
            final(self).expr_of() == old(self).expr_of(),
            final(self).ftape_expr() == Some(old(self).expr_of()),
            final(self).itape_expr() == old(self).itape_expr(),
            final(self).gtape_expr() == old(self).gtape_expr(),
            final(self).next_of() == old(self).next_of(),
            old(self).ftape_expr() is Some ==> *final(self) == *old(self) && *final(storage) == *old(storage),
            old(self).ftape_expr() is None ==> final(storage)@ == (if old(storage)@.len() > 0 {
                old(storage)@.subrange(0, old(storage)@.len() - 1)
            } else {
                old(storage)@
            }) && t.store_of() == (if old(storage)@.len() > 0 {
                old(storage)@[old(storage)@.len() - 1]
            } else {
                (TapeStorage { cap: 0 })
            }),
    {
        if self.f_tape.is_none() {
            let store = match storage.pop() {
                Some(s) => s,
                None => TapeStorage { cap: 0 },
            };
            self.f_tape = Some(Arc::new(self.shape.float_slice_tape(store)));
        }
        let a = self.f_tape.as_ref().unwrap();
        &**a
    }

    /// Returns a tape for bulk gradient evaluation, building it on first
    /// use.
    pub fn g_tape(&mut self, storage: &mut Vec<TapeStorage>) -> (t: &Tape)
        requires
            old(self).wf(),
        ensures
            final(self).wf(),
            t@ == old(self).expr_of(),
            final(self).expr_of() == old(self).expr_of(),
            final(self).gtape_expr() == Some(old(self).expr_of()),
            final(self).itape_expr() == old(self).itape_expr(),
            final(self).ftape_expr() == old(self).ftape_expr(),
            final(self).next_of() == old(self).next_of(),
            old(self).gtape_expr() is Some ==> *final(self) == *old(self) && *final(storage) == *old(storage),
            old(self).gtape_expr() is None ==> final(storage)@ == (if old(storage)@.len() > 0 {
                old(storage)@.subrange(0, old(storage)@.len() - 1)
            } else {
                old(storage)@
            }) && t.store_of() == (if old(storage)@.len() > 0 {
                old(storage)@[old(storage)@.len() - 1]
            } else {
                (TapeStorage { cap: 0 })
            }),
    {
        if self.g_tape.is_none() {
            let store = match storage.pop() {
                Some(s) => s,
                None => TapeStorage { cap: 0 },
            };
            self.g_tape = Some(Arc::new(self.shape.grad_slice_tape(store)));
        }
        let a = self.g_tape.as_ref().unwrap();
        &**a
    }

    /// Simplifies the shape under the given trace and returns the handle
    /// to descend with.
    ///
    /// A cached child whose trace equals the given one is returned as is,
    /// with no new simplification.  Otherwise a stale child is recycled
    /// first, one simplification runs, and its result is adopted as the
    /// new child exactly when strictly smaller than the current shape;
    /// when it is not, its storage is returned to the pool and the
    /// handle itself is returned unchanged, with its tapes and shape
    /// intact and no child cached.
    pub fn simplify(
        &mut self,
        trace: &Trace,
        workspace: &mut Workspace,
        shape_storage: &mut Vec<ShapeStorage>,
        tape_storage: &mut Vec<TapeStorage>,
    ) -> (r: &mut RenderHandle)
        requires
            old(self).wf(),
        ensures
            (*r).wf(),
            (*r).expr_of() == (if shrinks(old(self).expr_of(), *trace) {
                spec_simplify(old(self).expr_of(), *trace)
            } else {
                old(self).expr_of()
            }),
            match old(self).next_of() {
                Some((t, c)) => t == *trace ==> *r == c && final(workspace).calls@ == old(
                    workspace,
                ).calls@ && *final(shape_storage) == *old(shape_storage)
                    && *final(tape_storage) == *old(tape_storage),
                None => true,
            },
            (match old(self).next_of() {
                Some((t, _)) => t != *trace,
                None => true,
            }) ==> final(workspace).calls@ == old(workspace).calls@ + 1,
            (match old(self).next_of() {
                Some((t, _)) => t != *trace,
                None => true,
            }) ==> final(shape_storage)@ == pool_after_attempt(
                old(shape_storage)@,
                old(self).stale_child_stores(*trace),
                shrinks(old(self).expr_of(), *trace),
            ),
            (match old(self).next_of() {
                Some((t, _)) => t != *trace,
                None => true,
            }) ==> old(tape_storage)@.is_prefix_of(final(tape_storage)@)
                && final(tape_storage)@.len() <= old(tape_storage)@.len()
                + old(self).stale_child_tape_slots(*trace)
                && (forall|j: int|
                old(tape_storage)@.len() <= j < final(tape_storage)@.len() ==> old(
                    self,
                ).stale_child_has_tape(*trace, #[trigger] final(tape_storage)@[j])),
            (match old(self).next_of() {
                Some((t, _)) => t != *trace,
                None => true,
            }) && shrinks(old(self).expr_of(), *trace) ==> (*r).itape_expr() is None
                && (*r).ftape_expr() is None && (*r).gtape_expr() is None && (*r).next_of()
                is None,
            !shrinks(old(self).expr_of(), *trace) ==> (*r).itape_expr() == old(
                self,
            ).itape_expr() && (*r).ftape_expr() == old(self).ftape_expr() && (*r).gtape_expr()
                == old(self).gtape_expr() && (*r).next_of() is None,
            shrinks(old(self).expr_of(), *trace) ==> ((final(r).wf() && final(r).expr_of() == (
            *r).expr_of()) ==> (final(self).wf() && final(self).expr_of() == old(self).expr_of()
                && final(self).itape_expr() == old(self).itape_expr() && final(self).ftape_expr()
                == old(self).ftape_expr() && final(self).gtape_expr() == old(self).gtape_expr()
                && (final(self).next_of() matches Some((t2, c2)) && t2 == *trace && c2 == *final(
            r)))),
            !shrinks(old(self).expr_of(), *trace) ==> *final(self) == *final(r),
            (final(r).wf() && final(r).expr_of() == (*r).expr_of()) ==> (final(self).wf()
                && final(self).expr_of() == old(self).expr_of()),
    {
        let reuse = match &self.next {
            Some(b) => b.0 == *trace,
            None => false,
        };
        if !reuse {
            // Recycle a cached child built from a different trace.
            if let Some(b) = self.next.take() {
                let (_stale, child) = *b;
                child.recycle(shape_storage, tape_storage);
            }
            let store = match shape_storage.pop() {
                Some(s) => s,
                None => ShapeStorage { cap: 0 },
            };
            let next_shape = self.shape.simplify(trace, store, workspace);
            proof {
                lemma_simplify_size(self.shape@, *trace);
            }
            if next_shape.size() >= self.shape.size() {
                // The simplification did not shrink the shape: adopting it
                // would cost more tape rebuilding than it saves.
                if let Some(s) = next_shape.recycle() {
                    shape_storage.push(s);
                }
                return self;
            }
            let nt = trace.duplicate();
            let child = RenderHandle {
                shape: next_shape,
                i_tape: None,
                f_tape: None,
                g_tape: None,
                next: None,
            };
            let m = self.next.insert(Box::new((nt, child)));
            return &mut m.1;
        }
        let m = self.next.as_mut().unwrap();
        &mut m.1
    }

    /// Recycles the entire handle into the given storage pools: the child
    /// chain first (it may hold storage popped for this handle), then
    /// each uniquely held tape's buffer, then the shape's own storage.
    ///
    /// The shape pool receives exactly the chain's own storages, deepest
    /// child first and this handle's last, on top of its old contents.
    /// Whether a given tape buffer can be reclaimed depends on whether a
    /// clone still shares it, so the tape pool is only appended to: it
    /// keeps its old contents, grows by at most one buffer per built
    /// tape, and everything appended is one of the chain's own tape
    /// buffers — never a fabricated one.
    pub fn recycle(
        self,
        shape_storage: &mut Vec<ShapeStorage>,
        tape_storage: &mut Vec<TapeStorage>,
    )
        ensures
            final(shape_storage)@ == old(shape_storage)@ + self.chain_shape_stores(),
            final(shape_storage)@.len() == old(shape_storage)@.len() + self.chain_len(),
            old(tape_storage)@.is_prefix_of(final(tape_storage)@),
            final(tape_storage)@.len() <= old(tape_storage)@.len() + self.tape_slots(),
            forall|j: int|
                old(tape_storage)@.len() <= j < final(tape_storage)@.len()
                    ==> self.has_tape_store(#[trigger] final(tape_storage)@[j]),
        decreases self,
    {
        let ghost me = self;
        let RenderHandle { shape, i_tape, f_tape, g_tape, next } = self;
        if let Some(b) = next {
            let (_trace, child) = *b;
            child.recycle(shape_storage, tape_storage);
        }
        if let Some(t) = i_tape {
            if let Ok(t) = arc_try_unwrap(t) {
                tape_storage.push(t.recycle());
            }
        }
        if let Some(t) = g_tape {
            if let Ok(t) = arc_try_unwrap(t) {
                tape_storage.push(t.recycle());
            }
        }
        if let Some(t) = f_tape {
            if let Ok(t) = arc_try_unwrap(t) {
                tape_storage.push(t.recycle());
            }
        }
        if let Some(s) = shape.recycle() {
            shape_storage.push(s);
        }
        proof {
            assert(final(shape_storage)@ =~= old(shape_storage)@ + me.chain_shape_stores());
        }
    }
}

impl Clone for RenderHandle {
    /// Copies the shape and shares the tape references, dropping the
    /// child chain: cached simplifications are per-recursion-path state
    /// and are never shared between workers.
    fn clone(&self) -> (r: Self)
        ensures
            r.expr_of() == self.expr_of(),
            r.itape_expr() == self.itape_expr(),
            r.ftape_expr() == self.ftape_expr(),
            r.gtape_expr() == self.gtape_expr(),
            r.next_of() is None,
            self.wf() ==> r.wf(),
    {
        RenderHandle {
            shape: self.shape.clone(),
            i_tape: match &self.i_tape {
                Some(a) => Some(arc_clone(a)),
                None => None,
            },
            f_tape: match &self.f_tape {
                Some(a) => Some(arc_clone(a)),
                None => None,
            },
            g_tape: match &self.g_tape {
                Some(a) => Some(arc_clone(a)),
                None => None,
            },
            next: None,
        }
    }
}

} // verus!
