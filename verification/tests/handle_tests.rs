use tile_render::handle::{RenderHandle, Shape, ShapeStorage, TapeStorage, Workspace};
use tile_render::interval::Interval;
use tile_render::shape::{Aabb, Expr};

fn x() -> Expr {
    Expr::X
}

fn y() -> Expr {
    Expr::Y
}

fn min_xy() -> Expr {
    Expr::Min(Box::new(x()), Box::new(y()))
}

fn box2(xlo: i64, xhi: i64, ylo: i64, yhi: i64) -> Aabb {
    Aabb {
        x: Interval::make(xlo, xhi),
        y: Interval::make(ylo, yhi),
        z: Interval::point(0),
    }
}

#[test]
fn interval_eval_classifies_boxes() {
    // x^2 + y^2 - 100 over boxes clearly inside and clearly outside.
    let disk = Expr::Sub(
        Box::new(Expr::Add(
            Box::new(Expr::Mul(Box::new(x()), Box::new(x()))),
            Box::new(Expr::Mul(Box::new(y()), Box::new(y()))),
        )),
        Box::new(Expr::Const(100)),
    );
    let shape = Shape::new(disk);
    let mut handle = RenderHandle::new(shape);
    let mut tp: Vec<TapeStorage> = Vec::new();

    let (inside, _) = handle.i_tape(&mut tp).eval_interval(&box2(-2, 2, -2, 2));
    assert!(inside.hi <= 0);

    let (outside, _) = handle.i_tape(&mut tp).eval_interval(&box2(20, 30, 20, 30));
    assert!(outside.lo > 0);

    let (ambiguous, _) = handle.i_tape(&mut tp).eval_interval(&box2(-20, 20, -20, 20));
    assert!(ambiguous.lo <= 0 && ambiguous.hi > 0);
}

#[test]
fn interval_soundness_on_sampled_grid() {
    // Wherever the interval test says "inside", every sampled value in
    // the box is non-positive; for "outside", every value is positive.
    let disk = Expr::Sub(
        Box::new(Expr::Add(
            Box::new(Expr::Mul(Box::new(x()), Box::new(x()))),
            Box::new(Expr::Mul(Box::new(y()), Box::new(y()))),
        )),
        Box::new(Expr::Const(100)),
    );
    let shape = Shape::new(disk);
    let mut handle = RenderHandle::new(shape);
    let mut tp: Vec<TapeStorage> = Vec::new();

    for &(xlo, xhi, ylo, yhi) in
        &[(-2i64, 2i64, -2i64, 2i64), (8, 12, 8, 12), (-30, -20, 5, 9), (0, 7, 0, 7)]
    {
        let bx = box2(xlo, xhi, ylo, yhi);
        let (iv, _) = handle.i_tape(&mut tp).eval_interval(&bx);
        for px in xlo..=xhi {
            for py in ylo..=yhi {
                let f = handle.i_tape(&mut tp).eval_point(px, py, 0);
                assert!(iv.lo <= f && f <= iv.hi);
                if iv.hi <= 0 {
                    assert!(f <= 0);
                }
                if iv.lo > 0 {
                    assert!(f > 0);
                }
            }
        }
    }
}

#[test]
fn simplify_adopts_smaller_shape_and_reuses_cache() {
    // Over x in [-10,-5], y in [5,10] the interval test decides the min:
    // the simplified shape drops the losing branch.
    let shape = Shape::new(min_xy());
    assert_eq!(shape.size(), 3);
    let mut handle = RenderHandle::new(shape);
    let mut ws = Workspace::new();
    let mut sp: Vec<ShapeStorage> = vec![ShapeStorage::default(), ShapeStorage::default()];
    let mut tp: Vec<TapeStorage> = Vec::new();

    let bx = box2(-10, -5, 5, 10);
    let (iv, trace) = handle.i_tape(&mut tp).eval_interval(&bx);
    assert!(iv.hi <= 0);
    assert!(trace.has_decision());

    // First call consumes one pooled shape storage for the new child.
    let sub = handle.simplify(&trace, &mut ws, &mut sp, &mut tp);
    let _ = sub;
    assert_eq!(sp.len(), 1);

    // Same trace again: the cached child is reused, the pool untouched.
    let sub2 = handle.simplify(&trace, &mut ws, &mut sp, &mut tp);
    let _ = sub2;
    assert_eq!(sp.len(), 1);
}

#[test]
fn simplify_rejects_non_shrinking_result() {
    // An ambiguous box decides nothing; the candidate is no smaller, so
    // its storage goes straight back to the pool.
    let shape = Shape::new(min_xy());
    let mut handle = RenderHandle::new(shape);
    let mut ws = Workspace::new();
    let mut sp: Vec<ShapeStorage> = vec![ShapeStorage::default()];
    let mut tp: Vec<TapeStorage> = Vec::new();

    let bx = box2(-10, 10, -10, 10);
    let (_, trace) = handle.i_tape(&mut tp).eval_interval(&bx);
    assert!(!trace.has_decision());

    let sub = handle.simplify(&trace, &mut ws, &mut sp, &mut tp);
    let _ = sub;
    assert_eq!(sp.len(), 1);
}

#[test]
fn recycle_returns_all_storages_to_the_pools() {
    // Conservation: one shape storage per handle in the chain, and each
    // uniquely held tape buffer, all end up in the pools.
    let shape = Shape::new(min_xy());
    let mut handle = RenderHandle::new(shape);
    let mut ws = Workspace::new();
    let mut sp: Vec<ShapeStorage> = Vec::new();
    let mut tp: Vec<TapeStorage> = Vec::new();

    let bx = box2(-10, -5, 5, 10);
    let (_, trace) = handle.i_tape(&mut tp).eval_interval(&bx);
    {
        let sub = handle.simplify(&trace, &mut ws, &mut sp, &mut tp);
        let _ = sub.f_tape(&mut tp);
    }
    // Chain: root handle (i tape built) + one child (f tape built).
    handle.recycle(&mut sp, &mut tp);
    assert_eq!(sp.len(), 2);
    assert_eq!(tp.len(), 2);
}

#[test]
fn clone_shares_tapes_and_drops_the_chain() {
    let shape = Shape::new(min_xy());
    let mut handle = RenderHandle::new(shape);
    let mut ws = Workspace::new();
    let mut sp: Vec<ShapeStorage> = Vec::new();
    let mut tp: Vec<TapeStorage> = Vec::new();

    let bx = box2(-10, -5, 5, 10);
    let (_, trace) = handle.i_tape(&mut tp).eval_interval(&bx);
    let _ = handle.simplify(&trace, &mut ws, &mut sp, &mut tp);

    let clone = handle.clone();
    // The clone has no chain, so recycling it frees only its own shape
    // storage; the shared interval tape is not uniquely held.
    clone.recycle(&mut sp, &mut tp);
    assert_eq!(sp.len(), 1);
    assert_eq!(tp.len(), 0);

    // The original still owns the chain and, after the clone is gone,
    // holds its interval tape uniquely again.
    handle.recycle(&mut sp, &mut tp);
    assert_eq!(sp.len(), 3);
    assert_eq!(tp.len(), 1);
}

#[test]
fn eval_point_matches_formula() {
    let disk = Expr::Sub(
        Box::new(Expr::Add(
            Box::new(Expr::Mul(Box::new(x()), Box::new(x()))),
            Box::new(Expr::Mul(Box::new(y()), Box::new(y()))),
        )),
        Box::new(Expr::Const(100)),
    );
    let shape = Shape::new(disk);
    let tape = shape.float_slice_tape(TapeStorage::default());
    for px in -12i64..=12 {
        for py in -12i64..=12 {
            assert_eq!(tape.eval_point(px, py, 0), px * px + py * py - 100);
        }
    }
    let fs = tape.eval_float_slice(&vec![0, 3, 10], &vec![0, 4, 0], &vec![0, 0, 0]);
    assert_eq!(fs, vec![-100, -75, 0]);
}

#[test]
fn traces_compare_structurally() {
    let shape = Shape::new(min_xy());
    let mut handle = RenderHandle::new(shape);
    let mut tp: Vec<TapeStorage> = Vec::new();

    let (_, t1) = handle.i_tape(&mut tp).eval_interval(&box2(-10, -5, 5, 10));
    let (_, t2) = handle.i_tape(&mut tp).eval_interval(&box2(-9, -6, 6, 9));
    let (_, t3) = handle.i_tape(&mut tp).eval_interval(&box2(5, 10, -10, -5));
    // Same decision, equal traces; the opposite decision differs.
    assert!(t1 == t2);
    assert!(t1 != t3);
    assert!(t1 == t1.duplicate());
    let mut t4 = t3.duplicate();
    t4.copy_from(&t1);
    assert!(t4 == t1);
}
