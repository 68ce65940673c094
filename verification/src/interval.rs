use vstd::prelude::*;

verus! {

/// Scalars are 64-bit integers with clamped (saturating) arithmetic: a
/// result outside the representable range is pinned to the nearest bound.
/// Clamping is monotone, so interval reasoning carries through it, and
/// shapes evaluated well inside the range behave as exact integers.
pub open spec fn clamp64(x: int) -> int {
    if x < i64::MIN as int {
        i64::MIN as int
    } else if x > i64::MAX as int {
        i64::MAX as int
    } else {
        x
    }
}

pub open spec fn iabs(a: int) -> int {
    if a < 0 {
        -a
    } else {
        a
    }
}

pub open spec fn imin(a: int, b: int) -> int {
    if a <= b {
        a
    } else {
        b
    }
}

pub open spec fn imax(a: int, b: int) -> int {
    if a <= b {
        b
    } else {
        a
    }
}

/// Narrows a wide intermediate to `i64`, clamping to the range bounds.
pub(crate) fn clamp_to_i64(v: i128) -> (r: i64)
    ensures
        r as int == clamp64(v as int),
{
    if v < i64::MIN as i128 {
        i64::MIN
    } else if v > i64::MAX as i128 {
        i64::MAX
    } else {
        v as i64
    }
}

/// Clamped addition.
pub fn sat_add(a: i64, b: i64) -> (r: i64)
    ensures
        r as int == clamp64(a as int + b as int),
{
    clamp_to_i64(a as i128 + b as i128)
}

/// Clamped subtraction.
pub fn sat_sub(a: i64, b: i64) -> (r: i64)
    ensures
        r as int == clamp64(a as int - b as int),
{
    clamp_to_i64(a as i128 - b as i128)
}

/// Clamped negation.
pub fn sat_neg(a: i64) -> (r: i64)
    ensures
        r as int == clamp64(-(a as int)),
{
    clamp_to_i64(-(a as i128))
}

/// Clamped multiplication.
pub fn sat_mul(a: i64, b: i64) -> (r: i64)
    ensures
        r as int == clamp64(a as int * b as int),
{
    proof {
        lemma_i64_product_fits(a as int, b as int);
    }
    clamp_to_i64((a as i128) * (b as i128))
}

/// Exact minimum.
pub fn min64(a: i64, b: i64) -> (r: i64)
    ensures
        r as int == imin(a as int, b as int),
{
    if a <= b {
        a
    } else {
        b
    }
}

/// Exact maximum.
pub fn max64(a: i64, b: i64) -> (r: i64)
    ensures
        r as int == imax(a as int, b as int),
{
    if a <= b {
        b
    } else {
        a
    }
}

/// The product of two `i64` values fits in `i128`.
proof fn lemma_i64_product_fits(a: int, b: int)
    requires
        i64::MIN as int <= a <= i64::MAX as int,
        i64::MIN as int <= b <= i64::MAX as int,
    ensures
        i128::MIN as int <= a * b <= i128::MAX as int,
{
    assert(i128::MIN as int <= a * b <= i128::MAX as int) by (nonlinear_arith)
        requires
            -0x8000_0000_0000_0000 <= a <= 0x7fff_ffff_ffff_ffff,
            -0x8000_0000_0000_0000 <= b <= 0x7fff_ffff_ffff_ffff,
    ;
}

/// For a fixed factor `a`, multiplication is monotone in the other factor,
/// with the direction set by the sign of `a`.
proof fn lemma_mul_mono(a: int, y: int, c: int, d: int)
    requires
        c <= y,
        y <= d,
    ensures
        a >= 0 ==> a * c <= a * y && a * y <= a * d,
        a < 0 ==> a * d <= a * y && a * y <= a * c,
{
    assert((a >= 0 ==> a * c <= a * y && a * y <= a * d) && (a < 0 ==> a * d <= a * y && a * y
        <= a * c)) by (nonlinear_arith)
        requires
            c <= y,
            y <= d,
    ;
}

/// A product of values drawn from a rectangle is bounded by the corner
/// products.
pub proof fn lemma_mul_in_box(x: int, a: int, b: int, y: int, c: int, d: int)
    requires
        a <= x,
        x <= b,
        c <= y,
        y <= d,
    ensures
        imin(imin(a * c, a * d), imin(b * c, b * d)) <= x * y,
        x * y <= imax(imax(a * c, a * d), imax(b * c, b * d)),
{
    lemma_mul_mono(y, x, a, b);
    lemma_mul_mono(a, y, c, d);
    lemma_mul_mono(b, y, c, d);
}

/// A closed interval of clamped scalars; `lo <= hi` for a well-formed one.
#[derive(Debug, Clone, Copy, PartialEq, Eq, Structural)]
pub struct Interval {
    pub lo: i64,
    pub hi: i64,
}

/// A clamped value, narrowed back to the scalar type.
pub open spec fn to64(x: int) -> i64 {
    clamp64(x) as i64
}

/// What interval addition returns.
pub open spec fn add_spec(a: Interval, o: Interval) -> Interval {
    Interval { lo: to64(a.lo + o.lo), hi: to64(a.hi + o.hi) }
}

/// What interval subtraction returns.
pub open spec fn sub_spec(a: Interval, o: Interval) -> Interval {
    Interval { lo: to64(a.lo - o.hi), hi: to64(a.hi - o.lo) }
}

/// What interval negation returns.
pub open spec fn neg_spec(a: Interval) -> Interval {
    Interval { lo: to64(-(a.hi as int)), hi: to64(-(a.lo as int)) }
}

/// What interval multiplication returns: the extreme corner products.
pub open spec fn mul_spec(a: Interval, o: Interval) -> Interval {
    let p1 = a.lo as int * o.lo as int;
    let p2 = a.lo as int * o.hi as int;
    let p3 = a.hi as int * o.lo as int;
    let p4 = a.hi as int * o.hi as int;
    Interval { lo: to64(imin(imin(p1, p2), imin(p3, p4))), hi: to64(imax(imax(p1, p2), imax(p3, p4))) }
}

/// What the interval minimum returns.
pub open spec fn min_spec(a: Interval, o: Interval) -> Interval {
    Interval {
        lo: if a.lo <= o.lo {
            a.lo
        } else {
            o.lo
        },
        hi: if a.hi <= o.hi {
            a.hi
        } else {
            o.hi
        },
    }
}

/// What the interval maximum returns.
pub open spec fn max_spec(a: Interval, o: Interval) -> Interval {
    Interval {
        lo: if a.lo <= o.lo {
            o.lo
        } else {
            a.lo
        },
        hi: if a.hi <= o.hi {
            o.hi
        } else {
            a.hi
        },
    }
}

impl Interval {
    pub open spec fn wf(self) -> bool {
        self.lo <= self.hi
    }

    pub open spec fn holds(self, v: int) -> bool {
        self.lo as int <= v <= self.hi as int
    }

    /// The interval that holds a single value.
    pub fn point(v: i64) -> (r: Interval)
        ensures
            r.wf(),
            r.lo == v && r.hi == v,
    {
        Interval { lo: v, hi: v }
    }

    /// The interval from `lo` to `hi`.
    pub fn make(lo: i64, hi: i64) -> (r: Interval)
        requires
            lo <= hi,
        ensures
            r.wf(),
            r.lo == lo && r.hi == hi,
    {
        Interval { lo, hi }
    }

    /// Interval addition: sound for clamped scalar addition.
    pub fn add(self, o: Interval) -> (r: Interval)
        requires
            self.wf(),
            o.wf(),
        ensures
            r == add_spec(self, o),
            r.wf(),
            forall|x: int, y: int|
                self.holds(x) && o.holds(y) ==> r.holds(#[trigger] clamp64(x + y)),
    {
        Interval { lo: sat_add(self.lo, o.lo), hi: sat_add(self.hi, o.hi) }
    }

    /// Interval subtraction: sound for clamped scalar subtraction.
    pub fn sub(self, o: Interval) -> (r: Interval)
        requires
            self.wf(),
            o.wf(),
        ensures
            r == sub_spec(self, o),
            r.wf(),
            forall|x: int, y: int|
                self.holds(x) && o.holds(y) ==> r.holds(#[trigger] clamp64(x - y)),
    {
        Interval { lo: sat_sub(self.lo, o.hi), hi: sat_sub(self.hi, o.lo) }
    }

    /// Interval negation: sound for clamped scalar negation.
    pub fn neg(self) -> (r: Interval)
        requires
            self.wf(),
        ensures
            r == neg_spec(self),
            r.wf(),
            forall|x: int| self.holds(x) ==> r.holds(#[trigger] clamp64(-x)),
    {
        Interval { lo: sat_neg(self.hi), hi: sat_neg(self.lo) }
    }

    /// Interval multiplication: sound for clamped scalar multiplication.
    /// The bounds are the extreme corner products of the two intervals.
    pub fn mul(self, o: Interval) -> (r: Interval)
        requires
            self.wf(),
            o.wf(),
        ensures
            r == mul_spec(self, o),
            r.wf(),
            forall|x: int, y: int|
                self.holds(x) && o.holds(y) ==> r.holds(#[trigger] clamp64(x * y)),
    {
        proof {
            lemma_i64_product_fits(self.lo as int, o.lo as int);
            lemma_i64_product_fits(self.lo as int, o.hi as int);
            lemma_i64_product_fits(self.hi as int, o.lo as int);
            lemma_i64_product_fits(self.hi as int, o.hi as int);
        }
        let p1: i128 = (self.lo as i128) * (o.lo as i128);
        let p2: i128 = (self.lo as i128) * (o.hi as i128);
        let p3: i128 = (self.hi as i128) * (o.lo as i128);
        let p4: i128 = (self.hi as i128) * (o.hi as i128);
        let lo128: i128 = min128(min128(p1, p2), min128(p3, p4));
        let hi128: i128 = max128(max128(p1, p2), max128(p3, p4));
        let r = Interval { lo: clamp_to_i64(lo128), hi: clamp_to_i64(hi128) };
        proof {
            assert forall|x: int, y: int| self.holds(x) && o.holds(y) implies r.holds(
                #[trigger] clamp64(x * y),
            ) by {
                lemma_mul_in_box(x, self.lo as int, self.hi as int, y, o.lo as int, o.hi as int);
            }
        }
        r
    }

    /// Interval minimum: sound for the exact scalar minimum.
    pub fn min_i(self, o: Interval) -> (r: Interval)
        requires
            self.wf(),
            o.wf(),
        ensures
            r == min_spec(self, o),
            r.wf(),
            r.lo as int == imin(self.lo as int, o.lo as int),
            r.hi as int == imin(self.hi as int, o.hi as int),
            forall|x: int, y: int| self.holds(x) && o.holds(y) ==> r.holds(#[trigger] imin(x, y)),
    {
        Interval { lo: min64(self.lo, o.lo), hi: min64(self.hi, o.hi) }
    }

    /// Interval maximum: sound for the exact scalar maximum.
    pub fn max_i(self, o: Interval) -> (r: Interval)
        requires
            self.wf(),
            o.wf(),
        ensures
            r == max_spec(self, o),
            r.wf(),
            r.lo as int == imax(self.lo as int, o.lo as int),
            r.hi as int == imax(self.hi as int, o.hi as int),
            forall|x: int, y: int| self.holds(x) && o.holds(y) ==> r.holds(#[trigger] imax(x, y)),
    {
        Interval { lo: max64(self.lo, o.lo), hi: max64(self.hi, o.hi) }
    }
}

fn min128(a: i128, b: i128) -> (r: i128)
    ensures
        r as int == imin(a as int, b as int),
{
    if a <= b {
        a
    } else {
        b
    }
}

fn max128(a: i128, b: i128) -> (r: i128)
    ensures
        r as int == imax(a as int, b as int),
{
    if a <= b {
        b
    } else {
        a
    }
}

} // verus!
