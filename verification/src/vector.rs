use vstd::prelude::*;

verus! {

/// A pair of coordinates: a point, an offset or a size on the canvas.
#[derive(Debug, PartialEq, Eq, PartialOrd, Ord, Default, Clone, Copy, Hash)]
pub struct Vector2<T>(pub T, pub T);

impl<T: Copy> Vector2<T> {
    pub fn new(x: T, y: T) -> (v: Self)
        ensures
            v.0 == x,
            v.1 == y,
    {
        Vector2(x, y)
    }

    pub fn x(&self) -> (x: T)
        ensures
            x == self.0,
    {
        self.0
    }

    pub fn y(&self) -> (y: T)
        ensures
            y == self.1,
    {
        self.1
    }
}

/// Both coordinates lie in the range of `i32`.
pub open spec fn fits_i32(x: int, y: int) -> bool {
    i32::MIN <= x <= i32::MAX && i32::MIN <= y <= i32::MAX
}

/// Rust's truncating integer division (rounds toward zero).
pub open spec fn trunc_div(a: int, b: int) -> int
    recommends
        b != 0,
{
    let q = (if a >= 0 { a } else { -a }) / (if b > 0 { b } else { -b });
    if (a >= 0) == (b > 0) {
        q
    } else {
        -q
    }
}

proof fn lemma_quotient_bounds(a: int, b: int)
    requires
        a >= 0,
        b >= 1,
    ensures
        0 <= a / b <= a,
{
    assert(0 <= a / b <= a) by (nonlinear_arith)
        requires
            a >= 0,
            b >= 1,
    ;
}

/// `a / b` on `i32` as Rust computes it; the divisor is not zero and the
/// quotient fits (`i32::MIN / -1` does not).
pub fn i32_div(a: i32, b: i32) -> (q: i32)
    requires
        b != 0,
        !(a == i32::MIN && b == -1),
    ensures
        q == trunc_div(a as int, b as int),
{
    let wa = a as i64;
    let wb = b as i64;
    let na: i64 = if wa >= 0 {
        wa
    } else {
        -wa
    };
    let nb: i64 = if wb > 0 {
        wb
    } else {
        -wb
    };
    proof {
        lemma_quotient_bounds(na as int, nb as int);
        if nb == 1 {
            assert(na / nb == na) by (nonlinear_arith)
                requires
                    nb == 1,
            ;
        } else {
            assert(na / nb <= na / 2) by (nonlinear_arith)
                requires
                    nb >= 2,
                    na >= 0,
            ;
        }
    }
    let m = na / nb;
    let q: i64 = if (wa >= 0) == (wb > 0) {
        m
    } else {
        -m
    };
    q as i32
}

impl Vector2<i32> {
    /// Component-wise sum.
    pub fn plus(self, rhs: Self) -> (v: Self)
        requires
            fits_i32(self.0 + rhs.0, self.1 + rhs.1),
        ensures
            v.0 == self.0 + rhs.0,
            v.1 == self.1 + rhs.1,
    {
        Vector2(self.0 + rhs.0, self.1 + rhs.1)
    }

    /// Component-wise difference.
    pub fn minus(self, rhs: Self) -> (v: Self)
        requires
            fits_i32(self.0 - rhs.0, self.1 - rhs.1),
        ensures
            v.0 == self.0 - rhs.0,
            v.1 == self.1 - rhs.1,
    {
        Vector2(self.0 - rhs.0, self.1 - rhs.1)
    }

    /// Component-wise product.
    pub fn times(self, rhs: Self) -> (v: Self)
        requires
            fits_i32(self.0 * rhs.0, self.1 * rhs.1),
        ensures
            v.0 == self.0 * rhs.0,
            v.1 == self.1 * rhs.1,
    {
        Vector2(self.0 * rhs.0, self.1 * rhs.1)
    }

    /// Component-wise truncating quotient; no divisor is zero and no
    /// quotient overflows.
    pub fn divided_by(self, rhs: Self) -> (v: Self)
        requires
            rhs.0 != 0,
            rhs.1 != 0,
            !(self.0 == i32::MIN && rhs.0 == -1),
            !(self.1 == i32::MIN && rhs.1 == -1),
        ensures
            v.0 == trunc_div(self.0 as int, rhs.0 as int),
            v.1 == trunc_div(self.1 as int, rhs.1 as int),
    {
        Vector2(i32_div(self.0, rhs.0), i32_div(self.1, rhs.1))
    }
}

impl<T: Copy> From<(T, T)> for Vector2<T> {
    fn from(value: (T, T)) -> (v: Self) {
        Vector2(value.0, value.1)
    }
}

impl<T: Copy> vstd::std_specs::convert::FromSpecImpl<(T, T)> for Vector2<T> {
    open spec fn obeys_from_spec() -> bool {
        true
    }

    open spec fn from_spec(v: (T, T)) -> Self {
        Vector2(v.0, v.1)
    }
}

} // verus!
