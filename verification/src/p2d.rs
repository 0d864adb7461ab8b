//! The two-dimensional grid vector: the concrete position and force type of
//! the layout engine.

use vstd::prelude::*;

use crate::vector::{clamped, div_trunc, mul_div};

verus! {

/// A point, displacement or force accumulator on the integer grid.
///
/// Coordinates are exact integers; a caller working in real coordinates maps
/// them onto the grid at a resolution of its choice before laying out.
#[derive(Clone, Copy, Debug, PartialEq, Eq, Structural)]
pub struct P2d(pub i64, pub i64);

impl P2d {
    /// The zero vector.
    pub fn new() -> (r: P2d)
        ensures
            r == (P2d(0, 0)),
    {
        P2d(0, 0)
    }

    /// The squared Euclidean length, exact: no square root is taken until a
    /// magnitude is really needed.
    pub fn length_squared(&self) -> (r: u128)
        ensures
            r == self.0 * self.0 + self.1 * self.1,
    {
        let x = self.0 as i128;
        let y = self.1 as i128;
        proof {
            assert(x * x >= 0 && x * x <= 0x8000_0000_0000_0000i128 * 0x8000_0000_0000_0000i128)
                by (nonlinear_arith)
                requires
                    -0x8000_0000_0000_0000i128 <= x <= 0x8000_0000_0000_0000i128,
            ;
            assert(y * y >= 0 && y * y <= 0x8000_0000_0000_0000i128 * 0x8000_0000_0000_0000i128)
                by (nonlinear_arith)
                requires
                    -0x8000_0000_0000_0000i128 <= y <= 0x8000_0000_0000_0000i128,
            ;
        }
        (x * x) as u128 + (y * y) as u128
    }

    /// Sets both coordinates back to zero in place.
    pub fn reset(&mut self)
        ensures
            *final(self) == (P2d(0, 0)),
    {
        self.0 = 0;
        self.1 = 0;
    }

    /// `self - other`, the direction vector the force model starts from.
    pub fn sub(&self, other: &P2d) -> (r: P2d)
        requires
            i64::MIN <= self.0 - other.0 <= i64::MAX,
            i64::MIN <= self.1 - other.1 <= i64::MAX,
        ensures
            r.0 == self.0 - other.0,
            r.1 == self.1 - other.1,
    {
        P2d(self.0 - other.0, self.1 - other.1)
    }

    /// Both coordinates scaled by the ratio `num / den`, rounded toward zero.
    pub fn scale(&self, num: i64, den: u128) -> (r: P2d)
        requires
            den >= 1,
            -(i64::MAX as int) <= div_trunc(self.0 * num, den as int) <= i64::MAX as int,
            -(i64::MAX as int) <= div_trunc(self.1 * num, den as int) <= i64::MAX as int,
        ensures
            r.0 == div_trunc(self.0 * num, den as int),
            r.1 == div_trunc(self.1 * num, den as int),
    {
        P2d(mul_div(self.0, num, den), mul_div(self.1, num, den))
    }

    /// In-place `self += other * num / den`, the accumulation primitive of
    /// the force passes and of position integration.
    pub fn add_scaled(&mut self, num: i64, den: u128, other: &P2d)
        requires
            den >= 1,
            -(i64::MAX as int) <= div_trunc(other.0 * num, den as int) <= i64::MAX as int,
            -(i64::MAX as int) <= div_trunc(other.1 * num, den as int) <= i64::MAX as int,
            i64::MIN <= old(self).0 + div_trunc(other.0 * num, den as int) <= i64::MAX,
            i64::MIN <= old(self).1 + div_trunc(other.1 * num, den as int) <= i64::MAX,
        ensures
            final(self).0 == old(self).0 + div_trunc(other.0 * num, den as int),
            final(self).1 == old(self).1 + div_trunc(other.1 * num, den as int),
    {
        let d0 = mul_div(other.0, num, den);
        let d1 = mul_div(other.1, num, den);
        self.0 = self.0 + d0;
        self.1 = self.1 + d1;
    }

    /// Each coordinate clamped independently into the bounding box
    /// `[min.coord, max.coord]`.
    pub fn clip_within(&self, min: &P2d, max: &P2d) -> (r: P2d)
        requires
            min.0 <= max.0,
            min.1 <= max.1,
        ensures
            r.0 == clamped(self.0 as int, min.0 as int, max.0 as int),
            r.1 == clamped(self.1 as int, min.1 as int, max.1 as int),
    {
        P2d(
            if self.0 < min.0 {
                min.0
            } else if self.0 > max.0 {
                max.0
            } else {
                self.0
            },
            if self.1 < min.1 {
                min.1
            } else if self.1 > max.1 {
                max.1
            } else {
                self.1
            },
        )
    }
}

impl crate::vector::Vector for P2d {
    /// The mathematical value of a grid point: its two coordinates.
    open spec fn coords(&self) -> Seq<int> {
        seq![self.0 as int, self.1 as int]
    }

    fn new() -> (r: P2d) {
        P2d::new()
    }

    fn length_squared(&self) -> (r: u128) {
        proof {
            lemma_p2d_sum_sq(*self);
        }
        P2d::length_squared(self)
    }

    fn sub(&self, other: &P2d) -> (r: P2d) {
        proof {
            let c = crate::vector::Vector::coords(self);
            let d = crate::vector::Vector::coords(other);
            assert(i64::MIN <= c[0] - d[0] <= i64::MAX && i64::MIN <= c[1] - d[1] <= i64::MAX);
        }
        P2d::sub(self, other)
    }

    fn scale(&self, num: i64, den: u128) -> (r: P2d) {
        proof {
            let c = crate::vector::Vector::coords(self);
            assert(-(i64::MAX as int) <= div_trunc(c[0] * num, den as int) <= i64::MAX as int
                && -(i64::MAX as int) <= div_trunc(c[1] * num, den as int) <= i64::MAX as int);
        }
        P2d::scale(self, num, den)
    }

    fn add_scaled(&mut self, num: i64, den: u128, other: &P2d) {
        proof {
            let c = crate::vector::Vector::coords(self);
            let d = crate::vector::Vector::coords(other);
            assert(-(i64::MAX as int) <= div_trunc(d[0] * num, den as int) <= i64::MAX as int
                && -(i64::MAX as int) <= div_trunc(d[1] * num, den as int) <= i64::MAX as int);
            assert(i64::MIN <= c[0] + div_trunc(d[0] * num, den as int) <= i64::MAX && i64::MIN
                <= c[1] + div_trunc(d[1] * num, den as int) <= i64::MAX);
        }
        P2d::add_scaled(self, num, den, other);
    }

    fn reset(&mut self) {
        P2d::reset(self);
    }

    fn clip_within(&self, min: &P2d, max: &P2d) -> (r: P2d) {
        proof {
            let lo = crate::vector::Vector::coords(min);
            let hi = crate::vector::Vector::coords(max);
            assert(lo[0] <= hi[0] && lo[1] <= hi[1]);
        }
        P2d::clip_within(self, min, max)
    }
}

/// The squared-coordinate sum of a grid point is exactly its squared
/// length.
pub proof fn lemma_p2d_sum_sq(p: P2d)
    ensures
        crate::vector::sum_sq(crate::vector::Vector::coords(&p)) == p.0 * p.0 + p.1 * p.1,
{
    let s = crate::vector::Vector::coords(&p);
    assert(s.drop_last() =~= seq![p.0 as int]);
    assert(s.drop_last().drop_last() =~= Seq::<int>::empty());
    assert(crate::vector::sum_sq(s.drop_last().drop_last()) == 0);
    assert(crate::vector::sum_sq(s.drop_last()) == p.0 * p.0);
}

} // verus!
