//! Scalar arithmetic of the integer grid, and the capability interface that
//! a position vector offers to the layout engine.

use vstd::prelude::*;

verus! {

/// Quotient of `a / d` rounded toward zero, the rounding used by every
/// ratio-scaling step of the engine.  It is odd in `a`, which is what makes
/// the force model exactly antisymmetric.
pub open spec fn div_trunc(a: int, d: int) -> int
    recommends
        d >= 1,
{
    if a >= 0 {
        a / d
    } else {
        -((-a) / d)
    }
}

/// `v` clamped into the closed interval `[lo, hi]`.
pub open spec fn clamped(v: int, lo: int, hi: int) -> int {
    if v < lo {
        lo
    } else if v > hi {
        hi
    } else {
        v
    }
}

/// The integer square root, rounded down.
pub open spec fn sqrt_floor(n: nat) -> nat
    decreases n,
{
    if n == 0 {
        0
    } else {
        let r = sqrt_floor((n - 1) as nat);
        if (r + 1) * (r + 1) <= n {
            r + 1
        } else {
            r
        }
    }
}

/// `sqrt_floor(n)` is the unique `r` with `r * r <= n < (r + 1) * (r + 1)`.
pub proof fn lemma_sqrt_floor(n: nat)
    ensures
        sqrt_floor(n) * sqrt_floor(n) <= n,
        n < (sqrt_floor(n) + 1) * (sqrt_floor(n) + 1),
    decreases n,
{
    if n == 0 {
        let s = sqrt_floor(n);
        assert(s == 0);
        assert((s + 1) * (s + 1) == 1) by (nonlinear_arith)
            requires
                s == 0,
        ;
    } else {
        lemma_sqrt_floor((n - 1) as nat);
        let r = sqrt_floor((n - 1) as nat);
        if (r + 1) * (r + 1) <= n {
            assert(sqrt_floor(n) == r + 1);
            assert(n <= (r + 1) * (r + 1));
            assert(n < ((r + 1) + 1) * ((r + 1) + 1)) by (nonlinear_arith)
                requires
                    n <= (r + 1) * (r + 1),
                    r >= 0,
            ;
            assert(n < (sqrt_floor(n) + 1) * (sqrt_floor(n) + 1));
        } else {
            assert(sqrt_floor(n) == r);
            assert(n < (sqrt_floor(n) + 1) * (sqrt_floor(n) + 1));
        }
    }
}

pub proof fn lemma_sqrt_floor_unique(n: nat, r: nat)
    requires
        r * r <= n,
        n < (r + 1) * (r + 1),
    ensures
        r == sqrt_floor(n),
{
    lemma_sqrt_floor(n);
    let s = sqrt_floor(n);
    if r < s {
        assert((r + 1) * (r + 1) <= s * s) by (nonlinear_arith)
            requires
                r + 1 <= s,
                r >= 0,
        ;
    }
    if s < r {
        assert((s + 1) * (s + 1) <= r * r) by (nonlinear_arith)
            requires
                s + 1 <= r,
                s >= 0,
        ;
    }
}

/// Rounding toward zero is odd: negating the dividend negates the quotient.
pub proof fn lemma_div_trunc_odd(a: int, d: int)
    requires
        d >= 1,
    ensures
        div_trunc(-a, d) == -div_trunc(a, d),
{
    if a == 0 {
        assert(0int / d == 0) by (nonlinear_arith)
            requires
                d >= 1,
        ;
    }
}

/// A quotient rounded toward zero is no larger in magnitude than the exact one.
pub proof fn lemma_div_trunc_le_cap(x: int, den: int, cap: int)
    requires
        den >= 1,
        -cap <= x <= cap,
    ensures
        -(cap / den) <= div_trunc(x, den) <= cap / den,
{
    vstd::arithmetic::div_mod::lemma_div_pos_is_pos(cap, den);
    if x >= 0 {
        vstd::arithmetic::div_mod::lemma_div_is_ordered(x, cap, den);
    } else {
        vstd::arithmetic::div_mod::lemma_div_is_ordered(-x, cap, den);
    }
}

/// Scaling a value of magnitude at most `den` by `num / den` yields at most `num`.
pub proof fn lemma_ratio_bound(a: int, num: int, den: int)
    requires
        den >= 1,
        num >= 0,
        -den <= a <= den,
    ensures
        -num <= div_trunc(a * num, den) <= num,
{
    assert(-(den * num) <= a * num <= den * num) by (nonlinear_arith)
        requires
            den >= 1,
            num >= 0,
            -den <= a <= den,
    ;
    lemma_div_trunc_le_cap(a * num, den, den * num);
    vstd::arithmetic::div_mod::lemma_div_multiples_vanish(num, den);
}

/// Exact signed ratio scaling: `a * num / den`, rounded toward zero.
pub fn mul_div(a: i64, num: i64, den: u128) -> (r: i64)
    requires
        den >= 1,
        -(i64::MAX as int) <= div_trunc(a * num, den as int) <= i64::MAX as int,
    ensures
        r as int == div_trunc(a * num, den as int),
{
    let a_mag: u128 = if a >= 0 {
        a as u128
    } else {
        (-(a as i128)) as u128
    };
    let n_mag: u128 = if num >= 0 {
        num as u128
    } else {
        (-(num as i128)) as u128
    };
    proof {
        assert(a_mag * n_mag <= 0x8000_0000_0000_0000u128 * 0x8000_0000_0000_0000u128)
            by (nonlinear_arith)
            requires
                a_mag <= 0x8000_0000_0000_0000u128,
                n_mag <= 0x8000_0000_0000_0000u128,
        ;
    }
    let prod: u128 = a_mag * n_mag;
    let q: u128 = prod / den;
    if (a >= 0) == (num >= 0) {
        proof {
            assert(a_mag * n_mag == a * num) by (nonlinear_arith)
                requires
                    (a >= 0 && num >= 0 && a_mag == a && n_mag == num) || (a < 0 && num < 0
                        && a_mag == -(a as int) && n_mag == -(num as int)),
            ;
            assert(q == div_trunc(a * num, den as int));
        }
        q as i64
    } else {
        proof {
            assert(a_mag * n_mag == -(a * num)) by (nonlinear_arith)
                requires
                    (a >= 0 && num < 0 && a_mag == a && n_mag == -(num as int)) || (a < 0 && num
                        >= 0 && a_mag == -(a as int) && n_mag == num),
            ;
            assert(-(q as int) == div_trunc(a * num, den as int));
        }
        -(q as i64)
    }
}

/// The integer square root of `n`, rounded down; used for vector lengths.
pub fn int_sqrt(n: u128) -> (r: u64)
    ensures
        r * r <= n < (r + 1) * (r + 1),
        r == sqrt_floor(n as nat),
{
    let mut lo: u128 = 0;
    let mut hi: u128 = 0x1_0000_0000_0000_0000;
    proof {
        assert(n < 0x1_0000_0000_0000_0000u128 * 0x1_0000_0000_0000_0000u128);
    }
    while hi - lo > 1
        invariant
            lo < hi <= 0x1_0000_0000_0000_0000,
            lo * lo <= n,
            n < hi * hi,
        decreases hi - lo,
    {
        let mid: u128 = lo + (hi - lo) / 2;
        proof {
            assert(mid * mid <= 0xffff_ffff_ffff_ffffu128 * 0xffff_ffff_ffff_ffffu128)
                by (nonlinear_arith)
                requires
                    mid <= 0xffff_ffff_ffff_ffffu128,
            ;
        }
        let sq: u128 = mid * mid;
        if sq <= n {
            lo = mid;
        } else {
            hi = mid;
        }
    }
    proof {
        lemma_sqrt_floor_unique(n as nat, lo as nat);
    }
    lo as u64
}

/// The sum of the squared entries of a coordinate sequence.
pub open spec fn sum_sq(s: Seq<int>) -> int
    decreases s.len(),
{
    if s.len() == 0 {
        0
    } else {
        sum_sq(s.drop_last()) + s.last() * s.last()
    }
}

/// The capability set a position vector offers the layout engine,
/// polymorphic over dimensionality: zero construction, squared length,
/// subtraction, ratio scaling, scaled accumulation, reset and clamping.
///
/// A vector's mathematical value is its `coords` sequence of integers.
/// Scalars are grid integers, so every scaling factor is an exact ratio
/// `num / den`, rounded toward zero; this keeps each operation's result
/// pinned exactly, with no rounding left unspecified.
pub trait Vector: Sized {
    /// The coordinates, as mathematical integers.
    spec fn coords(&self) -> Seq<int>;

    /// The zero vector.
    fn new() -> (r: Self)
        ensures
            forall|k: int| 0 <= k < r.coords().len() ==> r.coords()[k] == 0,
    ;

    /// The sum of the squared coordinates; non-negative, and used in place
    /// of the Euclidean length until a magnitude is really needed.
    fn length_squared(&self) -> (r: u128)
        requires
            sum_sq(self.coords()) <= u128::MAX,
        ensures
            r == sum_sq(self.coords()),
    ;

    /// `self - other` as a new vector; the force model's direction.
    fn sub(&self, other: &Self) -> (r: Self)
        requires
            self.coords().len() == other.coords().len(),
            forall|k: int|
                0 <= k < self.coords().len() ==> i64::MIN <= #[trigger] self.coords()[k]
                    - other.coords()[k] <= i64::MAX,
        ensures
            r.coords().len() == self.coords().len(),
            forall|k: int|
                0 <= k < r.coords().len() ==> #[trigger] r.coords()[k] == self.coords()[k]
                    - other.coords()[k],
    ;

    /// All coordinates scaled by the ratio `num / den`.
    fn scale(&self, num: i64, den: u128) -> (r: Self)
        requires
            den >= 1,
            forall|k: int|
                0 <= k < self.coords().len() ==> -(i64::MAX as int) <= #[trigger] div_trunc(
                    self.coords()[k] * num,
                    den as int,
                ) <= i64::MAX as int,
        ensures
            r.coords().len() == self.coords().len(),
            forall|k: int|
                0 <= k < r.coords().len() ==> #[trigger] r.coords()[k] == div_trunc(
                    self.coords()[k] * num,
                    den as int,
                ),
    ;

    /// In-place `self += other * num / den`; the accumulation primitive.
    fn add_scaled(&mut self, num: i64, den: u128, other: &Self)
        requires
            den >= 1,
            old(self).coords().len() == other.coords().len(),
            forall|k: int|
                0 <= k < old(self).coords().len() ==> -(i64::MAX as int) <= #[trigger] div_trunc(
                    other.coords()[k] * num,
                    den as int,
                ) <= i64::MAX as int,
            forall|k: int|
                0 <= k < old(self).coords().len() ==> i64::MIN <= #[trigger] (old(
                    self,
                ).coords()[k] + div_trunc(other.coords()[k] * num, den as int)) <= i64::MAX,
        ensures
            final(self).coords().len() == old(self).coords().len(),
            forall|k: int|
                0 <= k < final(self).coords().len() ==> #[trigger] final(self).coords()[k] == old(
                    self,
                ).coords()[k] + div_trunc(other.coords()[k] * num, den as int),
    ;

    /// Sets all coordinates back to zero in place.
    fn reset(&mut self)
        ensures
            final(self).coords().len() == old(self).coords().len(),
            forall|k: int| 0 <= k < final(self).coords().len() ==> final(self).coords()[k] == 0,
    ;

    /// Each coordinate clamped independently into `[min.coord, max.coord]`.
    fn clip_within(&self, min: &Self, max: &Self) -> (r: Self)
        requires
            min.coords().len() == self.coords().len(),
            max.coords().len() == self.coords().len(),
            forall|k: int|
                0 <= k < self.coords().len() ==> #[trigger] min.coords()[k] <= max.coords()[k],
        ensures
            r.coords().len() == self.coords().len(),
            forall|k: int|
                0 <= k < r.coords().len() ==> #[trigger] r.coords()[k] == clamped(
                    self.coords()[k],
                    min.coords()[k],
                    max.coords()[k],
                ),
    ;
}

} // verus!
