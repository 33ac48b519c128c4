use vstd::prelude::*;

verus! {

/// A point or displacement on the integer grid the scene lives on.
///
/// Coordinates are 32-bit so that every product the geometry needs
/// (differences times direction components, sums over a whole scene)
/// fits a 128-bit accumulator without any side condition.
#[derive(Clone, Copy, Debug, PartialEq, Eq, Structural)]
pub struct V3 {
    pub x: i32,
    pub y: i32,
    pub z: i32,
}

/// A plane, given by a point on it and its normal.
#[derive(Clone, Copy, Debug, PartialEq, Eq, Structural)]
pub struct Plane {
    pub point: V3,
    pub normal: V3,
}

/// One of the three coordinate axes.
#[derive(Clone, Copy, Debug, PartialEq, Eq, Structural)]
pub enum SplitAxis {
    X,
    Y,
    Z,
}

impl SplitAxis {
    /// The coordinate of `v` along this axis.
    pub open spec fn of(self, v: V3) -> int {
        match self {
            SplitAxis::X => v.x as int,
            SplitAxis::Y => v.y as int,
            SplitAxis::Z => v.z as int,
        }
    }

    /// Projects a vector onto this axis.
    pub fn proj(&self, v: V3) -> (c: i32)
        ensures
            c == self.of(v),
    {
        match self {
            SplitAxis::X => v.x,
            SplitAxis::Y => v.y,
            SplitAxis::Z => v.z,
        }
    }
}

impl V3 {
    /// The exact dot product of two vectors.
    pub open spec fn dot_spec(self, other: V3) -> int {
        self.x * other.x + self.y * other.y + self.z * other.z
    }

    pub fn new(x: i32, y: i32, z: i32) -> (v: V3)
        ensures
            v == (V3 { x, y, z }),
    {
        V3 { x, y, z }
    }

    pub fn zero() -> (v: V3)
        ensures
            v == (V3 { x: 0, y: 0, z: 0 }),
    {
        V3 { x: 0, y: 0, z: 0 }
    }

    pub fn one() -> (v: V3)
        ensures
            v == (V3 { x: 1, y: 1, z: 1 }),
    {
        V3 { x: 1, y: 1, z: 1 }
    }

    /// The unit step along the first axis.
    pub fn x() -> (v: V3)
        ensures
            v == (V3 { x: 1, y: 0, z: 0 }),
    {
        V3 { x: 1, y: 0, z: 0 }
    }

    /// The unit step along the second axis.
    pub fn y() -> (v: V3)
        ensures
            v == (V3 { x: 0, y: 1, z: 0 }),
    {
        V3 { x: 0, y: 1, z: 0 }
    }

    /// The unit step along the third axis.
    pub fn z() -> (v: V3)
        ensures
            v == (V3 { x: 0, y: 0, z: 1 }),
    {
        V3 { x: 0, y: 0, z: 1 }
    }

    /// Dot product, computed without rounding or overflow.
    pub fn dot(&self, other: &V3) -> (d: i128)
        ensures
            d == self.dot_spec(*other),
    {
        let xx: i128 = product(self.x, other.x);
        let yy: i128 = product(self.y, other.y);
        let zz: i128 = product(self.z, other.z);
        xx + yy + zz
    }

    /// Length of the vector, rounded down.
    pub fn magnitude(&self) -> (m: u64)
        ensures
            m == floor_sqrt(self.dot_spec(*self)),
            is_root(self.dot_spec(*self), m as int),
            m < 0x1_0000_0000,
    {
        let squared = self.magnitude_squared();
        assert(squared < 0x1_0000_0000_0000_0000) by (nonlinear_arith)
            requires
                squared == self.x * self.x + self.y * self.y + self.z * self.z,
                -0x8000_0000 <= self.x <= 0x7fff_ffff,
                -0x8000_0000 <= self.y <= 0x7fff_ffff,
                -0x8000_0000 <= self.z <= 0x7fff_ffff,
        ;
        isqrt(squared as u64)
    }

    /// Squared length of the vector.
    pub fn magnitude_squared(&self) -> (m: i128)
        ensures
            m == self.dot_spec(*self),
            m >= 0,
    {
        let m = self.dot(self);
        assert(self.x * self.x >= 0 && self.y * self.y >= 0 && self.z * self.z >= 0)
            by (nonlinear_arith);
        m
    }
}

/// Whether `r` is the square root of `n`, rounded down.
pub open spec fn is_root(n: int, r: int) -> bool {
    0 <= r && r * r <= n < (r + 1) * (r + 1)
}

/// The square root of `n`, rounded down.
pub open spec fn floor_sqrt(n: int) -> int {
    choose|r: int| is_root(n, r)
}

/// A number has one rounded-down square root.
pub proof fn lemma_one_root(n: int, r1: int, r2: int)
    requires
        is_root(n, r1),
        is_root(n, r2),
    ensures
        r1 == r2,
{
    if r1 < r2 {
        assert((r1 + 1) * (r1 + 1) <= r2 * r2) by (nonlinear_arith)
            requires
                0 <= r1 + 1 <= r2,
        ;
    } else if r2 < r1 {
        assert((r2 + 1) * (r2 + 1) <= r1 * r1) by (nonlinear_arith)
            requires
                0 <= r2 + 1 <= r1,
        ;
    }
}

/// The square root of `n`, rounded down.
pub(crate) fn isqrt(n: u64) -> (r: u64)
    ensures
        is_root(n as int, r as int),
        r == floor_sqrt(n as int),
        r < 0x1_0000_0000,
{
    let mut lo: u64 = 0;
    let mut hi: u64 = 0x1_0000_0000;
    assert(0x1_0000_0000 * 0x1_0000_0000 == 0x1_0000_0000_0000_0000) by (nonlinear_arith);
    while hi - lo > 1
        invariant
            lo < hi <= 0x1_0000_0000,
            lo * lo <= n < hi * hi,
        decreases hi - lo,
    {
        let mid = lo + (hi - lo) / 2;
        assert(mid * mid < 0x1_0000_0000 * 0x1_0000_0000) by (nonlinear_arith)
            requires
                0 <= mid < 0x1_0000_0000,
        ;
        if mid * mid <= n {
            lo = mid;
        } else {
            hi = mid;
        }
    }
    proof {
        let r = choose|r: int| is_root(n as int, r);
        assert(is_root(n as int, lo as int));
        lemma_one_root(n as int, lo as int, r);
    }
    lo
}

/// The product of two coordinates, widened so that it cannot overflow.
pub fn product(a: i32, b: i32) -> (p: i128)
    ensures
        p == a * b,
        -0x4000_0000_0000_0000 <= p <= 0x4000_0000_0000_0000,
{
    assert(-0x4000_0000_0000_0000 <= a * b <= 0x4000_0000_0000_0000) by (nonlinear_arith)
        requires
            -0x8000_0000 <= a <= 0x7fff_ffff,
            -0x8000_0000 <= b <= 0x7fff_ffff,
    ;
    (a as i128) * (b as i128)
}

} // verus!
