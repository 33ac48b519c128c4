use vstd::prelude::*;
use crate::ray::Ray;
use crate::vectors::{SplitAxis, V3};

verus! {

/// An axis-aligned box, given by two opposite corners.
///
/// A box built by [`Bounds::around`] and grown by [`Bounds::union`] and
/// [`Bounds::union_v3`] keeps `min_point` below `max_point` on every axis.
/// The fields are public, so a box may also be written down with its corners
/// the other way round; the slab test then takes it as the box that the two
/// corners span.
#[derive(Clone, Copy, Debug, PartialEq, Eq, Structural)]
pub struct Bounds {
    pub min_point: V3,
    pub max_point: V3,
}

pub open spec fn min_int(a: int, b: int) -> int {
    if a <= b {
        a
    } else {
        b
    }
}

pub open spec fn max_int(a: int, b: int) -> int {
    if a >= b {
        a
    } else {
        b
    }
}

fn lesser(a: i32, b: i32) -> (m: i32)
    ensures
        m == min_int(a as int, b as int),
{
    if a <= b {
        a
    } else {
        b
    }
}

fn greater(a: i32, b: i32) -> (m: i32)
    ensures
        m == max_int(a as int, b as int),
{
    if a >= b {
        a
    } else {
        b
    }
}

/// The coordinate `by` below `c`, or the least coordinate there is.
fn below(c: i32, by: u32) -> (r: i32)
    ensures
        r == max_int(c - by, i32::MIN as int),
{
    let wide: i64 = c as i64 - by as i64;
    if wide < i32::MIN as i64 {
        i32::MIN
    } else {
        wide as i32
    }
}

/// The coordinate `by` above `c`, or the greatest coordinate there is.
fn above(c: i32, by: u32) -> (r: i32)
    ensures
        r == min_int(c + by, i32::MAX as int),
{
    let wide: i64 = c as i64 + by as i64;
    if wide > i32::MAX as i64 {
        i32::MAX
    } else {
        wide as i32
    }
}

/// The midpoint of two coordinates, rounded towards negative infinity.
fn midpoint(a: i32, b: i32) -> (m: i32)
    ensures
        m == (a + b) / 2,
{
    let sum: i64 = a as i64 + b as i64;
    let half: i64 = if sum >= 0 || sum % 2 == 0 {
        sum / 2
    } else {
        sum / 2 - 1
    };
    half as i32
}

impl Bounds {
    /// Whether `min_point` is below `max_point` on every axis.
    pub open spec fn wf(self) -> bool {
        &&& self.min_point.x <= self.max_point.x
        &&& self.min_point.y <= self.max_point.y
        &&& self.min_point.z <= self.max_point.z
    }

    /// The lower face of the box along `axis`.
    pub open spec fn lo(self, axis: SplitAxis) -> int {
        min_int(axis.of(self.min_point), axis.of(self.max_point))
    }

    /// The upper face of the box along `axis`.
    pub open spec fn hi(self, axis: SplitAxis) -> int {
        max_int(axis.of(self.min_point), axis.of(self.max_point))
    }

    /// Whether the point lies in the box, faces included.
    pub open spec fn contains_point(self, p: V3) -> bool {
        &&& self.min_point.x <= p.x <= self.max_point.x
        &&& self.min_point.y <= p.y <= self.max_point.y
        &&& self.min_point.z <= p.z <= self.max_point.z
    }

    /// Whether `other` lies within this box.
    pub open spec fn contains(self, other: Bounds) -> bool {
        &&& self.min_point.x <= other.min_point.x && other.max_point.x <= self.max_point.x
        &&& self.min_point.y <= other.min_point.y && other.max_point.y <= self.max_point.y
        &&& self.min_point.z <= other.min_point.z && other.max_point.z <= self.max_point.z
    }

    /// The box that holds exactly one point.
    pub open spec fn point(p: V3) -> Bounds {
        Bounds { min_point: p, max_point: p }
    }

    /// The smallest box that holds both boxes.
    pub open spec fn join(a: Bounds, b: Bounds) -> Bounds {
        Bounds {
            min_point: V3 {
                x: min_int(a.min_point.x as int, b.min_point.x as int) as i32,
                y: min_int(a.min_point.y as int, b.min_point.y as int) as i32,
                z: min_int(a.min_point.z as int, b.min_point.z as int) as i32,
            },
            max_point: V3 {
                x: max_int(a.max_point.x as int, b.max_point.x as int) as i32,
                y: max_int(a.max_point.y as int, b.max_point.y as int) as i32,
                z: max_int(a.max_point.z as int, b.max_point.z as int) as i32,
            },
        }
    }

    /// The midpoint of the two corners, each coordinate rounded towards
    /// negative infinity.
    pub open spec fn center(self) -> V3 {
        V3 {
            x: ((self.min_point.x + self.max_point.x) / 2) as i32,
            y: ((self.min_point.y + self.max_point.y) / 2) as i32,
            z: ((self.min_point.z + self.max_point.z) / 2) as i32,
        }
    }

    /// The axis of greatest extent. Where two axes tie for it, the earlier
    /// one is taken: X wins a tie with Y or Z, and Y wins a tie with Z.
    pub open spec fn longest_axis(self) -> SplitAxis {
        let x_dim = self.max_point.x - self.min_point.x;
        let y_dim = self.max_point.y - self.min_point.y;
        let z_dim = self.max_point.z - self.min_point.z;
        if x_dim >= y_dim && x_dim >= z_dim {
            SplitAxis::X
        } else if y_dim >= z_dim {
            SplitAxis::Y
        } else {
            SplitAxis::Z
        }
    }

    /// Whether the ray is on the box along one axis at the parameter `n / d`:
    /// the inequality `lo <= origin + dir * n / d <= hi`, cleared of its
    /// denominator.
    pub open spec fn on_slab(self, ray: Ray, axis: SplitAxis, n: int, d: int) -> bool {
        let at = axis.of(ray.origin) * d + axis.of(ray.dir) * n;
        self.lo(axis) * d <= at <= self.hi(axis) * d
    }

    /// Whether the ray is inside the box at the parameter `n / d`, and that
    /// parameter is within the ray's range.
    pub open spec fn meets_at(self, ray: Ray, n: int, d: int) -> bool {
        &&& ray.min * d <= n <= ray.max * d
        &&& self.on_slab(ray, SplitAxis::X, n, d)
        &&& self.on_slab(ray, SplitAxis::Y, n, d)
        &&& self.on_slab(ray, SplitAxis::Z, n, d)
    }

    /// Whether some point of the ray, at a rational parameter within the
    /// ray's range, lies in the box.
    pub open spec fn meets(self, ray: Ray) -> bool {
        exists|n: int, d: int| d > 0 && #[trigger] self.meets_at(ray, n, d)
    }

    /// The box that holds exactly the point `p`.
    pub fn around(p: V3) -> (b: Bounds)
        ensures
            b == Bounds::point(p),
            b.wf(),
    {
        Bounds { min_point: p, max_point: p }
    }

    /// The box around the sphere with the given centre and radius, cut off
    /// where it would leave the grid.
    pub fn around_sphere(center: V3, radius: u32) -> (b: Bounds)
        ensures
            b.min_point.x == max_int(center.x - radius, i32::MIN as int),
            b.min_point.y == max_int(center.y - radius, i32::MIN as int),
            b.min_point.z == max_int(center.z - radius, i32::MIN as int),
            b.max_point.x == min_int(center.x + radius, i32::MAX as int),
            b.max_point.y == min_int(center.y + radius, i32::MAX as int),
            b.max_point.z == min_int(center.z + radius, i32::MAX as int),
            b.wf(),
            b.contains_point(center),
    {
        Bounds {
            min_point: V3 {
                x: below(center.x, radius),
                y: below(center.y, radius),
                z: below(center.z, radius),
            },
            max_point: V3 {
                x: above(center.x, radius),
                y: above(center.y, radius),
                z: above(center.z, radius),
            },
        }
    }

    /// The smallest box that holds both `b1` and `b2`.
    pub fn union(b1: Bounds, b2: Bounds) -> (b: Bounds)
        ensures
            b == Bounds::join(b1, b2),
            b.contains(b1),
            b.contains(b2),
            b1.wf() || b2.wf() ==> b.wf(),
    {
        Bounds {
            min_point: V3 {
                x: lesser(b1.min_point.x, b2.min_point.x),
                y: lesser(b1.min_point.y, b2.min_point.y),
                z: lesser(b1.min_point.z, b2.min_point.z),
            },
            max_point: V3 {
                x: greater(b1.max_point.x, b2.max_point.x),
                y: greater(b1.max_point.y, b2.max_point.y),
                z: greater(b1.max_point.z, b2.max_point.z),
            },
        }
    }

    /// The smallest box that holds both `b` and the point `v`.
    pub fn union_v3(b: Bounds, v: V3) -> (r: Bounds)
        ensures
            r == Bounds::join(b, Bounds::point(v)),
            r.contains(b),
            r.contains_point(v),
            r.wf(),
    {
        Bounds {
            min_point: V3 {
                x: lesser(b.min_point.x, v.x),
                y: lesser(b.min_point.y, v.y),
                z: lesser(b.min_point.z, v.z),
            },
            max_point: V3 {
                x: greater(b.max_point.x, v.x),
                y: greater(b.max_point.y, v.y),
                z: greater(b.max_point.z, v.z),
            },
        }
    }

    /// The midpoint of the two corners, each coordinate rounded towards
    /// negative infinity.
    pub fn centroid(&self) -> (c: V3)
        ensures
            c == self.center(),
    {
        V3 {
            x: midpoint(self.min_point.x, self.max_point.x),
            y: midpoint(self.min_point.y, self.max_point.y),
            z: midpoint(self.min_point.z, self.max_point.z),
        }
    }

    /// The axis along which the box is longest, ties going to the earlier
    /// axis: X before Y before Z.
    pub fn maximum_length_axis(&self) -> (axis: SplitAxis)
        ensures
            axis == self.longest_axis(),
    {
        let x_dim: i64 = self.max_point.x as i64 - self.min_point.x as i64;
        let y_dim: i64 = self.max_point.y as i64 - self.min_point.y as i64;
        let z_dim: i64 = self.max_point.z as i64 - self.min_point.z as i64;
        if x_dim >= y_dim && x_dim >= z_dim {
            SplitAxis::X
        } else if y_dim >= z_dim {
            SplitAxis::Y
        } else {
            SplitAxis::Z
        }
    }

    /// Whether the box is a single point.
    pub fn is_singularity(&self) -> (b: bool)
        ensures
            b == (self.min_point == self.max_point),
    {
        self.min_point.x == self.max_point.x && self.min_point.y == self.max_point.y
            && self.min_point.z == self.max_point.z
    }

    /// The signed extent of the box along `axis`.
    pub fn dimension(&self, axis: SplitAxis) -> (d: i64)
        ensures
            d == axis.of(self.max_point) - axis.of(self.min_point),
    {
        axis.proj(self.max_point) as i64 - axis.proj(self.min_point) as i64
    }

    /// The slab test: whether the ray passes through the box somewhere within
    /// its parameter range.
    ///
    /// The range of parameters is narrowed by one pair of parallel faces
    /// after the other, in exact rational arithmetic, and the ray misses as
    /// soon as the range is empty. A ray that runs parallel to a pair of
    /// faces passes them exactly when its origin lies between them, faces
    /// included.
    pub fn intersects(&self, ray: &Ray) -> (hit: bool)
        ensures
            hit == self.meets(*ray),
    {
        if ray.min > ray.max {
            proof {
                lemma_empty_range_misses(*self, *ray);
            }
            return false;
        }
        let w0 = Window { near_num: ray.min as i128, near_den: 1, far_num: ray.max as i128, far_den: 1 };
        let wx = match self.narrow(ray, SplitAxis::X, w0) {
            Some(w) => w,
            None => {
                assert forall|n: int, d: int| d > 0 implies !#[trigger] self.meets_at(*ray, n, d) by {
                    assert(self.meets_at(*ray, n, d) ==> w0.admits(n, d));
                }
                return false;
            },
        };
        let wy = match self.narrow(ray, SplitAxis::Y, wx) {
            Some(w) => w,
            None => {
                assert forall|n: int, d: int| d > 0 implies !#[trigger] self.meets_at(*ray, n, d) by {
                    assert(self.meets_at(*ray, n, d) ==> w0.admits(n, d) && wx.admits(n, d));
                }
                return false;
            },
        };
        let wz = match self.narrow(ray, SplitAxis::Z, wy) {
            Some(w) => w,
            None => {
                assert forall|n: int, d: int| d > 0 implies !#[trigger] self.meets_at(*ray, n, d) by {
                    assert(self.meets_at(*ray, n, d) ==> w0.admits(n, d) && wx.admits(n, d)
                        && wy.admits(n, d));
                }
                return false;
            },
        };
        proof {
            let n = wz.near_num as int;
            let d = wz.near_den as int;
            assert(wz.admits(n, d));
            assert(wy.admits(n, d) && wx.admits(n, d) && w0.admits(n, d));
            assert(self.meets_at(*ray, n, d));
        }
        true
    }

    /// Narrows a window of ray parameters to those at which the ray is on the
    /// box along `axis`; `None` when no parameter is left.
    fn narrow(&self, ray: &Ray, axis: SplitAxis, w: Window) -> (r: Option<Window>)
        requires
            w.wf(),
        ensures
            r matches Some(v) ==> v.wf() && forall|n: int, d: int|
                d > 0 ==> (#[trigger] v.admits(n, d) <==> w.admits(n, d) && self.on_slab(
                    *ray,
                    axis,
                    n,
                    d,
                )),
            r is None ==> forall|n: int, d: int|
                d > 0 && #[trigger] w.admits(n, d) ==> !self.on_slab(*ray, axis, n, d),
    {
        let a = axis.proj(self.min_point);
        let b = axis.proj(self.max_point);
        let lo: i128 = lesser(a, b) as i128;
        let hi: i128 = greater(a, b) as i128;
        let o: i128 = axis.proj(ray.origin) as i128;
        let dir: i128 = axis.proj(ray.dir) as i128;
        if dir == 0 {
            if lo <= o && o <= hi {
                assert forall|n: int, d: int| d > 0 implies (#[trigger] w.admits(n, d)
                    <==> w.admits(n, d) && self.on_slab(*ray, axis, n, d)) by {
                    lemma_scale_keeps_order(lo as int, o as int, d);
                    lemma_scale_keeps_order(o as int, hi as int, d);
                    assert(dir * n == 0) by (nonlinear_arith)
                        requires
                            dir == 0,
                    ;
                }
                return Some(w);
            } else {
                assert forall|n: int, d: int| d > 0 && #[trigger] w.admits(n, d) implies !self.on_slab(
                    *ray,
                    axis,
                    n,
                    d,
                ) by {
                    assert(dir * n == 0) by (nonlinear_arith)
                        requires
                            dir == 0,
                    ;
                    if o < lo {
                        lemma_scale_keeps_order(o as int, lo as int, d);
                    } else {
                        lemma_scale_keeps_order(hi as int, o as int, d);
                    }
                }
                return None;
            }
        }
        // The parameters at which the ray crosses the two faces, entry first,
        // over a common positive denominator.
        let (enter, leave, den): (i128, i128, i128) = if dir > 0 {
            (lo - o, hi - o, dir)
        } else {
            (o - hi, o - lo, -dir)
        };
        assert(enter <= leave);
        let (near_num, near_den): (i128, i128) = if exceeds(enter, den, w.near_num, w.near_den) {
            (enter, den)
        } else {
            (w.near_num, w.near_den)
        };
        let (far_num, far_den): (i128, i128) = if exceeds(w.far_num, w.far_den, leave, den) {
            (leave, den)
        } else {
            (w.far_num, w.far_den)
        };
        let v = Window { near_num, near_den, far_num, far_den };
        let empty = exceeds(near_num, near_den, far_num, far_den);
        proof {
            assert forall|n: int, d: int| d > 0 implies (#[trigger] v.admits(n, d) <==> w.admits(
                n,
                d,
            ) && self.on_slab(*ray, axis, n, d)) by {
                lemma_slab_as_fractions(lo as int, hi as int, o as int, dir as int, n, d);
                assert(self.on_slab(*ray, axis, n, d) <==> frac_le(enter as int, den as int, n, d)
                    && frac_le(n, d, leave as int, den as int));
                if frac_le(enter as int, den as int, n, d) && frac_le(
                    w.near_num as int,
                    w.near_den as int,
                    n,
                    d,
                ) {
                    assert(frac_le(near_num as int, near_den as int, n, d));
                }
                if frac_le(near_num as int, near_den as int, n, d) {
                    lemma_frac_trans(
                        enter as int,
                        den as int,
                        near_num as int,
                        near_den as int,
                        n,
                        d,
                    );
                    lemma_frac_trans(
                        w.near_num as int,
                        w.near_den as int,
                        near_num as int,
                        near_den as int,
                        n,
                        d,
                    );
                }
                if frac_le(n, d, far_num as int, far_den as int) {
                    lemma_frac_trans(n, d, far_num as int, far_den as int, leave as int, den as int);
                    lemma_frac_trans(
                        n,
                        d,
                        far_num as int,
                        far_den as int,
                        w.far_num as int,
                        w.far_den as int,
                    );
                }
            }
            if empty {
                assert forall|n: int, d: int| d > 0 && #[trigger] w.admits(n, d) implies !self.on_slab(
                    *ray,
                    axis,
                    n,
                    d,
                ) by {
                    if self.on_slab(*ray, axis, n, d) {
                        assert(v.admits(n, d));
                        lemma_frac_trans(
                            near_num as int,
                            near_den as int,
                            n,
                            d,
                            far_num as int,
                            far_den as int,
                        );
                    }
                }
            }
        }
        if empty {
            None
        } else {
            Some(v)
        }
    }
}

/// A ray that is inside the box at some point of its range passes through
/// the box: if the point `origin + t * dir`, for a whole or fractional
/// parameter `t = n / d` within the range, lies between the faces along every
/// axis, the slab test succeeds.
pub proof fn lemma_ray_through_box_meets(bounds: Bounds, ray: Ray, n: int, d: int)
    requires
        d > 0,
        ray.min * d <= n <= ray.max * d,
        bounds.on_slab(ray, SplitAxis::X, n, d),
        bounds.on_slab(ray, SplitAxis::Y, n, d),
        bounds.on_slab(ray, SplitAxis::Z, n, d),
    ensures
        bounds.meets(ray),
{
    assert(bounds.meets_at(ray, n, d));
}

/// A ray that runs parallel to a pair of faces and starts outside them
/// misses the box, whatever its range.
pub proof fn lemma_parallel_ray_outside_misses(bounds: Bounds, ray: Ray, axis: SplitAxis)
    requires
        axis.of(ray.dir) == 0,
        axis.of(ray.origin) < bounds.lo(axis) || axis.of(ray.origin) > bounds.hi(axis),
    ensures
        !bounds.meets(ray),
{
    assert forall|n: int, d: int| d > 0 implies !#[trigger] bounds.meets_at(ray, n, d) by {
        assert(axis.of(ray.dir) * n == 0) by (nonlinear_arith)
            requires
                axis.of(ray.dir) == 0,
        ;
        lemma_scale_keeps_order(axis.of(ray.origin), bounds.lo(axis), d);
        lemma_scale_keeps_order(bounds.hi(axis), axis.of(ray.origin), d);
        assert(!bounds.on_slab(ray, axis, n, d));
    }
}

/// A ray whose range is empty misses every box.
pub proof fn lemma_empty_range_misses(bounds: Bounds, ray: Ray)
    requires
        ray.min > ray.max,
    ensures
        !bounds.meets(ray),
{
    assert forall|n: int, d: int| d > 0 implies !#[trigger] bounds.meets_at(ray, n, d) by {
        lemma_scale_keeps_order(ray.max as int, ray.min as int, d);
    }
}

/// A closed window of ray parameters between two fractions, each written
/// over a positive denominator.
struct Window {
    near_num: i128,
    near_den: i128,
    far_num: i128,
    far_den: i128,
}

impl Window {
    spec fn wf(self) -> bool {
        &&& 0 < self.near_den <= 0x8000_0000
        &&& 0 < self.far_den <= 0x8000_0000
        &&& -0x8000_0000_0000_0000 <= self.near_num <= 0x8000_0000_0000_0000
        &&& -0x8000_0000_0000_0000 <= self.far_num <= 0x8000_0000_0000_0000
        &&& frac_le(
            self.near_num as int,
            self.near_den as int,
            self.far_num as int,
            self.far_den as int,
        )
    }

    /// Whether the parameter `n / d` lies in the window.
    spec fn admits(self, n: int, d: int) -> bool {
        &&& frac_le(self.near_num as int, self.near_den as int, n, d)
        &&& frac_le(n, d, self.far_num as int, self.far_den as int)
    }
}

/// Whether `an / ad <= bn / bd`, for positive denominators.
spec fn frac_le(an: int, ad: int, bn: int, bd: int) -> bool {
    an * bd <= bn * ad
}

/// Whether `an / ad > bn / bd`.
fn exceeds(an: i128, ad: i128, bn: i128, bd: i128) -> (b: bool)
    requires
        0 < ad <= 0x8000_0000,
        0 < bd <= 0x8000_0000,
        -0x8000_0000_0000_0000 <= an <= 0x8000_0000_0000_0000,
        -0x8000_0000_0000_0000 <= bn <= 0x8000_0000_0000_0000,
    ensures
        b == !frac_le(an as int, ad as int, bn as int, bd as int),
{
    assert(-0x4000_0000_0000_0000_0000_0000 <= an * bd <= 0x4000_0000_0000_0000_0000_0000)
        by (nonlinear_arith)
        requires
            0 < bd <= 0x8000_0000,
            -0x8000_0000_0000_0000 <= an <= 0x8000_0000_0000_0000,
    ;
    assert(-0x4000_0000_0000_0000_0000_0000 <= bn * ad <= 0x4000_0000_0000_0000_0000_0000)
        by (nonlinear_arith)
        requires
            0 < ad <= 0x8000_0000,
            -0x8000_0000_0000_0000 <= bn <= 0x8000_0000_0000_0000,
    ;
    an * bd > bn * ad
}

proof fn lemma_frac_trans(an: int, ad: int, bn: int, bd: int, cn: int, cd: int)
    requires
        ad > 0,
        bd > 0,
        cd > 0,
        frac_le(an, ad, bn, bd),
        frac_le(bn, bd, cn, cd),
    ensures
        frac_le(an, ad, cn, cd),
{
    assert((an * bd) * cd <= (bn * ad) * cd) by (nonlinear_arith)
        requires
            an * bd <= bn * ad,
            cd > 0,
    ;
    assert((bn * cd) * ad <= (cn * bd) * ad) by (nonlinear_arith)
        requires
            bn * cd <= cn * bd,
            ad > 0,
    ;
    assert((an * cd) * bd <= (cn * ad) * bd) by (nonlinear_arith)
        requires
            (an * bd) * cd <= (bn * ad) * cd,
            (bn * cd) * ad <= (cn * bd) * ad,
    ;
    assert(an * cd <= cn * ad) by (nonlinear_arith)
        requires
            (an * cd) * bd <= (cn * ad) * bd,
            bd > 0,
    ;
}

proof fn lemma_scale_keeps_order(a: int, b: int, d: int)
    requires
        d > 0,
    ensures
        a <= b <==> a * d <= b * d,
        a < b <==> a * d < b * d,
{
    assert(a <= b ==> a * d <= b * d) by (nonlinear_arith)
        requires
            d > 0,
    ;
    assert(a > b ==> a * d > b * d) by (nonlinear_arith)
        requires
            d > 0,
    ;
    assert(a < b ==> a * d < b * d) by (nonlinear_arith)
        requires
            d > 0,
    ;
    assert(a >= b ==> a * d >= b * d) by (nonlinear_arith)
        requires
            d > 0,
    ;
}

/// Being between the faces `lo` and `hi` at the parameter `n / d`, said of
/// the two parameters at which a ray that is not parallel to the faces
/// crosses them.
proof fn lemma_slab_as_fractions(lo: int, hi: int, o: int, dir: int, n: int, d: int)
    requires
        dir != 0,
    ensures
        dir > 0 ==> ((lo * d <= o * d + dir * n) <==> frac_le(lo - o, dir, n, d)),
        dir > 0 ==> ((o * d + dir * n <= hi * d) <==> frac_le(n, d, hi - o, dir)),
        dir < 0 ==> ((lo * d <= o * d + dir * n) <==> frac_le(n, d, o - lo, -dir)),
        dir < 0 ==> ((o * d + dir * n <= hi * d) <==> frac_le(o - hi, -dir, n, d)),
{
    assert((lo - o) * d == lo * d - o * d) by (nonlinear_arith);
    assert((hi - o) * d == hi * d - o * d) by (nonlinear_arith);
    assert((o - lo) * d == o * d - lo * d) by (nonlinear_arith);
    assert((o - hi) * d == o * d - hi * d) by (nonlinear_arith);
    assert(n * dir == dir * n) by (nonlinear_arith);
    assert(n * (-dir) == -(dir * n)) by (nonlinear_arith);
}

} // verus!
