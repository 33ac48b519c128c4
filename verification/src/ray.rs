use vstd::prelude::*;
use crate::vectors::{SplitAxis, V3};

verus! {

/// Smallest ray parameter at which a new ray accepts a hit: a ray never hits
/// the surface it starts on.
pub const RAY_MIN: i64 = 1;

/// Largest ray parameter at which a new ray accepts a hit.
pub const RAY_MAX: i64 = 0x7fff_ffff_ffff_ffff;

/// A ray: the points `origin + t * dir` for the parameters `t` between `min`
/// and `max`. Traversal shrinks `max` as closer hits are found.
#[derive(Clone, Copy, Debug, PartialEq, Eq, Structural)]
pub struct Ray {
    pub origin: V3,
    pub dir: V3,
    pub min: i64,
    pub max: i64,
}

impl Ray {
    /// The same ray with its far limit replaced.
    pub open spec fn with_max(self, t: i64) -> Ray {
        Ray { origin: self.origin, dir: self.dir, min: self.min, max: t }
    }

    /// Whether the ray travels towards smaller coordinates along `axis`.
    pub open spec fn heads_down(self, axis: SplitAxis) -> bool {
        axis.of(self.dir) < 0
    }

    /// The normal turned against the ray: `outward_normal` itself where the
    /// ray arrives from outside, its opposite otherwise.
    pub open spec fn faced(self, outward_normal: V3) -> V3 {
        if self.dir.dot_spec(outward_normal) < 0 {
            outward_normal
        } else {
            V3 {
                x: (-outward_normal.x) as i32,
                y: (-outward_normal.y) as i32,
                z: (-outward_normal.z) as i32,
            }
        }
    }

    /// A ray with the default parameter range.
    pub fn new(origin: V3, dir: V3) -> (r: Ray)
        ensures
            r == (Ray { origin, dir, min: RAY_MIN, max: RAY_MAX }),
    {
        Ray { origin, dir, min: RAY_MIN, max: RAY_MAX }
    }

    /// The ray that starts at `from` and reaches `to` at parameter 1, or
    /// `None` when the displacement between the two does not fit the grid.
    pub fn from_to(from: V3, to: V3) -> (r: Option<Ray>)
        ensures
            r.is_some() <==> fits(to.x - from.x) && fits(to.y - from.y) && fits(to.z - from.z),
            r matches Some(ray) ==> ray.origin == from && ray.min == RAY_MIN && ray.max == RAY_MAX
                && ray.dir.x == to.x - from.x && ray.dir.y == to.y - from.y && ray.dir.z == to.z
                - from.z,
    {
        let dx: i64 = to.x as i64 - from.x as i64;
        let dy: i64 = to.y as i64 - from.y as i64;
        let dz: i64 = to.z as i64 - from.z as i64;
        if in_grid(dx) && in_grid(dy) && in_grid(dz) {
            Some(
                Ray {
                    origin: from,
                    dir: V3 { x: dx as i32, y: dy as i32, z: dz as i32 },
                    min: RAY_MIN,
                    max: RAY_MAX,
                },
            )
        } else {
            None
        }
    }

    /// The point of the ray at parameter `t`, or `None` when that point
    /// lies off the grid.
    pub fn destination(&self, t: i64) -> (p: Option<V3>)
        ensures
            p.is_some() <==> fits(self.origin.x + self.dir.x * t) && fits(
                self.origin.y + self.dir.y * t,
            ) && fits(self.origin.z + self.dir.z * t),
            p matches Some(v) ==> v.x == self.origin.x + self.dir.x * t && v.y == self.origin.y
                + self.dir.y * t && v.z == self.origin.z + self.dir.z * t,
    {
        let x = along(self.origin.x, self.dir.x, t);
        let y = along(self.origin.y, self.dir.y, t);
        let z = along(self.origin.z, self.dir.z, t);
        if in_grid_wide(x) && in_grid_wide(y) && in_grid_wide(z) {
            Some(V3 { x: x as i32, y: y as i32, z: z as i32 })
        } else {
            None
        }
    }

    /// Turns a surface normal against the ray.
    pub fn get_faced_normal(&self, outward_normal: V3) -> (n: V3)
        requires
            outward_normal.x > i32::MIN,
            outward_normal.y > i32::MIN,
            outward_normal.z > i32::MIN,
        ensures
            n == self.faced(outward_normal),
    {
        if self.dir.dot(&outward_normal) < 0 {
            outward_normal
        } else {
            V3 { x: -outward_normal.x, y: -outward_normal.y, z: -outward_normal.z }
        }
    }

    /// Whether the ray travels towards smaller coordinates along `axis`, in
    /// which case the far child of a split along that axis is the nearer one.
    pub fn points_down(&self, axis: SplitAxis) -> (b: bool)
        ensures
            b == self.heads_down(axis),
    {
        axis.proj(self.dir) < 0
    }
}

/// Whether an integer is a grid coordinate.
pub open spec fn fits(c: int) -> bool {
    -0x8000_0000 <= c <= 0x7fff_ffff
}

fn in_grid_wide(c: i128) -> (b: bool)
    ensures
        b == fits(c as int),
{
    -0x8000_0000 <= c && c <= 0x7fff_ffff
}

/// One coordinate of a point along a ray.
fn along(origin: i32, dir: i32, t: i64) -> (c: i128)
    ensures
        c == origin + dir * t,
{
    assert(-0x4000_0000_0000_0000_0000_0000 <= dir * t <= 0x4000_0000_0000_0000_0000_0000)
        by (nonlinear_arith)
        requires
            -0x8000_0000 <= dir <= 0x7fff_ffff,
            -0x8000_0000_0000_0000 <= t <= 0x7fff_ffff_ffff_ffff,
    ;
    origin as i128 + (dir as i128) * (t as i128)
}

fn in_grid(c: i64) -> (b: bool)
    ensures
        b == fits(c as int),
{
    -0x8000_0000 <= c && c <= 0x7fff_ffff
}

} // verus!
