use vstd::prelude::*;
use rand::rngs::ThreadRng;
use crate::random::draw;
use crate::ray::{Ray, RAY_MAX, RAY_MIN};
use crate::vectors::V3;

verus! {

/// The number of steps into which a pixel is divided, each way, when a ray
/// is moved off the pixel's corner for supersampling.
pub const SUBPIXELS: u32 = 0x1_0000;

/// The camera: where it stands and the viewport through which it casts
/// rays, for a picture of a given size in pixels.
#[derive(Debug)]
pub struct Camera {
    position: V3,
    // The upper left corner of the viewport.
    upper_left: V3,
    // From the left border of the viewport to the right.
    horizontal: V3,
    // From the bottom border of the viewport to the top.
    vertical: V3,
    // The size of the picture in pixels. Neither side is zero.
    bounds: (usize, usize),
}

/// What a camera is made of.
pub struct CameraView {
    pub position: V3,
    pub upper_left: V3,
    pub horizontal: V3,
    pub vertical: V3,
    pub bounds: (usize, usize),
}

/// The nearest grid coordinate to `c`.
pub open spec fn clamped(c: int) -> i32 {
    if c < i32::MIN {
        i32::MIN
    } else if c > i32::MAX {
        i32::MAX
    } else {
        c as i32
    }
}

/// One coordinate of the direction towards the point of the viewport that
/// lies `xn / xd` of the way across and `yn / yd` of the way down. Each of
/// the two steps is rounded towards negative infinity.
pub open spec fn towards(
    position: int,
    upper_left: int,
    horizontal: int,
    vertical: int,
    xn: int,
    xd: int,
    yn: int,
    yd: int,
) -> i32 {
    clamped(upper_left + (horizontal * xn) / xd - (vertical * yn) / yd - position)
}

impl CameraView {
    /// The ray from the camera through the point of the viewport that lies
    /// `xn / xd` of the way across and `yn / yd` of the way down.
    pub open spec fn ray_through(self, xn: int, xd: int, yn: int, yd: int) -> Ray {
        Ray {
            origin: self.position,
            dir: V3 {
                x: towards(
                    self.position.x as int,
                    self.upper_left.x as int,
                    self.horizontal.x as int,
                    self.vertical.x as int,
                    xn,
                    xd,
                    yn,
                    yd,
                ),
                y: towards(
                    self.position.y as int,
                    self.upper_left.y as int,
                    self.horizontal.y as int,
                    self.vertical.y as int,
                    xn,
                    xd,
                    yn,
                    yd,
                ),
                z: towards(
                    self.position.z as int,
                    self.upper_left.z as int,
                    self.horizontal.z as int,
                    self.vertical.z as int,
                    xn,
                    xd,
                    yn,
                    yd,
                ),
            },
            min: RAY_MIN,
            max: RAY_MAX,
        }
    }

    /// The ray through the corner of the pixel in column `x` of row `y`.
    pub open spec fn ray_at(self, x: usize, y: usize) -> Ray {
        self.ray_through(x as int, self.bounds.0 as int, y as int, self.bounds.1 as int)
    }

    /// The ray through the pixel in column `x` of row `y`, moved off the
    /// pixel's corner by `jx` steps across and `jy` steps down.
    pub open spec fn ray_within(self, x: usize, y: usize, jx: u16, jy: u16) -> Ray {
        self.ray_through(
            x * SUBPIXELS + jx,
            self.bounds.0 * SUBPIXELS,
            y * SUBPIXELS + jy,
            self.bounds.1 * SUBPIXELS,
        )
    }
}

impl View for Camera {
    type V = CameraView;

    closed spec fn view(&self) -> CameraView {
        CameraView {
            position: self.position,
            upper_left: self.upper_left,
            horizontal: self.horizontal,
            vertical: self.vertical,
            bounds: self.bounds,
        }
    }
}

/// `a / b` rounded towards negative infinity.
fn floor_div(a: i128, b: i128) -> (q: i128)
    requires
        b > 0,
        a > i128::MIN,
    ensures
        q == a / b,
{
    if a >= 0 {
        a / b
    } else {
        let x = -a;
        let q0 = x / b;
        let r0 = x % b;
        proof {
            vstd::arithmetic::div_mod::lemma_fundamental_div_mod(x as int, b as int);
            assert(b * q0 == q0 * b) by (nonlinear_arith);
            if r0 == 0 {
                assert(a == (-q0) * b + 0) by (nonlinear_arith)
                    requires
                        -a == q0 * b,
                ;
                vstd::arithmetic::div_mod::lemma_fundamental_div_mod_converse(
                    a as int,
                    b as int,
                    -q0 as int,
                    0,
                );
            } else {
                assert(a == (-q0 - 1) * b + (b - r0)) by (nonlinear_arith)
                    requires
                        -a == q0 * b + r0,
                ;
                vstd::arithmetic::div_mod::lemma_fundamental_div_mod_converse(
                    a as int,
                    b as int,
                    -q0 - 1,
                    b - r0,
                );
            }
        }
        if r0 == 0 {
            -q0
        } else {
            -q0 - 1
        }
    }
}

/// One coordinate of a ray's direction.
fn direction(
    position: i32,
    upper_left: i32,
    horizontal: i32,
    vertical: i32,
    xn: u128,
    xd: u128,
    yn: u128,
    yd: u128,
) -> (c: i32)
    requires
        0 < xd <= 0x4000_0000_0000_0000_0000_0000,
        0 < yd <= 0x4000_0000_0000_0000_0000_0000,
        xn <= 0x4000_0000_0000_0000_0000_0000,
        yn <= 0x4000_0000_0000_0000_0000_0000,
    ensures
        c == towards(
            position as int,
            upper_left as int,
            horizontal as int,
            vertical as int,
            xn as int,
            xd as int,
            yn as int,
            yd as int,
        ),
{
    let h = horizontal as i128;
    let v = vertical as i128;
    assert(-0x2000_0000_0000_0000_0000_0000_0000_0000 <= h * xn
        <= 0x2000_0000_0000_0000_0000_0000_0000_0000) by (nonlinear_arith)
        requires
            -0x8000_0000 <= h <= 0x8000_0000,
            0 <= xn <= 0x4000_0000_0000_0000_0000_0000,
    ;
    assert(-0x2000_0000_0000_0000_0000_0000_0000_0000 <= v * yn
        <= 0x2000_0000_0000_0000_0000_0000_0000_0000) by (nonlinear_arith)
        requires
            -0x8000_0000 <= v <= 0x8000_0000,
            0 <= yn <= 0x4000_0000_0000_0000_0000_0000,
    ;
    let across = floor_div(h * (xn as i128), xd as i128);
    let down = floor_div(v * (yn as i128), yd as i128);
    proof {
        lemma_quotient_bounded(h * xn, xd as int);
        lemma_quotient_bounded(v * yn, yd as int);
    }
    let c = upper_left as i128 + across - down - position as i128;
    if c < i32::MIN as i128 {
        i32::MIN
    } else if c > i32::MAX as i128 {
        i32::MAX
    } else {
        c as i32
    }
}

/// Dividing by a positive number brings a number no further from zero.
proof fn lemma_quotient_bounded(a: int, b: int)
    requires
        b > 0,
    ensures
        a >= 0 ==> 0 <= a / b <= a,
        a < 0 ==> a <= a / b < 0,
{
    vstd::arithmetic::div_mod::lemma_fundamental_div_mod(a, b);
    let q = a / b;
    let r = a % b;
    assert(b * q == q * b) by (nonlinear_arith);
    if a >= 0 {
        assert(q >= 0) by (nonlinear_arith)
            requires
                q * b + r >= 0,
                0 <= r < b,
                b > 0,
        ;
        assert(q <= q * b) by (nonlinear_arith)
            requires
                q >= 0,
                b > 0,
        ;
    } else {
        assert(q < 0) by (nonlinear_arith)
            requires
                q * b + r < 0,
                0 <= r < b,
                b > 0,
        ;
        assert(q * b + r <= q) by (nonlinear_arith)
            requires
                q < 0,
                b > 0,
                0 <= r < b,
        ;
    }
}

impl Camera {
    #[verifier::type_invariant]
    spec fn inv(self) -> bool {
        self.bounds.0 > 0 && self.bounds.1 > 0
    }

    /// A camera at `position` that looks through the viewport with the given
    /// upper left corner and the given spans from left to right and from
    /// bottom to top, for a picture of `bounds` pixels. There is no camera
    /// for a picture without width or height.
    pub fn new(position: V3, upper_left: V3, horizontal: V3, vertical: V3, bounds: (usize, usize)) -> (camera:
        Option<Camera>)
        ensures
            camera.is_some() <==> bounds.0 > 0 && bounds.1 > 0,
            camera matches Some(c) ==> c@ == (CameraView {
                position,
                upper_left,
                horizontal,
                vertical,
                bounds,
            }),
    {
        if bounds.0 == 0 || bounds.1 == 0 {
            None
        } else {
            Some(Camera { position, upper_left, horizontal, vertical, bounds })
        }
    }

    /// The ray from the camera through the point of the viewport that lies
    /// `x.0 / x.1` of the way across and `y.0 / y.1` of the way down.
    pub fn get_ray_from_fraction(&self, x: (u128, u128), y: (u128, u128)) -> (ray: Ray)
        requires
            0 < x.1 <= 0x4000_0000_0000_0000_0000_0000,
            0 < y.1 <= 0x4000_0000_0000_0000_0000_0000,
            x.0 <= 0x4000_0000_0000_0000_0000_0000,
            y.0 <= 0x4000_0000_0000_0000_0000_0000,
        ensures
            ray == self@.ray_through(x.0 as int, x.1 as int, y.0 as int, y.1 as int),
    {
        let dir = V3 {
            x: direction(
                self.position.x,
                self.upper_left.x,
                self.horizontal.x,
                self.vertical.x,
                x.0,
                x.1,
                y.0,
                y.1,
            ),
            y: direction(
                self.position.y,
                self.upper_left.y,
                self.horizontal.y,
                self.vertical.y,
                x.0,
                x.1,
                y.0,
                y.1,
            ),
            z: direction(
                self.position.z,
                self.upper_left.z,
                self.horizontal.z,
                self.vertical.z,
                x.0,
                x.1,
                y.0,
                y.1,
            ),
        };
        Ray::new(self.position, dir)
    }

    /// The ray through the corner of the pixel in column `x` of row `y`.
    pub fn get_ray(&self, x: usize, y: usize) -> (ray: Ray)
        ensures
            ray == self@.ray_at(x, y),
    {
        proof {
            use_type_invariant(self);
        }
        self.get_ray_from_fraction(
            (x as u128, self.bounds.0 as u128),
            (y as u128, self.bounds.1 as u128),
        )
    }

    /// A ray through the pixel in column `x` of row `y`, moved off the
    /// pixel's corner by a random part of a pixel each way.
    pub fn get_ray_perturbed(&self, x: usize, y: usize, rand: &mut ThreadRng) -> (ray: Ray)
        ensures
            exists|jx: u16, jy: u16| ray == #[trigger] self@.ray_within(x, y, jx, jy),
    {
        proof {
            use_type_invariant(self);
        }
        let jx = draw(rand);
        let jy = draw(rand);
        let ray = self.get_ray_from_fraction(
            ((x as u128) * (SUBPIXELS as u128) + jx as u128, (self.bounds.0 as u128) * (SUBPIXELS as u128)),
            ((y as u128) * (SUBPIXELS as u128) + jy as u128, (self.bounds.1 as u128) * (SUBPIXELS as u128)),
        );
        assert(ray == self@.ray_within(x, y, jx, jy));
        ray
    }
}

} // verus!
