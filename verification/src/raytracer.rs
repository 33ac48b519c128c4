use vstd::prelude::*;
use crate::camera::Camera;
use crate::image_handling::PixelF;
use crate::ray::Ray;
use crate::traits::{Canvas, Drawable, Renderer};
use crate::vectors::{floor_sqrt, V3};

verus! {

/// What a ray met: where along the ray, how the surface faces it, how much
/// light the surface passes on, and the ray that leaves the surface.
#[derive(Clone, Copy, Debug, PartialEq, Eq, Structural)]
pub struct Collision {
    pub ray_in: Ray,
    pub ray_out: Ray,
    /// The surface normal, turned against the incoming ray.
    pub normal: V3,
    /// The ray parameter of the hit.
    pub t: i64,
    pub front_facing: bool,
    pub color: PixelF,
}

impl Collision {
    /// Whether two collisions are the same hit: everything agrees but, perhaps,
    /// the scattered ray, which a surface may choose at random.
    pub open spec fn same_surface(self, other: Collision) -> bool {
        &&& self.ray_in == other.ray_in
        &&& self.normal == other.normal
        &&& self.t == other.t
        &&& self.front_facing == other.front_facing
        &&& self.color == other.color
    }

    /// Records a hit of `ray` at parameter `t` on a surface whose outward
    /// normal there is `raw_normal`, and which scatters the ray into `ray_out`
    /// with attenuation `color`. The recorded normal is turned to face the
    /// incoming ray.
    pub fn new(ray: Ray, raw_normal: V3, t: i64, ray_out: Ray, color: PixelF) -> (c: Collision)
        requires
            raw_normal.x > i32::MIN,
            raw_normal.y > i32::MIN,
            raw_normal.z > i32::MIN,
        ensures
            c.ray_in == ray,
            c.ray_out == ray_out,
            c.t == t,
            c.color == color,
            c.front_facing == (ray.dir.dot_spec(raw_normal) < 0),
            c.normal == ray.faced(raw_normal),
    {
        let front_facing = ray.dir.dot(&raw_normal) < 0;
        let normal = ray.get_faced_normal(raw_normal);
        Collision { ray_in: ray, ray_out, normal, t, front_facing, color }
    }
}

/// Rendering configuration: how many samples are averaged per pixel and how
/// many bounces a path may take before it is treated as absorbed.
#[derive(Clone, Copy, Debug)]
pub struct Raytracer {
    pub ss_amt: usize,
    pub max_depth: usize,
}

impl Raytracer {
    /// Returns the configuration with the supersampling amount replaced.
    pub fn ss_amt(self, ss_amt: usize) -> (r: Self)
        ensures
            r.ss_amt == ss_amt,
            r.max_depth == self.max_depth,
    {
        Raytracer { ss_amt, max_depth: self.max_depth }
    }

    /// Returns the configuration with the recursion bound replaced.
    pub fn max_depth(self, max_depth: usize) -> (r: Self)
        ensures
            r.max_depth == max_depth,
            r.ss_amt == self.ss_amt,
    {
        Raytracer { ss_amt: self.ss_amt, max_depth }
    }
}

impl Default for Raytracer {
    /// Eight samples per pixel and up to 256 bounces.
    fn default() -> (rt: Self)
        ensures
            rt.ss_amt == 8,
            rt.max_depth == 256,
    {
        Self { ss_amt: 8, max_depth: 256 }
    }
}

/// One 8-bit channel of the sky: `from` where the ray points straight down,
/// `to` where it points straight up, and in between as the height `y` of
/// the direction stands to its length `len`.
pub open spec fn sky_channel(from: int, to: int, y: int, len: int) -> int {
    (from * (len - y) + to * (len + y)) / (2 * len)
}

/// The colour with the given 8-bit channels.
pub open spec fn rgb8(r: int, g: int, b: int) -> PixelF {
    PixelF { r: (r * 257) as u16, g: (g * 257) as u16, b: (b * 257) as u16 }
}

/// The colour of the sky in the direction of the ray: white straight down,
/// light blue straight up, blended by the height of the direction between
/// the two. A ray without direction sees the deepest blue.
pub open spec fn sky_color(ray: Ray) -> PixelF {
    let len = floor_sqrt(ray.dir.dot_spec(ray.dir));
    if len == 0 {
        rgb8(0, 0, 255)
    } else {
        rgb8(
            sky_channel(255, 120, ray.dir.y as int, len),
            sky_channel(255, 200, ray.dir.y as int, len),
            255,
        )
    }
}

/// The colour that a ray brings back from the scene when it has `bounces`
/// tests against the scene left and the surfaces it meets scatter it, one
/// after the other, into the rays of `scattered`.
///
/// With no test left the ray is absorbed: black. A ray that hits nothing
/// brings the colour of the sky. A ray that hits brings what the scattered
/// ray brings, attenuated by the colour of the hit.
pub open spec fn color_along<S: Drawable>(scene: S, ray: Ray, scattered: Seq<Ray>, bounces: nat) -> PixelF
    decreases bounces,
{
    if bounces == 0 {
        PixelF { r: 0, g: 0, b: 0 }
    } else {
        match scene.hit(ray) {
            None => sky_color(ray),
            Some(c) => color_along(
                scene,
                scattered[0],
                scattered.drop_first(),
                (bounces - 1) as nat,
            ).attenuated(c.color),
        }
    }
}

/// Whether `color` may be what a ray brings back from the scene when it
/// has `bounces` tests against the scene left. Into which rays the ray is
/// scattered on its way is up to the surfaces.
pub open spec fn may_color<S: Drawable>(scene: S, ray: Ray, bounces: nat, color: PixelF) -> bool {
    exists|scattered: Seq<Ray>| color == #[trigger] color_along(scene, ray, scattered, bounces)
}

/// The sum of the samples, each scaled down by the number `n`, on top of
/// black. Every addition saturates.
pub open spec fn average(samples: Seq<PixelF>, n: u64) -> PixelF
    decreases samples.len(),
{
    if samples.len() == 0 {
        PixelF { r: 0, g: 0, b: 0 }
    } else {
        average(samples.drop_last(), n).plus(samples.last().scaled(1, n))
    }
}

fn blend(from: u8, to: u8, y: i32, len: u64) -> (c: u8)
    requires
        0 < len < 0x1_0000_0000,
        -len <= y <= len,
        to <= from,
    ensures
        c == sky_channel(from as int, to as int, y as int, len as int),
        to <= c <= from,
{
    let l = len as i64;
    assert(0 <= from * (l - y) <= 255 * 0x2_0000_0000) by (nonlinear_arith)
        requires
            0 <= from <= 255,
            0 <= l - y <= 0x2_0000_0000,
    ;
    assert(0 <= to * (l + y) <= 255 * 0x2_0000_0000) by (nonlinear_arith)
        requires
            0 <= to <= 255,
            0 <= l + y <= 0x2_0000_0000,
    ;
    let lower = (from as i64) * (l - y as i64);
    let upper = (to as i64) * (l + y as i64);
    let total = lower + upper;
    proof {
        let d = 2 * l;
        assert(to * d <= from * (l - y) + to * (l + y) <= from * d) by (nonlinear_arith)
            requires
                0 <= to <= from,
                0 <= l - y,
                0 <= l + y,
                d == (l - y) + (l + y),
        ;
        vstd::arithmetic::div_mod::lemma_fundamental_div_mod(total as int, d as int);
        let q = total as int / d as int;
        let r = total as int % d as int;
        assert(d * q == q * d) by (nonlinear_arith);
        assert(to <= q) by (nonlinear_arith)
            requires
                to * d <= q * d + r,
                0 <= r < d,
                d > 0,
        ;
        assert(q <= from) by (nonlinear_arith)
            requires
                q * d + r <= from * d,
                0 <= r < d,
                d > 0,
        ;
    }
    (total / (2 * l)) as u8
}

impl Raytracer {
    /// How many tests against the scene a ray at `depth` has left.
    pub open spec fn bounces_left(self, depth: usize) -> nat {
        if depth > self.max_depth {
            0
        } else {
            (self.max_depth - depth + 1) as nat
        }
    }

    /// Whether `color` may be a sample of the pixel in column `x` of row
    /// `y`: what a ray through that pixel brings back.
    pub open spec fn may_sample<S: Drawable>(self, scene: S, camera: Camera, x: usize, y: usize, color: PixelF) -> bool {
        exists|jx: u16, jy: u16| #[trigger]
            may_color(scene, camera@.ray_within(x, y, jx, jy), self.bounces_left(0), color)
    }

    /// Whether `pixel` may be what is drawn in column `x` of row `y` of the
    /// picture: the average of as many samples as the settings ask for.
    pub open spec fn may_show<S: Drawable>(self, scene: S, camera: Camera, x: usize, y: usize, pixel: PixelF) -> bool {
        exists|samples: Seq<PixelF>|
            {
                &&& samples.len() == self.ss_amt
                &&& pixel == #[trigger] average(samples, self.ss_amt as u64)
                &&& forall|k: int|
                    0 <= k < samples.len() ==> self.may_sample(scene, camera, x, y, #[trigger] samples[k])
            }
    }

    /// Whether `after` is `before` with the scene drawn on it: the same grid
    /// at the same place, each pixel what may be drawn at its place in the
    /// picture.
    pub open spec fn rendered<S: Drawable, C: Canvas>(self, scene: S, camera: Camera, before: C, after: C) -> bool {
        &&& after.ready()
        &&& after.size() == before.size()
        &&& after.origin() == before.origin()
        &&& forall|x: usize, y: usize|
            x < after.size().0 && y < after.size().1 ==> self.may_show(
                scene,
                camera,
                (x + after.origin().0) as usize,
                (y + after.origin().1) as usize,
                #[trigger] after.pixel(x, y),
            )
    }

    /// The colour that a ray brings back from the scene.
    pub fn get_color<S: Drawable>(&self, ray: Ray, scene: &S) -> (color: PixelF)
        ensures
            may_color(*scene, ray, self.bounces_left(0), color),
    {
        self.get_color_recursive(ray, scene, 0)
    }

    /// Follows a ray and the rays scattered from it until one escapes to
    /// the sky, or until the bound on the depth is passed and the light is
    /// taken as absorbed.
    fn get_color_recursive<S: Drawable>(&self, ray: Ray, scene: &S, depth: usize) -> (color: PixelF)
        ensures
            may_color(*scene, ray, self.bounces_left(depth), color),
        decreases self.bounces_left(depth),
    {
        if depth > self.max_depth {
            assert(color_along(*scene, ray, Seq::<Ray>::empty(), 0) == (PixelF { r: 0, g: 0, b: 0 }));
            return PixelF::black();
        }
        let ghost left = self.bounces_left(depth);
        match scene.intersect(ray) {
            Some(collision) => {
                let deeper = if depth == usize::MAX {
                    assert(color_along(*scene, collision.ray_out, Seq::<Ray>::empty(), 0) == (PixelF {
                        r: 0,
                        g: 0,
                        b: 0,
                    }));
                    PixelF::black()
                } else {
                    self.get_color_recursive(collision.ray_out, scene, depth + 1)
                };
                let color = deeper.attenuate(collision.color);
                proof {
                    let further = choose|further: Seq<Ray>|
                        deeper == #[trigger] color_along(
                            *scene,
                            collision.ray_out,
                            further,
                            (left - 1) as nat,
                        );
                    let scattered = seq![collision.ray_out] + further;
                    assert(scattered.drop_first() =~= further);
                    assert(color == color_along(*scene, ray, scattered, left));
                }
                color
            },
            None => {
                let color = Self::get_sky_color(ray);
                assert(color == color_along(*scene, ray, Seq::<Ray>::empty(), left));
                color
            },
        }
    }

    /// The colour of the sky in the direction in which a ray flew off.
    pub fn get_sky_color(ray: Ray) -> (color: PixelF)
        ensures
            color == sky_color(ray),
    {
        let ghost squared = ray.dir.dot_spec(ray.dir);
        proof {
            assert(ray.dir.y * ray.dir.y <= squared) by (nonlinear_arith)
                requires
                    squared == ray.dir.x * ray.dir.x + ray.dir.y * ray.dir.y + ray.dir.z * ray.dir.z,
            ;
        }
        let len = ray.dir.magnitude();
        if len == 0 {
            return PixelF::rgb_u8(0, 0, 255);
        }
        proof {
            let y = ray.dir.y as int;
            let l = len as int;
            if y > l {
                assert((l + 1) * (l + 1) <= y * y) by (nonlinear_arith)
                    requires
                        0 <= l + 1 <= y,
                ;
            }
            if y < -l {
                assert((l + 1) * (l + 1) <= y * y) by (nonlinear_arith)
                    requires
                        0 <= l + 1 <= -y,
                ;
            }
        }
        PixelF::rgb_u8(blend(255, 120, ray.dir.y, len), blend(255, 200, ray.dir.y, len), 255)
    }
}

impl Renderer for Raytracer {
    /// Draws the scene on the canvas: for every pixel it casts as many rays
    /// as the settings ask for, each through a random point of the pixel,
    /// follows them, and adds up what they bring back, each sample scaled
    /// down by the number of samples.
    fn render<S: Drawable, C: Canvas>(&self, scene: &S, canvas: &mut C, camera: &Camera) -> (done:
        Result<(), String>)
        ensures
            done is Ok,
            self.rendered(*scene, *camera, *old(canvas), *final(canvas)),
    {
        let mut rand = rand::thread_rng();
        let bounds = canvas.bounds();
        let offset = canvas.offset();
        let mut x: usize = 0;
        while x < bounds.0
            invariant
                canvas.ready(),
                canvas.size() == bounds,
                canvas.origin() == offset,
                offset.0 + bounds.0 <= usize::MAX,
                offset.1 + bounds.1 <= usize::MAX,
                x <= bounds.0,
                forall|i: usize, j: usize|
                    i < x && j < bounds.1 ==> self.may_show(
                        *scene,
                        *camera,
                        (i + offset.0) as usize,
                        (j + offset.1) as usize,
                        #[trigger] canvas.pixel(i, j),
                    ),
            decreases bounds.0 - x,
        {
            let mut y: usize = 0;
            while y < bounds.1
                invariant
                    canvas.ready(),
                    canvas.size() == bounds,
                    canvas.origin() == offset,
                    offset.0 + bounds.0 <= usize::MAX,
                    offset.1 + bounds.1 <= usize::MAX,
                    x < bounds.0,
                    y <= bounds.1,
                    forall|i: usize, j: usize|
                        i < x && j < bounds.1 ==> self.may_show(
                            *scene,
                            *camera,
                            (i + offset.0) as usize,
                            (j + offset.1) as usize,
                            #[trigger] canvas.pixel(i, j),
                        ),
                    forall|j: usize|
                        j < y ==> self.may_show(
                            *scene,
                            *camera,
                            (x + offset.0) as usize,
                            (j + offset.1) as usize,
                            #[trigger] canvas.pixel(x, j),
                        ),
                decreases bounds.1 - y,
            {
                let mut pixel = PixelF::black();
                let ghost mut samples: Seq<PixelF> = Seq::empty();
                let mut taken: usize = 0;
                while taken < self.ss_amt
                    invariant
                        offset.0 + bounds.0 <= usize::MAX,
                        offset.1 + bounds.1 <= usize::MAX,
                        x < bounds.0,
                        y < bounds.1,
                        taken <= self.ss_amt,
                        samples.len() == taken,
                        pixel == average(samples, self.ss_amt as u64),
                        forall|k: int|
                            0 <= k < samples.len() ==> self.may_sample(
                                *scene,
                                *camera,
                                (x + offset.0) as usize,
                                (y + offset.1) as usize,
                                #[trigger] samples[k],
                            ),
                    decreases self.ss_amt - taken,
                {
                    let ray = camera.get_ray_perturbed(x + offset.0, y + offset.1, &mut rand);
                    let color = self.get_color(ray, scene);
                    pixel = pixel + color.scale(1, self.ss_amt as u64);
                    proof {
                        let so_far = samples;
                        samples = samples.push(color);
                        assert(samples.drop_last() =~= so_far);
                    }
                    taken += 1;
                }
                let ghost drawn = *canvas;
                canvas.put_pixel(x, y, pixel);
                proof {
                    assert forall|i: usize, j: usize| i < x && j < bounds.1 implies self.may_show(
                        *scene,
                        *camera,
                        (i + offset.0) as usize,
                        (j + offset.1) as usize,
                        #[trigger] canvas.pixel(i, j),
                    ) by {
                        assert(canvas.pixel(i, j) == drawn.pixel(i, j));
                    }
                    assert forall|j: usize| j < y + 1 implies self.may_show(
                        *scene,
                        *camera,
                        (x + offset.0) as usize,
                        (j + offset.1) as usize,
                        #[trigger] canvas.pixel(x, j),
                    ) by {
                        if j < y {
                            assert(canvas.pixel(x, j) == drawn.pixel(x, j));
                        }
                    }
                }
                y += 1;
            }
            x += 1;
        }
        Ok(())
    }
}

} // verus!
