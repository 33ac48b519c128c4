use vstd::prelude::*;
use crate::bounds::Bounds;
use crate::camera::Camera;
use crate::image_handling::PixelF;
use crate::nearest::{all_steady, lemma_scan_finds_nearest, nearest, reached};
use crate::ray::Ray;
use crate::raytracer::Collision;

verus! {

/// Anything a ray can hit: a shape, a collection of shapes, a hierarchy.
///
/// A collection or a hierarchy reports, for every ray, the hit that its
/// traversal of the items leaves. That this is the hit nearest along the
/// ray holds for items that answer as [`crate::nearest::steady`] says and,
/// in a hierarchy, stay within their boxes as [`crate::nearest::lawful`]
/// says.
pub trait Drawable {
    /// The hit that `intersect` reports for `ray`, if any. It fixes the
    /// collision up to the scattered ray.
    spec fn hit(&self, ray: Ray) -> Option<Collision>;

    /// Tests the ray against this object.
    fn intersect(&self, ray: Ray) -> (c: Option<Collision>)
        ensures
            same_hit(c, self.hit(ray)),
    ;
}

/// Something drawable that can also say which box encloses it.
pub trait Boundable: Drawable {
    /// The box that `bounds` reports.
    spec fn extent(&self) -> Bounds;

    fn bounds(&self) -> (b: Bounds)
        ensures
            b == self.extent(),
    ;
}

/// Whether two results of an intersection test report the same hit, or both
/// report none.
pub open spec fn same_hit(a: Option<Collision>, b: Option<Collision>) -> bool {
    match (a, b) {
        (None, None) => true,
        (Some(x), Some(y)) => x.same_surface(y),
        _ => false,
    }
}

/// The ray as it is tested once `found` is the closest hit so far: its far
/// limit is drawn in to that hit.
pub open spec fn shortened(ray: Ray, found: Option<Collision>) -> Ray {
    match found {
        Some(c) => ray.with_max(c.t),
        None => ray,
    }
}

/// The later hit where there is one, else the earlier.
pub open spec fn latest(earlier: Option<Collision>, later: Option<Collision>) -> Option<Collision> {
    match later {
        Some(c) => Some(c),
        None => earlier,
    }
}

/// The hit that remains after testing the items in order, each against the
/// ray as shortened by the hits before it.
pub open spec fn closest_in<D: Drawable>(items: Seq<D>, ray: Ray) -> Option<Collision>
    decreases items.len(),
{
    if items.len() == 0 {
        None
    } else {
        let before = closest_in(items.drop_last(), ray);
        latest(before, items.last().hit(shortened(ray, before)))
    }
}

/// Intersects a ray with every item of a collection, in order, and returns
/// the hit that remains. Each hit draws in the ray's far limit before the
/// next item is tested.
///
/// Where the items are steady, this is the hit nearest along the ray.
pub fn intersect_collection<D: Drawable>(collection: &[D], ray: Ray) -> (out: Option<Collision>)
    ensures
        same_hit(out, closest_in(collection@, ray)),
        all_steady(collection@) ==> reached(out) == nearest(collection@, ray),
{
    let mut out: Option<Collision> = None;
    let mut ray = ray;
    let ghost start = ray;
    let n = collection.len();
    let mut i: usize = 0;
    while i < n
        invariant
            n == collection@.len(),
            i <= n,
            same_hit(out, closest_in(collection@.take(i as int), start)),
            ray == shortened(start, closest_in(collection@.take(i as int), start)),
        decreases n - i,
    {
        proof {
            assert(collection@.take(i + 1).drop_last() == collection@.take(i as int));
        }
        if let Some(coll) = collection[i].intersect(ray) {
            ray.max = coll.t;
            out = Some(coll);
        }
        i += 1;
    }
    proof {
        assert(collection@.take(n as int) == collection@);
        if all_steady(collection@) {
            lemma_scan_finds_nearest(collection@, start);
        }
    }
    out
}

impl<D: Drawable> Drawable for Vec<D> {
    open spec fn hit(&self, ray: Ray) -> Option<Collision> {
        closest_in(self@, ray)
    }

    fn intersect(&self, ray: Ray) -> (c: Option<Collision>)
        ensures
            all_steady(self@) ==> reached(c) == nearest(self@, ray),
    {
        intersect_collection(self.as_slice(), ray)
    }
}

/// A grid of pixels that can be drawn on, placed somewhere in a larger image.
pub trait Canvas {
    /// Whether the grid is whole: it holds a pixel for each of its places.
    spec fn ready(&self) -> bool;

    /// Width and height of the grid.
    spec fn size(&self) -> (usize, usize);

    /// Column and row of the grid's first pixel in the larger image.
    spec fn origin(&self) -> (usize, usize);

    /// The pixel in column `x` of row `y`.
    spec fn pixel(&self, x: usize, y: usize) -> PixelF;

    fn put_pixel(&mut self, x: usize, y: usize, pixel: PixelF)
        requires
            old(self).ready(),
            x < old(self).size().0,
            y < old(self).size().1,
        ensures
            final(self).ready(),
            final(self).size() == old(self).size(),
            final(self).origin() == old(self).origin(),
            final(self).pixel(x, y) == pixel,
            forall|i: usize, j: usize|
                i < old(self).size().0 && j < old(self).size().1 && (i != x || j != y)
                    ==> final(self).pixel(i, j) == old(self).pixel(i, j),
    ;

    fn bounds(&self) -> (b: (usize, usize))
        ensures
            b == self.size(),
    ;

    fn offset(&self) -> (o: (usize, usize))
        ensures
            o == self.origin(),
    ;
}

/// Something that draws a scene on a canvas, as seen through a camera.
pub trait Renderer {
    /// Draws the scene on the canvas. The canvas must lie within the picture
    /// as far as pixels can be counted.
    fn render<S: Drawable, C: Canvas>(&self, scene: &S, canvas: &mut C, camera: &Camera) -> (done:
        Result<(), String>)
        requires
            old(canvas).ready(),
            old(canvas).origin().0 + old(canvas).size().0 <= usize::MAX,
            old(canvas).origin().1 + old(canvas).size().1 <= usize::MAX,
        ensures
            final(canvas).ready(),
            final(canvas).size() == old(canvas).size(),
            final(canvas).origin() == old(canvas).origin(),
    ;
}

} // verus!
