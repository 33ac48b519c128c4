//! A ray tracer's spatial index and rendering engine, on an integer grid.
//!
//! A scene is a collection of primitives. The crate sorts them into a
//! bounding volume hierarchy ([`bounded_volume_hierarchy`]), flattens the
//! hierarchy into one array ([`linear_bvh`]), walks either form for the hit
//! nearest along a ray, follows scattered rays to a colour ([`raytracer`]),
//! and renders a picture whole or in bands side by side.
//!
//! All geometry is exact. Points and directions have 32-bit integer
//! coordinates, a ray's parameter is a 64-bit integer, and every comparison
//! that decides where a ray goes or on which side of a split a primitive
//! falls is made on integers wide enough to hold it, so that no decision
//! rests on a rounded value and nothing overflows. Where a value has to be
//! rounded (the centre of a box, a step across the viewport, a blended
//! colour), the contract says which way. A colour channel is a 16-bit
//! intensity. How a primitive is met by a ray, and how it scatters the ray,
//! is the primitive's own business, which it tells through the traits of
//! [`traits`].
//!
//! Every function is verified against its contract. What the contracts
//! have to take on trust is named where it stands: the partition of a slice
//! in [`bounded_volume_hierarchy`], the parallel loop over the bands in this
//! file, and the random numbers of [`random`].

use rayon::iter::{IntoParallelRefMutIterator, ParallelIterator};
use vstd::prelude::*;

pub mod bounded_volume_hierarchy;
pub mod bounds;
pub mod camera;
pub mod image_handling;
pub mod linear_bvh;
pub mod nearest;
pub mod partitionable;
pub mod prelude;
pub mod random;
pub mod ray;
pub mod raytracer;
pub mod traits;
pub mod utils;
pub mod vectors;

use crate::camera::Camera;
use crate::image_handling::{
    banded, lemma_bands_are_stacked, lemma_row_in_band, ImageBuffer, PixelF,
};
use crate::raytracer::Raytracer;
use crate::traits::{Canvas, Drawable, Renderer};

verus! {

/// The number of rows of the bands that a picture is rendered in when the
/// work is shared out.
pub const ROWS_PER_BAND: usize = 16;

/// Whether the image is a picture of the scene: whole, of the given size,
/// and each pixel what may be drawn at its place.
pub open spec fn shows<S: Drawable>(
    rt: Raytracer,
    scene: S,
    camera: Camera,
    image: ImageBuffer,
    bounds: (usize, usize),
) -> bool {
    &&& image.wf()
    &&& image.bounds == bounds
    &&& image.offset == (0usize, 0usize)
    &&& forall|x: usize, y: usize|
        x < bounds.0 && y < bounds.1 ==> rt.may_show(scene, camera, x, y, #[trigger] image.pixel(x, y))
}

/// Renders the picture in bands side by side, or as a whole.
pub fn conditional_render<S>(
    rt: &Raytracer,
    camera: &Camera,
    scene: &S,
    bounds: (usize, usize),
    parallel: bool,
) -> (image: ImageBuffer) where S: Drawable + Send + Sync
    requires
        bounds.0 * bounds.1 <= usize::MAX,
    ensures
        shows(*rt, *scene, *camera, image, bounds),
{
    if parallel {
        par_render(rt, camera, scene, bounds)
    } else {
        render(rt, camera, scene, bounds)
    }
}

/// Renders a picture of the given size.
pub fn render<S>(rt: &Raytracer, camera: &Camera, scene: &S, bounds: (usize, usize)) -> (image:
    ImageBuffer) where S: Drawable
    requires
        bounds.0 * bounds.1 <= usize::MAX,
    ensures
        shows(*rt, *scene, *camera, image, bounds),
{
    let mut image_out = ImageBuffer::new(bounds.0, bounds.1);
    let _ = rt.render(scene, &mut image_out, camera);
    image_out
}

/// Renders every band, the bands shared out among the threads of the pool.
///
/// This is rayon's `par_iter_mut().for_each(..)`, which runs the closure on
/// every item of the vector once, each item on some thread of the pool, and
/// returns when all are done. The closure renders one band. So each band
/// ends up as rendering leaves it.
#[verifier::external_body]
fn render_bands<S>(rt: &Raytracer, camera: &Camera, scene: &S, chunks: &mut Vec<ImageBuffer>) where
    S: Drawable + Sync,

    requires
        forall|i: int|
            0 <= i < old(chunks)@.len() ==> {
                &&& (#[trigger] old(chunks)@[i]).wf()
                &&& old(chunks)@[i].offset.0 + old(chunks)@[i].bounds.0 <= usize::MAX
                &&& old(chunks)@[i].offset.1 + old(chunks)@[i].bounds.1 <= usize::MAX
            },
    ensures
        final(chunks)@.len() == old(chunks)@.len(),
        forall|i: int|
            0 <= i < old(chunks)@.len() ==> rt.rendered(
                *scene,
                *camera,
                old(chunks)@[i],
                #[trigger] final(chunks)@[i],
            ),
{
    chunks.par_iter_mut().for_each(
        |chunk| {
            let _ = rt.render(scene, chunk, camera);
        },
    );
}

/// Renders a picture of the given size in bands of [`ROWS_PER_BAND`] rows,
/// which are rendered side by side and then put together from the top down
/// by [`ImageBuffer::assemble`].
pub fn par_render<S>(rt: &Raytracer, camera: &Camera, scene: &S, bounds: (usize, usize)) -> (image:
    ImageBuffer) where S: Drawable + Send + Sync
    requires
        bounds.0 * bounds.1 <= usize::MAX,
    ensures
        shows(*rt, *scene, *camera, image, bounds),
{
    let mut chunks = ImageBuffer::bands(bounds, ROWS_PER_BAND);
    let ghost blank = chunks@;
    render_bands(rt, camera, scene, &mut chunks);
    let ghost bands = chunks@;
    proof {
        assert forall|b: int| 0 <= b < bands.len() implies {
            &&& (#[trigger] bands[b]).wf()
            &&& bands[b].bounds == blank[b].bounds
            &&& bands[b].offset == blank[b].offset
        } by {
            assert(rt.rendered(*scene, *camera, blank[b], bands[b]));
        }
        assert(banded(bands, bounds, ROWS_PER_BAND));
        lemma_bands_are_stacked(bands, bounds, ROWS_PER_BAND);
    }
    let image_out = ImageBuffer::assemble(bounds.0, chunks);
    proof {
        assert forall|x: usize, y: usize| x < bounds.0 && y < bounds.1 implies rt.may_show(
            *scene,
            *camera,
            x,
            y,
            #[trigger] image_out.pixel(x, y),
        ) by {
            lemma_row_in_band(bounds.1 as int, ROWS_PER_BAND as int, y as int);
            let b = y as int / ROWS_PER_BAND as int;
            let row = (y - b * ROWS_PER_BAND) as usize;
            assert(rt.rendered(*scene, *camera, blank[b], bands[b]));
            assert(image_out.pixel(x, y) == bands[b].pixel(x, row));
            assert(rt.may_show(
                *scene,
                *camera,
                (x + bands[b].origin().0) as usize,
                (row + bands[b].origin().1) as usize,
                bands[b].pixel(x, row),
            ));
        }
    }
    image_out
}

/// Where every pixel can be drawn in one way only, as with surfaces that
/// scatter each ray in one way and a camera that aims each sample alike,
/// any two pictures of the scene are the same pixel for pixel. So it is
/// with a picture that was rendered in bands and one rendered as a whole.
pub proof fn lemma_one_picture<S: Drawable>(
    rt: Raytracer,
    scene: S,
    camera: Camera,
    bounds: (usize, usize),
    banded: ImageBuffer,
    whole: ImageBuffer,
)
    requires
        shows(rt, scene, camera, banded, bounds),
        shows(rt, scene, camera, whole, bounds),
        forall|x: usize, y: usize, p: PixelF, q: PixelF|
            rt.may_show(scene, camera, x, y, p) && rt.may_show(scene, camera, x, y, q) ==> p == q,
    ensures
        banded.pixels@ == whole.pixels@,
{
    let w = bounds.0 as int;
    assert forall|k: int| 0 <= k < banded.pixels@.len() implies banded.pixels@[k] == whole.pixels@[k] by {
        assert(w > 0) by (nonlinear_arith)
            requires
                0 <= k < w * bounds.1,
                w >= 0,
        ;
        vstd::arithmetic::div_mod::lemma_fundamental_div_mod(k, w);
        let x = (k % w) as usize;
        let y = (k / w) as usize;
        assert(w * (k / w) == (k / w) * w) by (nonlinear_arith);
        assert(0 <= k / w < bounds.1) by (nonlinear_arith)
            requires
                0 <= k < w * bounds.1,
                k == (k / w) * w + k % w,
                0 <= k % w < w,
        ;
        assert(banded.pixel(x, y) == banded.pixels@[k]);
        assert(whole.pixel(x, y) == whole.pixels@[k]);
        assert(rt.may_show(scene, camera, x, y, banded.pixel(x, y)));
        assert(rt.may_show(scene, camera, x, y, whole.pixel(x, y)));
    }
    assert(banded.pixels@ =~= whole.pixels@);
}

} // verus!
