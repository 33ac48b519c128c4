use vstd::prelude::*;
use crate::random::draw;
use crate::traits::Canvas;

verus! {

/// The channel value that stands for full intensity.
pub const CHANNEL_MAX: u16 = 0xffff;

/// A colour, each channel an intensity between 0 and [`CHANNEL_MAX`].
#[derive(Clone, Copy, Debug, PartialEq, Eq, Structural)]
pub struct PixelF {
    pub r: u16,
    pub g: u16,
    pub b: u16,
}

/// The 8-bit value nearest to a channel: `round(c * 255 / 65535)`.
pub open spec fn channel_to_u8(c: u16) -> int {
    (c * 255 + 32767) / 65535
}

/// The product of two intensities, as an intensity: `round(a * b / 65535)`.
pub open spec fn channel_product(a: u16, b: u16) -> int {
    (a * b + 32767) / 65535
}

/// The channel scaled by `num / den`, rounded down and held at full
/// intensity.
pub open spec fn channel_scaled(c: u16, num: u64, den: u64) -> int {
    if c * num / (den as int) > 65535 {
        65535
    } else {
        c * num / (den as int)
    }
}

/// The sum of two intensities, held at full intensity.
pub open spec fn channel_sum(a: u16, b: u16) -> int {
    if a + b > 65535 {
        65535
    } else {
        a + b
    }
}

fn attenuate_channel(a: u16, b: u16) -> (c: u16)
    ensures
        c == channel_product(a, b),
{
    assert(0 <= a * b <= 65535 * 65535) by (nonlinear_arith)
        requires
            0 <= a <= 65535,
            0 <= b <= 65535,
    ;
    let p: u64 = (a as u64) * (b as u64);
    ((p + 32767) / 65535) as u16
}

fn scale_channel(c: u16, num: u64, den: u64) -> (s: u16)
    requires
        den > 0,
    ensures
        s == channel_scaled(c, num, den),
{
    assert(0 <= c * num <= 65535 * 0xffff_ffff_ffff_ffff) by (nonlinear_arith)
        requires
            0 <= c <= 65535,
            0 <= num <= 0xffff_ffff_ffff_ffff,
    ;
    let q: u128 = (c as u128) * (num as u128) / (den as u128);
    if q > 65535 {
        65535
    } else {
        q as u16
    }
}

fn add_channel(a: u16, b: u16) -> (s: u16)
    ensures
        s == channel_sum(a, b),
{
    let sum: u32 = a as u32 + b as u32;
    if sum > 65535 {
        65535
    } else {
        sum as u16
    }
}

impl PixelF {
    /// Channel-wise product of two colours.
    pub open spec fn attenuated(self, other: PixelF) -> PixelF {
        PixelF {
            r: channel_product(self.r, other.r) as u16,
            g: channel_product(self.g, other.g) as u16,
            b: channel_product(self.b, other.b) as u16,
        }
    }

    /// The colour scaled by `num / den`.
    pub open spec fn scaled(self, num: u64, den: u64) -> PixelF {
        PixelF {
            r: channel_scaled(self.r, num, den) as u16,
            g: channel_scaled(self.g, num, den) as u16,
            b: channel_scaled(self.b, num, den) as u16,
        }
    }

    /// Channel-wise saturating sum of two colours.
    pub open spec fn plus(self, other: PixelF) -> PixelF {
        PixelF {
            r: channel_sum(self.r, other.r) as u16,
            g: channel_sum(self.g, other.g) as u16,
            b: channel_sum(self.b, other.b) as u16,
        }
    }

    pub fn black() -> (p: PixelF)
        ensures
            p == (PixelF { r: 0, g: 0, b: 0 }),
    {
        PixelF { r: 0, g: 0, b: 0 }
    }

    pub fn rgb(r: u16, g: u16, b: u16) -> (p: PixelF)
        ensures
            p == (PixelF { r, g, b }),
    {
        PixelF { r, g, b }
    }

    /// The colour with the given 8-bit channels.
    pub fn rgb_u8(r: u8, g: u8, b: u8) -> (p: PixelF)
        ensures
            p == (PixelF { r: (r * 257) as u16, g: (g * 257) as u16, b: (b * 257) as u16 }),
            channel_to_u8(p.r) == r,
            channel_to_u8(p.g) == g,
            channel_to_u8(p.b) == b,
    {
        PixelF { r: Self::color_u8_to_u16(r), g: Self::color_u8_to_u16(g), b: Self::color_u8_to_u16(b) }
    }

    /// Widens an 8-bit channel: 0 stays 0 and 255 becomes full intensity.
    pub fn color_u8_to_u16(u: u8) -> (c: u16)
        ensures
            c == u * 257,
            channel_to_u8(c) == u,
    {
        (u as u16) * 257
    }

    /// The 8-bit value nearest to a channel.
    pub fn color_u16_to_u8(c: u16) -> (u: u8)
        ensures
            u == channel_to_u8(c),
    {
        (((c as u32) * 255 + 32767) / 65535) as u8
    }

    /// Channel-wise product: what is left of this colour after a surface of
    /// colour `other` has absorbed its share.
    pub fn attenuate(self, other: PixelF) -> (p: PixelF)
        ensures
            p == self.attenuated(other),
    {
        PixelF {
            r: attenuate_channel(self.r, other.r),
            g: attenuate_channel(self.g, other.g),
            b: attenuate_channel(self.b, other.b),
        }
    }

    /// Scales every channel by `num / den`, holding it at full intensity.
    pub fn scale(self, num: u64, den: u64) -> (p: PixelF)
        requires
            den > 0,
        ensures
            p == self.scaled(num, den),
    {
        PixelF {
            r: scale_channel(self.r, num, den),
            g: scale_channel(self.g, num, den),
            b: scale_channel(self.b, num, den),
        }
    }

    /// A colour drawn at random from the calling thread's generator.
    pub fn random() -> PixelF {
        let mut r = rand::thread_rng();
        let red = draw(&mut r);
        let green = draw(&mut r);
        let blue = draw(&mut r);
        Self::rgb(red, green, blue)
    }

    /// The three channels as 8-bit values, red first.
    pub fn to_bytes(self) -> (bytes: [u8; 3])
        ensures
            bytes@ == seq![
                channel_to_u8(self.r) as u8,
                channel_to_u8(self.g) as u8,
                channel_to_u8(self.b) as u8,
            ],
    {
        [Self::color_u16_to_u8(self.r), Self::color_u16_to_u8(self.g), Self::color_u16_to_u8(self.b)]
    }
}

impl core::ops::Add for PixelF {
    type Output = PixelF;

    /// Channel-wise sum that saturates at full intensity.
    fn add(self, rhs: PixelF) -> (p: PixelF) {
        PixelF {
            r: add_channel(self.r, rhs.r),
            g: add_channel(self.g, rhs.g),
            b: add_channel(self.b, rhs.b),
        }
    }
}

impl vstd::std_specs::ops::AddSpecImpl for PixelF {
    open spec fn obeys_add_spec() -> bool {
        true
    }

    open spec fn add_req(self, rhs: PixelF) -> bool {
        true
    }

    open spec fn add_spec(self, rhs: PixelF) -> PixelF {
        self.plus(rhs)
    }
}

/// A grid of pixels, stored row by row, together with the place of its first
/// row and column in a larger image.
#[derive(Debug)]
pub struct ImageBuffer {
    /// Width and height.
    pub bounds: (usize, usize),
    /// Column and row of the first pixel in the larger image.
    pub offset: (usize, usize),
    pub pixels: Vec<PixelF>,
}

/// The number of bands of `rows_per_band` rows that cover `height` rows, the
/// last of them perhaps shorter.
pub open spec fn band_count(height: int, rows_per_band: int) -> int {
    if height % rows_per_band > 0 {
        height / rows_per_band + 1
    } else {
        height / rows_per_band
    }
}

/// The number of rows of band `b`: `rows_per_band`, but for a last band that
/// holds the rows that are left over.
pub open spec fn band_rows(height: int, rows_per_band: int, b: int) -> int {
    if height - b * rows_per_band < rows_per_band {
        height - b * rows_per_band
    } else {
        rows_per_band
    }
}

/// The number of rows that the first `n` of the images have together.
pub open spec fn rows_before(chunks: Seq<ImageBuffer>, n: int) -> int
    decreases n,
{
    if n <= 0 {
        0
    } else {
        rows_before(chunks, n - 1) + chunks[n - 1].bounds.1
    }
}

/// Whether the images are the bands of one picture, from the top down: each
/// is whole and `width` wide, and each starts at the row where the one
/// before it ends.
pub open spec fn stacked(chunks: Seq<ImageBuffer>, width: usize) -> bool {
    forall|b: int|
        0 <= b < chunks.len() ==> {
            &&& (#[trigger] chunks[b]).wf()
            &&& chunks[b].bounds.0 == width
            &&& chunks[b].offset.1 == rows_before(chunks, b)
        }
}

/// Whether the images have the sizes and places of the bands of
/// `rows_per_band` rows into which a picture of the given size divides.
pub open spec fn banded(chunks: Seq<ImageBuffer>, bounds: (usize, usize), rows_per_band: usize) -> bool {
    &&& chunks.len() == band_count(bounds.1 as int, rows_per_band as int)
    &&& forall|b: int|
        0 <= b < chunks.len() ==> {
            &&& (#[trigger] chunks[b]).wf()
            &&& chunks[b].bounds.0 == bounds.0
            &&& chunks[b].bounds.1 == band_rows(bounds.1 as int, rows_per_band as int, b)
            &&& chunks[b].offset.1 == b * rows_per_band
        }
}

impl ImageBuffer {
    /// Whether there is one pixel for every place of the grid.
    pub open spec fn wf(self) -> bool {
        self.pixels@.len() == self.bounds.0 * self.bounds.1
    }

    /// Whether every pixel is black.
    pub open spec fn blank(self) -> bool {
        forall|i: int| 0 <= i < self.pixels@.len() ==> self.pixels@[i] == (PixelF { r: 0, g: 0, b: 0 })
    }

    /// A black image of the given size, placed at the origin.
    pub fn new(width: usize, height: usize) -> (image: Self)
        requires
            width * height <= usize::MAX,
        ensures
            image.bounds == (width, height),
            image.offset == (0usize, 0usize),
            image.wf(),
            image.blank(),
    {
        ImageBuffer { bounds: (width, height), offset: (0, 0), pixels: vec![PixelF::black(); width * height] }
    }

    pub fn width(&self) -> (w: usize)
        ensures
            w == self.bounds.0,
    {
        self.bounds.0
    }

    pub fn height(&self) -> (h: usize)
        ensures
            h == self.bounds.1,
    {
        self.bounds.1
    }

    /// Black bands that together cover an image of the given size: each as
    /// wide as the image and `rows_per_band` rows high, but for a last band
    /// that holds the rows left over, and each placed right below the one
    /// before it.
    pub fn bands(bounds: (usize, usize), rows_per_band: usize) -> (chunks: Vec<ImageBuffer>)
        requires
            rows_per_band > 0,
            bounds.0 * bounds.1 <= usize::MAX,
        ensures
            chunks@.len() == band_count(bounds.1 as int, rows_per_band as int),
            forall|b: int|
                0 <= b < chunks@.len() ==> {
                    &&& (#[trigger] chunks@[b]).bounds.0 == bounds.0
                    &&& chunks@[b].bounds.1 == band_rows(bounds.1 as int, rows_per_band as int, b)
                    &&& chunks@[b].bounds.1 > 0
                    &&& chunks@[b].offset == (0usize, (b * rows_per_band) as usize)
                    &&& b * rows_per_band + chunks@[b].bounds.1 <= bounds.1
                    &&& chunks@[b].wf()
                    &&& chunks@[b].blank()
                },
            chunks@.len() > 0 ==> (chunks@.len() - 1) * rows_per_band + chunks@.last().bounds.1
                == bounds.1,
            banded(chunks@, bounds, rows_per_band),
    {
        let remainder_band_rows = bounds.1 % rows_per_band;
        let full_bands = bounds.1 / rows_per_band;
        proof {
            lemma_bands_fit(bounds.1 as int, rows_per_band as int);
        }
        let num_bands = full_bands + if remainder_band_rows > 0 {
            1
        } else {
            0
        };
        let mut chunks: Vec<ImageBuffer> = Vec::with_capacity(num_bands);
        let mut b: usize = 0;
        while b < num_bands
            invariant
                rows_per_band > 0,
                bounds.0 * bounds.1 <= usize::MAX,
                remainder_band_rows == bounds.1 % rows_per_band,
                full_bands == bounds.1 / rows_per_band,
                num_bands == band_count(bounds.1 as int, rows_per_band as int),
                b <= num_bands,
                chunks@.len() == b,
                forall|k: int|
                    0 <= k < chunks@.len() ==> {
                        &&& (#[trigger] chunks@[k]).bounds.0 == bounds.0
                        &&& chunks@[k].bounds.1 == band_rows(bounds.1 as int, rows_per_band as int, k)
                        &&& chunks@[k].bounds.1 > 0
                        &&& chunks@[k].offset == (0usize, (k * rows_per_band) as usize)
                        &&& k * rows_per_band + chunks@[k].bounds.1 <= bounds.1
                        &&& chunks@[k].wf()
                        &&& chunks@[k].blank()
                    },
            decreases num_bands - b,
        {
            let is_remainder_band = remainder_band_rows > 0 && b == num_bands - 1;
            let rows = if is_remainder_band {
                remainder_band_rows
            } else {
                rows_per_band
            };
            proof {
                lemma_band_in_image(bounds.1 as int, rows_per_band as int, b as int);
                lemma_band_has_room(bounds.0 as int, bounds.1 as int, rows as int);
            }
            let mut chunk = ImageBuffer::new(bounds.0, rows);
            chunk.offset = (0, b * rows_per_band);
            chunks.push(chunk);
            b += 1;
        }
        proof {
            if num_bands > 0 {
                lemma_band_in_image(bounds.1 as int, rows_per_band as int, num_bands - 1);
            }
        }
        chunks
    }

    /// Bands that together are this image: each is as wide as the image and
    /// `rows_per_band` rows high, but for a last band that holds the rows
    /// left over, and each holds its rows of the image itself. What is
    /// drawn on a band is drawn on the image.
    pub fn bands_in_place(&mut self, rows_per_band: usize) -> (chunks: Vec<InPlaceSubBuffer<'_>>)
        requires
            rows_per_band > 0,
            old(self).wf(),
        ensures
            chunks@.len() == band_count(old(self).bounds.1 as int, rows_per_band as int),
            forall|b: int|
                0 <= b < chunks@.len() ==> {
                    &&& (#[trigger] chunks@[b]).bounds.0 == old(self).bounds.0
                    &&& chunks@[b].bounds.1 == band_rows(
                        old(self).bounds.1 as int,
                        rows_per_band as int,
                        b,
                    )
                    &&& chunks@[b].offset == (0usize, (b * rows_per_band) as usize)
                    &&& chunks@[b].wf()
                    &&& chunks@[b].pixels@ == old(self).pixels@.subrange(
                        b * rows_per_band * old(self).bounds.0,
                        (b * rows_per_band + chunks@[b].bounds.1) * old(self).bounds.0,
                    )
                },
            final(self).bounds == old(self).bounds,
            final(self).offset == old(self).offset,
            exists|finals: Seq<Seq<PixelF>>|
                {
                    &&& finals.len() == chunks@.len()
                    &&& forall|b: int|
                        0 <= b < chunks@.len() ==> #[trigger] finals[b] == final(chunks@[b].pixels)@
                    &&& final(self).pixels@ == finals.flatten()
                },
    {
        let w = self.bounds.0;
        let h = self.bounds.1;
        let ghost given = self.pixels@;
        let remainder_band_rows = h % rows_per_band;
        proof {
            lemma_bands_fit(h as int, rows_per_band as int);
        }
        let num_bands = h / rows_per_band + if remainder_band_rows > 0 {
            1
        } else {
            0
        };
        let mut chunks: Vec<InPlaceSubBuffer<'_>> = Vec::with_capacity(num_bands);
        let mut rest: &mut [PixelF] = self.pixels.as_mut_slice();
        let mut b: usize = 0;
        let mut start: usize = 0;
        proof {
            assert(Seq::<Seq<PixelF>>::empty().flatten() =~= Seq::<PixelF>::empty());
            assert(after_borrow(self.pixels)@ == Seq::<Seq<PixelF>>::empty().flatten() + final(rest)@);
            assert(w * (h - 0) == w * h) by (nonlinear_arith);
            assert(0 * w == 0) by (nonlinear_arith);
            assert(rest@ =~= given.subrange(0, given.len() as int));
        }
        while b < num_bands
            invariant
                rows_per_band > 0,
                given.len() == w * h,
                remainder_band_rows == h % rows_per_band,
                num_bands == band_count(h as int, rows_per_band as int),
                b <= num_bands,
                chunks@.len() == b,
                start == b * rows_per_band || (b == num_bands && start == h),
                start <= h,
                rest@.len() == w * (h - start),
                rest@ == given.subrange(start * w, given.len() as int),
                forall|k: int|
                    0 <= k < chunks@.len() ==> {
                        &&& (#[trigger] chunks@[k]).bounds.0 == w
                        &&& chunks@[k].bounds.1 == band_rows(h as int, rows_per_band as int, k)
                        &&& chunks@[k].offset == (0usize, (k * rows_per_band) as usize)
                        &&& chunks@[k].wf()
                        &&& chunks@[k].pixels@ == given.subrange(
                            k * rows_per_band * w,
                            (k * rows_per_band + chunks@[k].bounds.1) * w,
                        )
                    },
                exists|finals: Seq<Seq<PixelF>>|
                    {
                        &&& finals.len() == b
                        &&& forall|k: int| 0 <= k < b ==> #[trigger] finals[k] == final(chunks@[k].pixels)@
                        &&& after_borrow(self.pixels)@ == finals.flatten() + final(rest)@
                    },
            decreases num_bands - b,
        {
            let is_remainder_band = remainder_band_rows > 0 && b == num_bands - 1;
            let rows = if is_remainder_band {
                remainder_band_rows
            } else {
                rows_per_band
            };
            proof {
                lemma_band_in_image(h as int, rows_per_band as int, b as int);
                lemma_band_has_room(w as int, (h - start) as int, rows as int);
                lemma_rows_add_up(w as int, start as int, rows as int);
                lemma_rows_add_up(w as int, (start + rows) as int, h - (start + rows));
                assert(w * start == start * w) by (nonlinear_arith);
                assert(w * (start + rows) == (start + rows) * w) by (nonlinear_arith);
                assert(w * (h - start) == w * rows + w * (h - (start + rows))) by (nonlinear_arith);
                assert(rest@.len() == rest.len());
            }
            let ghost before = choose|finals: Seq<Seq<PixelF>>|
                {
                    &&& finals.len() == b
                    &&& forall|k: int| 0 <= k < b ==> #[trigger] finals[k] == final(chunks@[k].pixels)@
                    &&& after_borrow(self.pixels)@ == finals.flatten() + final(rest)@
                };
            let ghost remaining = rest@;
            let (head, tail) = rest.split_at_mut(w * rows);
            proof {
                let now = before.push(final(head)@);
                before.lemma_flatten_push(final(head)@);
                assert(now.flatten() + final(tail)@ =~= before.flatten() + (final(head)@ + final(tail)@));
                assert(after_borrow(self.pixels)@ == now.flatten() + final(tail)@);
                assert(head@ =~= given.subrange(start * w, (start + rows) * w));
                assert(tail@ =~= given.subrange((start + rows) * w, given.len() as int));
            }
            chunks.push(InPlaceSubBuffer { bounds: (w, rows), offset: (0, start), pixels: head });
            rest = tail;
            start = start + rows;
            b += 1;
        }
        proof {
            vstd::arithmetic::div_mod::lemma_fundamental_div_mod(h as int, rows_per_band as int);
            assert(rows_per_band * (h / rows_per_band) == (h / rows_per_band) * rows_per_band)
                by (nonlinear_arith);
            if start != h {
                assert(num_bands * rows_per_band == (h / rows_per_band) * rows_per_band
                    + rows_per_band) by (nonlinear_arith)
                    requires
                        num_bands == h / rows_per_band + 1,
                ;
            }
            assert(start == h);
            assert(w * (h - start) == 0) by (nonlinear_arith)
                requires
                    start == h,
            ;
            assert(rest@.len() == 0);
            assert(final(rest)@ == rest@);
        }
        chunks
    }

    /// Puts the rows of `other` below the rows of this image, and leaves
    /// `other` without pixels. `other` must be the band that starts where
    /// this image ends.
    pub fn append_rows(&mut self, other: &mut ImageBuffer)
        requires
            old(other).offset.1 == old(self).bounds.1,
            old(self).bounds.1 + old(other).bounds.1 <= usize::MAX,
        ensures
            final(self).pixels@ == old(self).pixels@ + old(other).pixels@,
            final(self).bounds == (old(self).bounds.0, (old(self).bounds.1 + old(other).bounds.1) as usize),
            final(self).offset == old(self).offset,
            final(other).pixels@ == Seq::<PixelF>::empty(),
            final(other).bounds == old(other).bounds,
            final(other).offset == old(other).offset,
            old(self).wf() && old(other).wf() && old(self).bounds.0 == old(other).bounds.0 ==> final(self).wf(),
    {
        proof {
            lemma_rows_add_up(self.bounds.0 as int, self.bounds.1 as int, other.bounds.1 as int);
        }
        self.pixels.append(&mut other.pixels);
        self.bounds.1 += other.bounds.1;
    }

    /// Puts bands together into one picture, from the top down.
    ///
    /// The bands must be given in the order of their rows, each starting
    /// where the one before it ends. Every pixel of every band then stands
    /// in the picture at the band's place: the pixel in column `x` of row
    /// `y` of a band that starts at row `r` is the pixel in column `x` of
    /// row `r + y` of the picture. Who filled the bands, and in which order,
    /// makes no difference.
    pub fn assemble(width: usize, chunks: Vec<ImageBuffer>) -> (image: ImageBuffer)
        requires
            stacked(chunks@, width),
            rows_before(chunks@, chunks@.len() as int) <= usize::MAX,
        ensures
            image.wf(),
            image.bounds == (width, rows_before(chunks@, chunks@.len() as int) as usize),
            image.offset == (0usize, 0usize),
            forall|b: int, x: usize, y: usize|
                0 <= b < chunks@.len() && x < width && y < chunks@[b].bounds.1 ==> image.pixels@[(
                chunks@[b].offset.1 + y) * width + x] == #[trigger] chunks@[b].pixel(x, y),
    {
        let ghost given = chunks@;
        let mut image_out = ImageBuffer::new(width, 0);
        for chunk in it: chunks
            invariant
                it.seq() == given,
                stacked(given, width),
                rows_before(given, given.len() as int) <= usize::MAX,
                image_out.wf(),
                image_out.bounds == (width, rows_before(given, it.index()) as usize),
                image_out.offset == (0usize, 0usize),
                forall|b: int, x: usize, y: usize|
                    0 <= b < it.index() && x < width && y < given[b].bounds.1 ==> image_out.pixels@[(
                    given[b].offset.1 + y) * width + x] == #[trigger] given[b].pixel(x, y),
        {
            let ghost n = it.index();
            let ghost above = image_out;
            let mut chunk = chunk;
            proof {
                assert(chunk == given[n]);
                lemma_rows_before_grow(given, n, n + 1);
                lemma_rows_before_grow(given, n + 1, given.len() as int);
            }
            let ghost band = chunk;
            image_out.append_rows(&mut chunk);
            proof {
                let w = width as int;
                let r = above.bounds.1 as int;
                assert(above.pixels@.len() == r * w) by (nonlinear_arith)
                    requires
                        above.pixels@.len() == w * r,
                ;
                assert forall|b: int, x: usize, y: usize|
                    0 <= b < n + 1 && x < width && y < given[b].bounds.1 implies image_out.pixels@[(
                    given[b].offset.1 + y) * width + x] == #[trigger] given[b].pixel(x, y) by {
                    if b < n {
                        lemma_rows_before_grow(given, b + 1, n);
                        lemma_cell_index(w, r, x as int, given[b].offset.1 + y);
                        assert(r * w == w * r) by (nonlinear_arith);
                    } else {
                        lemma_cell_index(w, band.bounds.1 as int, x as int, y as int);
                        assert((r + y) * w + x == r * w + (y * w + x)) by (nonlinear_arith);
                    }
                }
            }
        }
        image_out
    }

    /// The pixels as bytes, three to a pixel, red first.
    pub fn to_bytes(&self) -> (bytes: Vec<u8>)
        ensures
            bytes@.len() == 3 * self.pixels@.len(),
            forall|i: int|
                0 <= i < self.pixels@.len() ==> {
                    &&& bytes@[3 * i] == channel_to_u8((#[trigger] self.pixels@[i]).r)
                    &&& bytes@[3 * i + 1] == channel_to_u8(self.pixels@[i].g)
                    &&& bytes@[3 * i + 2] == channel_to_u8(self.pixels@[i].b)
                },
    {
        let mut bytes: Vec<u8> = Vec::new();
        let n = self.pixels.len();
        let mut i: usize = 0;
        while i < n
            invariant
                n == self.pixels@.len(),
                i <= n,
                bytes@.len() == 3 * i,
                forall|k: int|
                    0 <= k < i ==> {
                        &&& bytes@[3 * k] == channel_to_u8((#[trigger] self.pixels@[k]).r)
                        &&& bytes@[3 * k + 1] == channel_to_u8(self.pixels@[k].g)
                        &&& bytes@[3 * k + 2] == channel_to_u8(self.pixels@[k].b)
                    },
            decreases n - i,
        {
            let px = self.pixels[i].to_bytes();
            bytes.push(px[0]);
            bytes.push(px[1]);
            bytes.push(px[2]);
            i += 1;
        }
        bytes
    }
}

/// A band of an image that holds its rows of the image itself: what is
/// drawn on it is drawn on the image.
#[derive(Debug)]
pub struct InPlaceSubBuffer<'parent> {
    /// Width and height.
    pub bounds: (usize, usize),
    /// Column and row of the first pixel in the image.
    pub offset: (usize, usize),
    pub pixels: &'parent mut [PixelF],
}

impl<'parent> InPlaceSubBuffer<'parent> {
    /// Whether there is one pixel for every place of the grid.
    pub open spec fn wf(self) -> bool {
        self.pixels@.len() == self.bounds.0 * self.bounds.1
    }
}

impl<'parent> Canvas for InPlaceSubBuffer<'parent> {
    open spec fn ready(&self) -> bool {
        self.wf()
    }

    open spec fn size(&self) -> (usize, usize) {
        self.bounds
    }

    open spec fn origin(&self) -> (usize, usize) {
        self.offset
    }

    open spec fn pixel(&self, x: usize, y: usize) -> PixelF {
        self.pixels@[y * self.bounds.0 + x]
    }

    fn put_pixel(&mut self, x: usize, y: usize, pixel: PixelF) {
        proof {
            lemma_cell_index(self.bounds.0 as int, self.bounds.1 as int, x as int, y as int);
        }
        let w = self.bounds.0;
        assert(w * self.bounds.1 == self.pixels.len());
        self.pixels[y * w + x] = pixel;
        proof {
            assert forall|i: usize, j: usize|
                i < self.bounds.0 && j < self.bounds.1 && (i != x || j != y) implies #[trigger] self.pixel(
                i,
                j,
            ) == old(self).pixel(i, j) by {
                lemma_cells_differ(w as int, i as int, j as int, x as int, y as int);
                lemma_cell_index(w as int, self.bounds.1 as int, i as int, j as int);
            }
        }
    }

    fn bounds(&self) -> (b: (usize, usize)) {
        self.bounds
    }

    fn offset(&self) -> (o: (usize, usize)) {
        self.offset
    }
}

impl Canvas for ImageBuffer {
    open spec fn ready(&self) -> bool {
        self.wf()
    }

    open spec fn size(&self) -> (usize, usize) {
        self.bounds
    }

    open spec fn origin(&self) -> (usize, usize) {
        self.offset
    }

    open spec fn pixel(&self, x: usize, y: usize) -> PixelF {
        self.pixels@[y * self.bounds.0 + x]
    }

    fn put_pixel(&mut self, x: usize, y: usize, pixel: PixelF) {
        proof {
            lemma_cell_index(self.bounds.0 as int, self.bounds.1 as int, x as int, y as int);
        }
        let w = self.bounds.0;
        assert(w * self.bounds.1 == self.pixels.len());
        self.pixels[y * w + x] = pixel;
        proof {
            assert forall|i: usize, j: usize|
                i < self.bounds.0 && j < self.bounds.1 && (i != x || j != y) implies #[trigger] self.pixel(
                i,
                j,
            ) == old(self).pixel(i, j) by {
                lemma_cells_differ(w as int, i as int, j as int, x as int, y as int);
                lemma_cell_index(w as int, self.bounds.1 as int, i as int, j as int);
            }
        }
    }

    fn bounds(&self) -> (b: (usize, usize)) {
        self.bounds
    }

    fn offset(&self) -> (o: (usize, usize)) {
        self.offset
    }
}

/// The place of a cell in a grid stored row by row lies within the grid.
proof fn lemma_cell_index(w: int, h: int, x: int, y: int)
    requires
        0 <= x < w,
        0 <= y < h,
    ensures
        0 <= y * w + x < w * h,
        0 <= y * w <= w * h,
{
    assert(y * w + w <= h * w) by (nonlinear_arith)
        requires
            0 <= y < h,
            0 < w,
    ;
    assert(h * w == w * h) by (nonlinear_arith);
    assert(0 <= y * w) by (nonlinear_arith)
        requires
            0 <= y,
            0 < w,
    ;
}

/// Two cells of a row-by-row grid that stand at one place are one cell.
proof fn lemma_cells_differ(w: int, i: int, j: int, x: int, y: int)
    requires
        0 <= i < w,
        0 <= x < w,
        0 <= j,
        0 <= y,
        i != x || j != y,
    ensures
        j * w + i != y * w + x,
{
    if j < y {
        assert(j * w + w <= y * w) by (nonlinear_arith)
            requires
                j < y,
                0 < w,
        ;
    } else if y < j {
        assert(y * w + w <= j * w) by (nonlinear_arith)
            requires
                y < j,
                0 < w,
        ;
    }
}

/// Every row of a picture lies in one of its bands: row `y` in band
/// `y / rows_per_band`.
pub proof fn lemma_row_in_band(h: int, r: int, y: int)
    requires
        0 <= y < h,
        0 < r,
    ensures
        0 <= y / r < band_count(h, r),
        (y / r) * r <= y < (y / r) * r + band_rows(h, r, y / r),
{
    vstd::arithmetic::div_mod::lemma_fundamental_div_mod(y, r);
    vstd::arithmetic::div_mod::lemma_fundamental_div_mod(h, r);
    let b = y / r;
    let q = h / r;
    assert(r * b == b * r) by (nonlinear_arith);
    assert(r * q == q * r) by (nonlinear_arith);
    assert(0 <= b) by (nonlinear_arith)
        requires
            b * r + y % r >= 0,
            0 <= y % r < r,
            r > 0,
    ;
    if b > q {
        assert(b * r >= q * r + r) by (nonlinear_arith)
            requires
                b >= q + 1,
                r > 0,
        ;
    }
    if b == q {
        assert(h % r > 0);
    }
    lemma_band_in_image(h, r, b);
}

/// The more bands are counted, the more rows they have together.
pub proof fn lemma_rows_before_grow(chunks: Seq<ImageBuffer>, a: int, b: int)
    requires
        a <= b,
    ensures
        rows_before(chunks, a) <= rows_before(chunks, b),
        0 <= rows_before(chunks, a),
    decreases b - a, b,
{
    if a < b {
        lemma_rows_before_grow(chunks, a, b - 1);
    } else if a > 0 {
        lemma_rows_before_grow(chunks, a - 1, a - 1);
    }
}

/// Images that have the sizes and places of the bands of a picture stand
/// one below the other and have the rows of the picture together.
pub proof fn lemma_bands_are_stacked(chunks: Seq<ImageBuffer>, bounds: (usize, usize), rows_per_band: usize)
    requires
        rows_per_band > 0,
        banded(chunks, bounds, rows_per_band),
    ensures
        stacked(chunks, bounds.0),
        rows_before(chunks, chunks.len() as int) == bounds.1,
{
    let h = bounds.1 as int;
    let r = rows_per_band as int;
    assert forall|n: int| 0 <= n <= chunks.len() implies rows_before(chunks, n) == if n
        == chunks.len() {
        h
    } else {
        n * r
    } by {
        lemma_full_bands_before(chunks, bounds, rows_per_band, n);
    }
    assert forall|b: int| 0 <= b < chunks.len() implies (#[trigger] chunks[b]).offset.1 == rows_before(
        chunks,
        b,
    ) by {
        lemma_full_bands_before(chunks, bounds, rows_per_band, b);
    }
}

proof fn lemma_full_bands_before(
    chunks: Seq<ImageBuffer>,
    bounds: (usize, usize),
    rows_per_band: usize,
    n: int,
)
    requires
        rows_per_band > 0,
        banded(chunks, bounds, rows_per_band),
        0 <= n <= chunks.len(),
    ensures
        rows_before(chunks, n) == if n == chunks.len() {
            bounds.1 as int
        } else {
            n * rows_per_band
        },
    decreases n,
{
    let h = bounds.1 as int;
    let r = rows_per_band as int;
    if n == 0 {
        assert(0 * r == 0) by (nonlinear_arith);
        if chunks.len() == 0 {
            vstd::arithmetic::div_mod::lemma_fundamental_div_mod(h, r);
            lemma_bands_fit(h, r);
            assert(h / r == 0 && h % r == 0);
            assert(r * 0 == 0) by (nonlinear_arith);
        }
    } else {
        lemma_full_bands_before(chunks, bounds, rows_per_band, n - 1);
        lemma_band_in_image(h, r, n - 1);
        assert(chunks[n - 1].bounds.1 == band_rows(h, r, n - 1));
    }
}

proof fn lemma_rows_add_up(w: int, h1: int, h2: int)
    ensures
        w * (h1 + h2) == w * h1 + w * h2,
{
    assert(w * (h1 + h2) == w * h1 + w * h2) by (nonlinear_arith);
}

proof fn lemma_bands_fit(h: int, r: int)
    requires
        0 <= h,
        0 < r,
    ensures
        0 <= h / r <= h,
        h % r > 0 ==> h / r < h,
{
    vstd::arithmetic::div_mod::lemma_fundamental_div_mod(h, r);
    assert(0 <= h / r) by (nonlinear_arith)
        requires
            0 <= h,
            0 < r,
    ;
    assert(h / r <= (h / r) * r) by (nonlinear_arith)
        requires
            0 <= h / r,
            0 < r,
    ;
    assert(r * (h / r) == (h / r) * r) by (nonlinear_arith);
}

/// Band `b` of an image lies within the image, and the bands leave no row
/// out.
proof fn lemma_band_in_image(h: int, r: int, b: int)
    requires
        0 <= h,
        0 < r,
        0 <= b < band_count(h, r),
    ensures
        0 <= b * r <= h,
        0 < band_rows(h, r, b),
        b * r + band_rows(h, r, b) <= h,
        b == band_count(h, r) - 1 ==> b * r + band_rows(h, r, b) == h,
        b < band_count(h, r) - 1 ==> (b + 1) * r == b * r + band_rows(h, r, b),
        band_rows(h, r, b) == if h % r > 0 && b == band_count(h, r) - 1 {
            h % r
        } else {
            r
        },
{
    vstd::arithmetic::div_mod::lemma_fundamental_div_mod(h, r);
    let q = h / r;
    assert(r * q == q * r) by (nonlinear_arith);
    assert(0 <= b * r) by (nonlinear_arith)
        requires
            0 <= b,
            0 < r,
    ;
    if b < q {
        assert(b * r + r <= q * r) by (nonlinear_arith)
            requires
                b < q,
                0 < r,
        ;
    }
    if b == q - 1 {
        assert(b * r == q * r - r) by (nonlinear_arith)
            requires
                b == q - 1,
        ;
    }
    assert((b + 1) * r == b * r + r) by (nonlinear_arith);
}

/// A band of an image that fits the address space fits it too.
proof fn lemma_band_has_room(w: int, h: int, rows: int)
    requires
        0 <= w,
        0 <= rows <= h,
    ensures
        0 <= w * rows <= w * h,
{
    assert(0 <= w * rows <= w * h) by (nonlinear_arith)
        requires
            0 <= w,
            0 <= rows <= h,
    ;
}

} // verus!
