//! The pixel grid: an `image::RgbaImage`, four 8-bit channels to the pixel.
//!
//! Verus does not look inside the image: what its methods return is stated
//! here, on the image's dimensions and on its samples as they lie in memory,
//! row after row, four to the pixel (red, green, blue, alpha).

use vstd::prelude::*;

verus! {

/// A decoded image of four 8-bit channels to the pixel.
#[verifier::external_body]
pub struct PixelGrid {
    inner: image::RgbaImage,
}

/// The image's width and height, in pixels.
pub uninterp spec fn grid_dimensions(grid: PixelGrid) -> (u32, u32);

/// The image's samples as they lie in memory: row after row, and four to the
/// pixel (red, green, blue, alpha).
pub uninterp spec fn grid_samples(grid: PixelGrid) -> Seq<u8>;

/// What a grid is, as plain values.
pub struct GridView {
    /// The number of columns.
    pub width: nat,
    /// The number of rows.
    pub height: nat,
    /// The samples, row after row, four to the pixel.
    pub samples: Seq<u8>,
}

/// Where channel `c` of the pixel in column `x` and row `y` lies among the
/// samples of a grid that is `width` pixels wide.
pub open spec fn sample_index(width: nat, x: int, y: int, c: int) -> int {
    (y * width + x) * 4 + c
}

impl GridView {
    /// The value of channel `c` (0 red, 1 green, 2 blue, 3 alpha) of the
    /// pixel in column `x` and row `y`.
    pub open spec fn channel(self, x: int, y: int, c: int) -> u8 {
        self.samples[sample_index(self.width, x, y, c)]
    }
}

impl View for PixelGrid {
    type V = GridView;

    open spec fn view(&self) -> GridView {
        GridView {
            width: grid_dimensions(*self).0 as nat,
            height: grid_dimensions(*self).1 as nat,
            samples: grid_samples(*self),
        }
    }
}

/// `ImageBuffer::from_raw` for RGBA pixels: the image is made exactly where
/// the samples suffice for `width` times `height` pixels, and then has these
/// dimensions and these samples.
#[verifier::external_body]
fn image_from_raw(width: u32, height: u32, samples: Vec<u8>) -> (grid: Option<PixelGrid>)
    ensures
        grid is Some <==> 4 * width * height <= samples@.len(),
        grid matches Some(g) ==> grid_dimensions(g) == (width, height) && grid_samples(g)
            == samples@,
{
    image::RgbaImage::from_raw(width, height, samples).map(|inner| PixelGrid { inner })
}

impl PixelGrid {
    /// `ImageBuffer::dimensions`: width and height.
    #[verifier::external_body]
    pub(crate) fn dimensions(&self) -> (d: (u32, u32))
        ensures
            d == grid_dimensions(*self),
    {
        self.inner.dimensions()
    }

    /// `ImageBuffer::get_pixel`, and the four channels of the pixel it
    /// refers to. The pixel must lie inside the image.
    #[verifier::external_body]
    pub(crate) fn pixel(&self, x: u32, y: u32) -> (rgba: [u8; 4])
        requires
            x < grid_dimensions(*self).0,
            y < grid_dimensions(*self).1,
        ensures
            forall|c: int|
                0 <= c < 4 ==> #[trigger] rgba@[c] == grid_samples(*self)[sample_index(
                    grid_dimensions(*self).0 as nat,
                    x as int,
                    y as int,
                    c,
                )],
    {
        self.inner.get_pixel(x, y).0
    }

    /// A grid of `width` by `height` pixels over the given samples, which lie
    /// row after row, four to the pixel. `None` where the samples are too few
    /// for that many pixels.
    pub fn from_raw(width: u32, height: u32, samples: Vec<u8>) -> (grid: Option<PixelGrid>)
        ensures
            grid is Some <==> 4 * width * height <= samples@.len(),
            grid matches Some(g) ==> g@ == (GridView {
                width: width as nat,
                height: height as nat,
                samples: samples@,
            }),
    {
        image_from_raw(width, height, samples)
    }

    /// The number of columns.
    pub fn width(&self) -> (w: u32)
        ensures
            w == self@.width,
    {
        self.dimensions().0
    }

    /// The number of rows.
    pub fn height(&self) -> (h: u32)
        ensures
            h == self@.height,
    {
        self.dimensions().1
    }
}

} // verus!
