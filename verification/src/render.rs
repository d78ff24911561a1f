//! Placement of fractal points into an RGB image.
//!
//! Points are projected to pixel coordinates by the caller; this module
//! decides which of them land inside the image and in which colour, and
//! paints them onto a freshly made image buffer.
use vstd::prelude::*;
use image::{ImageBuffer, Rgb};

verus! {

/// An RGB image of the `image` crate, held while it is painted.
#[verifier::external_body]
pub struct RgbImage {
    buffer: ImageBuffer<Rgb<u8>, Vec<u8>>,
}

/// The pixels of an image, by `(x, y)`, each as its red, green and blue
/// channels.
pub uninterp spec fn image_pixels(img: RgbImage) -> Map<(u32, u32), (u8, u8, u8)>;

/// The `(width, height)` an image was made with.
pub uninterp spec fn image_dims(img: RgbImage) -> (u32, u32);

/// Channel `k` (0 red, 1 green, 2 blue) of a colour.
pub open spec fn channel(color: (u8, u8, u8), k: int) -> u8 {
    if k == 0 {
        color.0
    } else if k == 1 {
        color.1
    } else {
        color.2
    }
}

/// `image::ImageBuffer::from_pixel`: an image of `width` by `height` pixels,
/// each of them `color`. The crate panics when the buffer of `3 * width *
/// height` bytes does not fit in a `usize`; it computes `3 * width` first,
/// and panics when that alone overflows too. `requires` rules out both.
#[verifier::external_body]
fn image_from_pixel(width: u32, height: u32, color: (u8, u8, u8)) -> (img: RgbImage)
    requires
        3 * width <= usize::MAX,
        3 * width * height <= usize::MAX,
    ensures
        image_dims(img) == (width, height),
        image_pixels(img) == Map::new(
            |xy: (u32, u32)| xy.0 < width && xy.1 < height,
            |xy: (u32, u32)| color,
        ),
{
    RgbImage { buffer: ImageBuffer::from_pixel(width, height, Rgb([color.0, color.1, color.2])) }
}

/// `image::ImageBuffer::put_pixel`: sets the pixel at `(x, y)` to `color`
/// and leaves the size and every other pixel as they were. The crate panics
/// outside the image, which `requires` rules out.
#[verifier::external_body]
fn image_put_pixel(img: &mut RgbImage, x: u32, y: u32, color: (u8, u8, u8))
    requires
        x < image_dims(*old(img)).0,
        y < image_dims(*old(img)).1,
    ensures
        image_dims(*final(img)) == image_dims(*old(img)),
        image_pixels(*final(img)) == image_pixels(*old(img)).insert((x, y), color),
{
    img.buffer.put_pixel(x, y, Rgb([color.0, color.1, color.2]))
}

/// `image::ImageBuffer::into_raw`: the bytes of the image, row after row,
/// three channels per pixel. An image made by `from_pixel` holds exactly
/// `3 * width * height` bytes.
#[verifier::external_body]
fn image_into_raw(img: RgbImage) -> (raw: Vec<u8>)
    requires
        3 * image_dims(img).0 * image_dims(img).1 <= usize::MAX,
        image_pixels(img).dom() == Set::new(
            |xy: (u32, u32)| xy.0 < image_dims(img).0 && xy.1 < image_dims(img).1,
        ),
    ensures
        raw@.len() == 3 * image_dims(img).0 * image_dims(img).1,
        forall|x: u32, y: u32, k: int|
            #![trigger image_pixels(img)[(x, y)], raw@[(y * image_dims(img).0 + x) * 3 + k]]
            x < image_dims(img).0 && y < image_dims(img).1 && 0 <= k < 3 ==> raw@[(y
                * image_dims(img).0 + x) * 3 + k] == channel(image_pixels(img)[(x, y)], k),
{
    img.buffer.into_raw()
}

/// The colour of the image background.
pub open spec fn background() -> (u8, u8, u8) {
    (10, 25, 15)
}

/// The colour of points made by the transformation with index `index`: one
/// of four palette entries, white for any later index.
pub open spec fn palette_color(index: int) -> (u8, u8, u8) {
    if index == 0 {
        (70, 140, 50)
    } else if index == 1 {
        (120, 200, 80)
    } else if index == 2 {
        (80, 160, 200)
    } else if index == 3 {
        (200, 100, 150)
    } else {
        (255, 255, 255)
    }
}

/// The colour of points made by the transformation with index `index`.
pub fn color_for_index(index: usize) -> (c: (u8, u8, u8))
    ensures
        c == palette_color(index as int),
{
    let colors: [(u8, u8, u8); 4] = [(70, 140, 50), (120, 200, 80), (80, 160, 200), (
        200,
        100,
        150,
    )];
    if index < 4 {
        colors[index]
    } else {
        (255, 255, 255)
    }
}

/// A renderer for a target image size.
pub struct Renderer {
    width: u32,
    height: u32,
}

impl Renderer {
    /// The width of the target image.
    pub closed spec fn spec_width(&self) -> u32 {
        self.width
    }

    /// The height of the target image.
    pub closed spec fn spec_height(&self) -> u32 {
        self.height
    }

    /// Whether the pixel `(x, y)` lies inside the target image.
    pub open spec fn in_bounds(&self, x: u32, y: u32) -> bool {
        x < self.spec_width() && y < self.spec_height()
    }

    /// The colour that painting `pixels` in order leaves at `(x, y)`: that of
    /// the last in-bounds entry at `(x, y)`, or the background when there is
    /// none.
    pub open spec fn painted_color(&self, pixels: Seq<(u32, u32, usize)>, x: u32, y: u32) -> (
        u8,
        u8,
        u8,
    )
        decreases pixels.len(),
    {
        if pixels.len() == 0 {
            background()
        } else {
            let last = pixels.last();
            if last.0 == x && last.1 == y && self.in_bounds(last.0, last.1) {
                palette_color(last.2 as int)
            } else {
                self.painted_color(pixels.drop_last(), x, y)
            }
        }
    }

    /// Whether no entry after entry `j` lands on the pixel of entry `j`.
    pub open spec fn last_at_its_pixel(pixels: Seq<(u32, u32, usize)>, j: int) -> bool {
        forall|l: int|
            j < l < pixels.len() ==> !(pixels[l].0 == pixels[j].0 && pixels[l].1 == pixels[j].1)
    }

    /// Whether no entry lands on the pixel `(x, y)`.
    pub open spec fn never_at(pixels: Seq<(u32, u32, usize)>, x: u32, y: u32) -> bool {
        forall|l: int| 0 <= l < pixels.len() ==> !(pixels[l].0 == x && pixels[l].1 == y)
    }

    /// An in-bounds entry that no later entry overwrites leaves its pixel in
    /// the palette colour of its transformation, however long the list is.
    pub proof fn lemma_last_entry_shows(&self, pixels: Seq<(u32, u32, usize)>, j: int)
        requires
            0 <= j < pixels.len(),
            self.in_bounds(pixels[j].0, pixels[j].1),
            Self::last_at_its_pixel(pixels, j),
        ensures
            self.painted_color(pixels, pixels[j].0, pixels[j].1) == palette_color(pixels[j].2 as int),
        decreases pixels.len(),
    {
        if j < pixels.len() - 1 {
            let rest = pixels.drop_last();
            assert(rest[j] == pixels[j]);
            assert forall|l: int| j < l < rest.len() implies !(rest[l].0 == rest[j].0 && rest[l].1
                == rest[j].1) by {
                assert(rest[l] == pixels[l]);
            }
            assert(!(pixels.last().0 == pixels[j].0 && pixels.last().1 == pixels[j].1));
            self.lemma_last_entry_shows(rest, j);
        }
    }

    /// A pixel that no entry lands on keeps the background colour.
    pub proof fn lemma_untouched_pixel_is_background(
        &self,
        pixels: Seq<(u32, u32, usize)>,
        x: u32,
        y: u32,
    )
        requires
            Self::never_at(pixels, x, y),
        ensures
            self.painted_color(pixels, x, y) == background(),
        decreases pixels.len(),
    {
        if pixels.len() > 0 {
            let rest = pixels.drop_last();
            assert forall|l: int| 0 <= l < rest.len() implies !(rest[l].0 == x && rest[l].1 == y) by {
                assert(rest[l] == pixels[l]);
            }
            assert(!(pixels[pixels.len() - 1].0 == x && pixels[pixels.len() - 1].1 == y));
            self.lemma_untouched_pixel_is_background(rest, x, y);
        }
    }

    /// Creates a renderer for a target image size.
    pub fn new(width: u32, height: u32) -> (r: Self)
        ensures
            r.spec_width() == width,
            r.spec_height() == height,
    {
        Renderer { width, height }
    }

    /// The width of the target image.
    pub fn width(&self) -> (w: u32)
        ensures
            w == self.spec_width(),
    {
        self.width
    }

    /// The height of the target image.
    pub fn height(&self) -> (h: u32)
        ensures
            h == self.spec_height(),
    {
        self.height
    }

    /// Paints points already projected to pixel coordinates, each with the
    /// index of the transformation that produced it, onto an image of the
    /// target size filled with the background colour, and returns its RGB
    /// bytes row after row. Points outside the image are skipped; a later
    /// point wins over an earlier one.
    pub fn rasterize(&self, pixels: &[(u32, u32, usize)]) -> (raw: Vec<u8>)
        requires
            3 * self.spec_width() <= usize::MAX,
            3 * self.spec_width() * self.spec_height() <= usize::MAX,
        ensures
            raw@.len() == 3 * self.spec_width() * self.spec_height(),
            forall|x: u32, y: u32, k: int|
                #![trigger raw@[(y * self.spec_width() + x) * 3 + k], self.painted_color(pixels@, x, y)]
                self.in_bounds(x, y) && 0 <= k < 3 ==> raw@[(y * self.spec_width() + x) * 3 + k]
                    == channel(self.painted_color(pixels@, x, y), k),
            forall|j: int, k: int|
                #![trigger raw@[(pixels@[j].1 * self.spec_width() + pixels@[j].0) * 3 + k]]
                0 <= j < pixels@.len() && self.in_bounds(pixels@[j].0, pixels@[j].1)
                    && Self::last_at_its_pixel(pixels@, j) && 0 <= k < 3 ==> raw@[(pixels@[j].1
                    * self.spec_width() + pixels@[j].0) * 3 + k] == channel(
                    palette_color(pixels@[j].2 as int),
                    k,
                ),
            forall|x: u32, y: u32, k: int|
                #![trigger raw@[(y * self.spec_width() + x) * 3 + k], Self::never_at(pixels@, x, y)]
                self.in_bounds(x, y) && Self::never_at(pixels@, x, y) && 0 <= k < 3 ==> raw@[(y
                    * self.spec_width() + x) * 3 + k] == channel(background(), k),
    {
        let mut img = image_from_pixel(self.width, self.height, (10, 25, 15));
        let mut i: usize = 0;
        while i < pixels.len()
            invariant
                0 <= i <= pixels@.len(),
                image_dims(img) == (self.spec_width(), self.spec_height()),
                image_pixels(img).dom() == Set::new(
                    |xy: (u32, u32)| self.in_bounds(xy.0, xy.1),
                ),
                forall|x: u32, y: u32|
                    #![trigger image_pixels(img)[(x, y)]]
                    self.in_bounds(x, y) ==> image_pixels(img)[(x, y)] == self.painted_color(
                        pixels@.take(i as int),
                        x,
                        y,
                    ),
            decreases pixels@.len() - i,
        {
            let (px, py, index) = pixels[i];
            let ghost before = img;
            if px < self.width && py < self.height {
                image_put_pixel(&mut img, px, py, color_for_index(index));
            }
            proof {
                assert(pixels@.take(i + 1).drop_last() =~= pixels@.take(i as int));
                assert(pixels@.take(i + 1).last() == (px, py, index));
                assert forall|x: u32, y: u32|
                    #![trigger image_pixels(img)[(x, y)]]
                    self.in_bounds(x, y) implies image_pixels(img)[(x, y)] == self.painted_color(
                        pixels@.take(i + 1),
                        x,
                        y,
                    ) by {
                    assert(image_pixels(before)[(x, y)] == self.painted_color(
                        pixels@.take(i as int),
                        x,
                        y,
                    ));
                }
                assert(image_pixels(img).dom() =~= Set::new(
                    |xy: (u32, u32)| self.in_bounds(xy.0, xy.1),
                ));
            }
            i = i + 1;
        }
        proof {
            assert(pixels@.take(i as int) =~= pixels@);
        }
        assert(image_pixels(img).dom() =~= Set::new(
            |xy: (u32, u32)| xy.0 < image_dims(img).0 && xy.1 < image_dims(img).1,
        ));
        let raw = image_into_raw(img);
        proof {
            assert forall|x: u32, y: u32, k: int|
                self.in_bounds(x, y) && 0 <= k < 3 implies #[trigger] raw@[(y * self.spec_width() + x) * 3 + k]
                    == channel(self.painted_color(pixels@, x, y), k) by {
                assert(image_pixels(img)[(x, y)] == self.painted_color(pixels@, x, y));
            }
            assert forall|j: int, k: int|
                0 <= j < pixels@.len() && self.in_bounds(pixels@[j].0, pixels@[j].1)
                    && Self::last_at_its_pixel(pixels@, j) && 0 <= k < 3 implies #[trigger] raw@[(
                pixels@[j].1 * self.spec_width() + pixels@[j].0) * 3 + k] == channel(
                palette_color(pixels@[j].2 as int),
                k,
            ) by {
                self.lemma_last_entry_shows(pixels@, j);
                assert(image_pixels(img)[(pixels@[j].0, pixels@[j].1)] == self.painted_color(
                    pixels@,
                    pixels@[j].0,
                    pixels@[j].1,
                ));
            }
            assert forall|x: u32, y: u32, k: int|
                self.in_bounds(x, y) && #[trigger] Self::never_at(pixels@, x, y) && 0 <= k < 3 implies #[trigger] raw@[(y
                    * self.spec_width() + x) * 3 + k] == channel(background(), k) by {
                self.lemma_untouched_pixel_is_background(pixels@, x, y);
                assert(image_pixels(img)[(x, y)] == self.painted_color(pixels@, x, y));
            }
        }
        raw
    }
}

} // verus!
