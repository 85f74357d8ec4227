//! RGBA pixel buffers, held in the `image` crate's `RgbaImage`.
//!
//! The buffer stores its pixels row by row, four bytes (red, green, blue,
//! alpha) each: the pixel at `(x, y)` starts at byte `(y * width + x) * 4`.

use vstd::prelude::*;
use image::{ImageBuffer, Rgba, RgbaImage};

verus! {

/// An RGBA image: an `image::RgbaImage` that the packer reads and fills.
#[verifier::external_body]
pub struct Raster {
    inner: RgbaImage,
}

/// Width in pixels that a raster was made with.
pub uninterp spec fn raster_width(img: Raster) -> u32;

/// Height in pixels that a raster was made with.
pub uninterp spec fn raster_height(img: Raster) -> u32;

/// The bytes of a raster's buffer, row-major, four per pixel.
pub uninterp spec fn raster_data(img: Raster) -> Seq<u8>;

/// Byte offset of pixel `(x, y)` in a buffer `width` pixels wide.
pub open spec fn pixel_offset(width: int, x: int, y: int) -> int {
    (y * width + x) * 4
}

/// The four channels of pixel `(x, y)` in `data`, for an image `width` pixels wide.
pub open spec fn pixel_of(data: Seq<u8>, width: int, x: int, y: int) -> Seq<u8> {
    data.subrange(pixel_offset(width, x, y), pixel_offset(width, x, y) + 4)
}

/// Number of bytes that the pixels of a `width` by `height` image take.
pub open spec fn buffer_len(width: int, height: int) -> int {
    4 * width * height
}

/// Calls `ImageBuffer::clone`: a copy with the same size and the same bytes
/// (the source clones the data `Vec` and copies the width and height).
#[verifier::external_body]
fn raw_clone(img: &Raster) -> (r: Raster)
    ensures
        raster_width(r) == raster_width(*img),
        raster_height(r) == raster_height(*img),
        raster_data(r) == raster_data(*img),
{
    Raster { inner: img.inner.clone() }
}

impl Clone for Raster {
    /// A copy of the image: same size, same pixels.
    fn clone(&self) -> (r: Self)
        ensures
            raster_width(r) == raster_width(*self),
            raster_height(r) == raster_height(*self),
            raster_data(r) == raster_data(*self),
    {
        raw_clone(self)
    }
}

/// Reads `ImageBuffer::width`.
#[verifier::external_body]
pub(crate) fn raw_width(img: &Raster) -> (r: u32)
    ensures
        r == raster_width(*img),
{
    img.inner.width()
}

/// Reads `ImageBuffer::height`.
#[verifier::external_body]
pub(crate) fn raw_height(img: &Raster) -> (r: u32)
    ensures
        r == raster_height(*img),
{
    img.inner.height()
}

/// Calls `ImageBuffer::from_pixel`: a `width` by `height` image whose every
/// pixel is `px`. The source allocates `4 * width * height` bytes with `vec!`,
/// and panics when that count overflows or is more than a `Vec` can hold;
/// `requires` leaves those inputs out. Running out of memory is not covered.
#[verifier::external_body]
pub(crate) fn raw_from_pixel(width: u32, height: u32, px: [u8; 4]) -> (img: Raster)
    requires
        buffer_len(width as int, height as int) <= isize::MAX as int,
    ensures
        raster_width(img) == width && raster_height(img) == height && raster_data(img)
            == Seq::new(buffer_len(width as int, height as int) as nat, |i: int| px@[i % 4]),
{
    Raster { inner: ImageBuffer::from_pixel(width, height, Rgba(px)) }
}

/// Calls `ImageBuffer::from_raw`: wraps `buf` as a `width` by `height` image when
/// it holds at least `4 * width * height` bytes, else gives `None`.
#[verifier::external_body]
pub(crate) fn raw_from_raw(width: u32, height: u32, buf: Vec<u8>) -> (r: Option<Raster>)
    ensures
        r is Some <==> buffer_len(width as int, height as int) <= buf@.len(),
        r matches Some(img) ==> raster_width(img) == width && raster_height(img) == height
            && raster_data(img) == buf@,
{
    match ImageBuffer::from_raw(width, height, buf) {
        Some(inner) => Some(Raster { inner }),
        None => None,
    }
}

/// Calls `ImageBuffer::into_raw`: the image's whole buffer.
#[verifier::external_body]
pub(crate) fn raw_into_raw(img: Raster) -> (r: Vec<u8>)
    ensures
        r@ == raster_data(img),
{
    img.inner.into_raw()
}

/// Calls `ImageBuffer::get_pixel`: the four channels of pixel `(x, y)`, read
/// from the buffer at the pixel's offset. The source panics out of bounds;
/// `requires` leaves that out.
#[verifier::external_body]
pub(crate) fn raw_get_pixel(img: &Raster, x: u32, y: u32) -> (px: [u8; 4])
    requires
        x < raster_width(*img),
        y < raster_height(*img),
    ensures
        px@ == pixel_of(raster_data(*img), raster_width(*img) as int, x as int, y as int),
{
    img.inner.get_pixel(x, y).0
}

/// Calls `ImageBuffer::put_pixel`: overwrites the four bytes of pixel `(x, y)`
/// and nothing else. The source panics out of bounds; `requires` leaves that
/// out.
#[verifier::external_body]
pub(crate) fn raw_put_pixel(img: &mut Raster, x: u32, y: u32, px: [u8; 4])
    requires
        x < raster_width(*old(img)),
        y < raster_height(*old(img)),
    ensures
        raster_width(*final(img)) == raster_width(*old(img)),
        raster_height(*final(img)) == raster_height(*old(img)),
        raster_data(*final(img)) == raster_data(
            *old(img),
        ).take(pixel_offset(raster_width(*old(img)) as int, x as int, y as int)) + px@
            + raster_data(*old(img)).skip(
            pixel_offset(raster_width(*old(img)) as int, x as int, y as int) + 4,
        ),
{
    img.inner.put_pixel(x, y, Rgba(px))
}

impl Raster {
    /// Width in pixels.
    pub fn width(&self) -> (r: u32)
        ensures
            r == raster_width(*self),
    {
        raw_width(self)
    }

    /// Height in pixels.
    pub fn height(&self) -> (r: u32)
        ensures
            r == raster_height(*self),
    {
        raw_height(self)
    }

    /// An image of the given size with every pixel set to `px`.
    pub fn from_pixel(width: u32, height: u32, px: [u8; 4]) -> (img: Raster)
        requires
            buffer_len(width as int, height as int) <= isize::MAX as int,
        ensures
            raster_width(img) == width,
            raster_height(img) == height,
            raster_data(img) == Seq::new(
                buffer_len(width as int, height as int) as nat,
                |i: int| px@[i % 4],
            ),
    {
        raw_from_pixel(width, height, px)
    }

    /// Wraps row-major RGBA bytes as an image; `None` when `buf` is too short.
    pub fn from_raw(width: u32, height: u32, buf: Vec<u8>) -> (r: Option<Raster>)
        ensures
            r is Some <==> buffer_len(width as int, height as int) <= buf@.len(),
            r matches Some(img) ==> raster_width(img) == width && raster_height(img) == height
                && raster_data(img) == buf@,
    {
        raw_from_raw(width, height, buf)
    }

    /// The image's bytes, row-major, four per pixel.
    pub fn into_raw(self) -> (r: Vec<u8>)
        ensures
            r@ == raster_data(self),
    {
        raw_into_raw(self)
    }
}

} // verus!
