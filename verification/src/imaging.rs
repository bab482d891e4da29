//! The calls into the `image` crate that preprocessing makes, with what its
//! source guarantees about them.
//!
//! Images are opaque here. What the `image` crate computes from them (format
//! guessing, decoding,
//! resampling, colour conversion, cropping) has a name and is not spelled out;
//! the byte layout of an RGB buffer, the gray canvas and the overlay are stated.

use image::imageops::FilterType;
use image::{DynamicImage, GenericImageView, ImageBuffer, ImageError, ImageFormat, Rgb, RgbImage};
use vstd::prelude::*;

verus! {

#[verifier::external_type_specification]
#[verifier::external_body]
pub struct ExDynamicImage(DynamicImage);

#[verifier::external_type_specification]
#[verifier::external_body]
pub struct ExImageError(ImageError);

#[verifier::external_type_specification]
#[verifier::external_body]
pub struct ExImageFormat(ImageFormat);

/// An 8-bit RGB image buffer of the `image` crate (`RgbImage`), held opaquely:
/// Verus refuses a declaration of the generic `ImageBuffer`.
#[verifier::external_body]
pub struct RgbBuffer {
    inner: RgbImage,
}

/// Width and height of a decoded image (`GenericImageView::dimensions`).
pub uninterp spec fn image_dims(img: DynamicImage) -> (u32, u32);

/// What `image::guess_format` makes of these bytes: the built-in format whose
/// magic bytes they start with.
pub uninterp spec fn guessed_format(bytes: Seq<u8>) -> Result<ImageFormat, ImageError>;

/// What `image::load_from_memory_with_format` makes of these bytes read as `format`.
pub uninterp spec fn decoded_as(bytes: Seq<u8>, format: ImageFormat) -> Result<DynamicImage, ImageError>;

/// The image these bytes decode to: the format is guessed from the magic bytes,
/// then the bytes are decoded as that format.
pub open spec fn decoded(bytes: Seq<u8>) -> Result<DynamicImage, ImageError> {
    match guessed_format(bytes) {
        Ok(format) => decoded_as(bytes, format),
        Err(e) => Err(e),
    }
}

/// Decoding goes by the format guessed from those same bytes: where a format is
/// recognised, the image is what decoding the bytes as that format gives; where
/// none is, the guessing error is the result.
pub proof fn lemma_decoded_in_guessed_format(bytes: Seq<u8>)
    ensures
        guessed_format(bytes) matches Ok(format) ==> decoded(bytes) == decoded_as(bytes, format),
        guessed_format(bytes) matches Err(e) ==> decoded(bytes) == Err::<DynamicImage, ImageError>(e),
{
}

/// What `DynamicImage::resize_exact(width, height, FilterType::Triangle)` makes of
/// `img` (bilinear resampling).
pub uninterp spec fn resized_bilinear(img: DynamicImage, width: u32, height: u32) -> DynamicImage;

/// What `DynamicImage::crop_imm(x, y, width, height)` makes of `img`.
pub uninterp spec fn cropped(img: DynamicImage, x: u32, y: u32, width: u32, height: u32) -> DynamicImage;

/// What `DynamicImage::to_rgb8` makes of `img`.
pub uninterp spec fn rgb_of(img: DynamicImage) -> RgbBuffer;

/// The bytes an RGB buffer holds: pixels row by row, three bytes each; pixel
/// (x, y) of a `w` wide buffer starts at `3 * (y * w + x)`.
pub uninterp spec fn rgb_bytes(img: RgbBuffer) -> Seq<u8>;

/// Width and height of an RGB buffer.
pub uninterp spec fn rgb_dims(img: RgbBuffer) -> (u32, u32);

/// Width and height of the part of a `w` by `h` image that `crop_imm(x, y, cw, ch)`
/// keeps: the rectangle is cut back to the image.
pub open spec fn crop_dims(dims: (u32, u32), x: u32, y: u32, cw: u32, ch: u32) -> (u32, u32) {
    let x0 = if x < dims.0 { x } else { dims.0 };
    let y0 = if y < dims.1 { y } else { dims.1 };
    let rest_w = (dims.0 - x0) as u32;
    let rest_h = (dims.1 - y0) as u32;
    (if cw < rest_w { cw } else { rest_w }, if ch < rest_h { ch } else { rest_h })
}

/// A `width` by `height` RGB buffer with every byte equal to `level`.
pub open spec fn uniform_bytes(width: u32, height: u32, level: u8) -> Seq<u8> {
    Seq::new((width * height * 3) as nat, |i: int| level)
}

/// The bytes of a `bw` by `bh` buffer `bottom` after the `tw` by `th` buffer
/// `top` is drawn onto it with its corner at (`x`, `y`): inside that rectangle
/// (and inside `bottom`) each pixel is the matching pixel of `top`, elsewhere it
/// is unchanged.
pub open spec fn overlaid(
    bottom: Seq<u8>,
    bw: u32,
    bh: u32,
    top: Seq<u8>,
    tw: u32,
    th: u32,
    x: u32,
    y: u32,
) -> Seq<u8> {
    Seq::new(
        bottom.len(),
        |i: int|
            {
                let p = i / 3;
                let c = i % 3;
                if i < bw * bh * 3 {
                    let px = p % (bw as int);
                    let py = p / (bw as int);
                    if x <= px < x + tw && y <= py < y + th {
                        top[((py - y) * tw + (px - x)) * 3 + c]
                    } else {
                        bottom[i]
                    }
                } else {
                    bottom[i]
                }
            },
    )
}

/// Resampling a source `source_width` wide to height `height` goes through a
/// float buffer of `source_width * height * 4` entries, which must fit in `usize`.
pub open spec fn fits_resample(source_width: u32, height: u32) -> bool {
    source_width * height * 4 <= usize::MAX
}

pub(crate) fn resample_fits(source_width: u32, height: u32) -> (fits: bool)
    ensures
        fits == fits_resample(source_width, height),
{
    assert((source_width as u128) * (height as u128) <= 0xffff_ffff * 0xffff_ffff) by (nonlinear_arith)
        requires
            source_width <= 0xffff_ffff,
            height <= 0xffff_ffff,
    ;
    (source_width as u128) * (height as u128) * 4 <= usize::MAX as u128
}

/// `image::guess_format`: the built-in format whose magic bytes start `bytes`
/// (registered format hooks are not consulted). Every built-in signature has at
/// least two bytes, so no bytes give an error.
#[verifier::external_body]
pub(crate) fn guess_format(bytes: &[u8]) -> (r: Result<ImageFormat, ImageError>)
    ensures
        r == guessed_format(bytes@),
        bytes@.len() == 0 ==> r is Err,
{
    image::guess_format(bytes)
}

/// `image::load_from_memory_with_format`: decodes `bytes` with the built-in
/// decoder of `format` (no registered hook is consulted on that path).
#[verifier::external_body]
pub(crate) fn decode_as(bytes: &[u8], format: ImageFormat) -> (r: Result<DynamicImage, ImageError>)
    ensures
        r == decoded_as(bytes@, format),
{
    image::load_from_memory_with_format(bytes, format)
}

/// `GenericImageView::dimensions` of a decoded image: its width and height.
#[verifier::external_body]
pub(crate) fn dimensions(img: &DynamicImage) -> (dims: (u32, u32))
    ensures
        dims == image_dims(*img),
{
    img.dimensions()
}

/// `DynamicImage::resize_exact` with the bilinear (`FilterType::Triangle`)
/// filter: the result is exactly `width` by `height`. The resampling goes through
/// a float RGBA buffer as wide as the source and `height` high, and through one
/// `width` by `height`; `ImageBuffer::new` panics when such a buffer's length
/// overflows `usize`, which the `requires` leaves out.
#[verifier::external_body]
pub(crate) fn resize_bilinear(img: &DynamicImage, width: u32, height: u32) -> (out: DynamicImage)
    requires
        image_dims(*img).0 * height * 4 <= usize::MAX,
        width * height * 4 <= usize::MAX,
    ensures
        out == resized_bilinear(*img, width, height),
        image_dims(out) == (width, height),
{
    img.resize_exact(width, height, FilterType::Triangle)
}

/// `DynamicImage::crop_imm`: the rectangle at (`x`, `y`) of `width` by `height`,
/// cut back to the image.
#[verifier::external_body]
pub(crate) fn crop(img: &DynamicImage, x: u32, y: u32, width: u32, height: u32) -> (out: DynamicImage)
    ensures
        out == cropped(*img, x, y, width, height),
        image_dims(out) == crop_dims(image_dims(*img), x, y, width, height),
{
    img.crop_imm(x, y, width, height)
}

/// `DynamicImage::to_rgb8`: the same image with 8-bit RGB pixels. It allocates
/// three bytes per pixel; the `requires` leaves out the sizes whose length would
/// overflow `usize`.
#[verifier::external_body]
pub(crate) fn to_rgb8(img: &DynamicImage) -> (out: RgbBuffer)
    requires
        image_dims(*img).0 * image_dims(*img).1 * 3 <= usize::MAX,
    ensures
        out == rgb_of(*img),
        rgb_dims(out) == image_dims(*img),
{
    RgbBuffer { inner: img.to_rgb8() }
}

/// `ImageBuffer::from_pixel` with the pixel `Rgb([level, level, level])`: a
/// `width` by `height` buffer of exactly `width * height * 3` bytes, all `level`.
#[verifier::external_body]
pub(crate) fn gray_canvas(width: u32, height: u32, level: u8) -> (out: RgbBuffer)
    requires
        width * height * 3 <= usize::MAX,
    ensures
        rgb_dims(out) == (width, height),
        rgb_bytes(out) == uniform_bytes(width, height, level),
{
    RgbBuffer { inner: ImageBuffer::from_pixel(width, height, Rgb([level, level, level])) }
}

/// `imageops::overlay` at (`x`, `y`): copies the pixels of `top` into `bottom`
/// with `top`'s corner at (`x`, `y`), clipped to `bottom` (an `Rgb` pixel blends
/// by replacement). The size of `bottom` does not change.
#[verifier::external_body]
pub(crate) fn overlay(bottom: &mut RgbBuffer, top: &RgbBuffer, x: u32, y: u32)
    ensures
        rgb_dims(*final(bottom)) == rgb_dims(*old(bottom)),
        rgb_bytes(*final(bottom)) == overlaid(
            rgb_bytes(*old(bottom)),
            rgb_dims(*old(bottom)).0,
            rgb_dims(*old(bottom)).1,
            rgb_bytes(*top),
            rgb_dims(*top).0,
            rgb_dims(*top).1,
            x,
            y,
        ),
{
    image::imageops::overlay(&mut bottom.inner, &top.inner, x as i64, y as i64)
}

/// `ImageBuffer::into_raw`: the buffer's bytes, at least `width * height * 3` of
/// them (`ImageBuffer::from_raw` refuses shorter ones).
#[verifier::external_body]
pub(crate) fn into_bytes(img: RgbBuffer) -> (raw: Vec<u8>)
    ensures
        raw@ == rgb_bytes(img),
        raw@.len() >= rgb_dims(img).0 * rgb_dims(img).1 * 3,
{
    img.inner.into_raw()
}

} // verus!
