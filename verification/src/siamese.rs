//! Siamese input preparation: crop a region, scale it to 96 by 96 with the
//! bilinear filter, and lay the RGB bytes out channel by channel.

use image::DynamicImage;
use vstd::prelude::*;
use crate::imaging::{
    crop, crop_dims, cropped, dimensions, fits_resample, image_dims, into_bytes, resample_fits,
    resize_bilinear, resized_bilinear, rgb_bytes, rgb_of, to_rgb8,
};
use crate::tensor::{lemma_planar_entry, planar_rgb, planar_spec};

verus! {

/// Side of the square Siamese input.
pub const SIAMESE_SIDE: u32 = 96;

/// Why a crop cannot be turned into a Siamese input.
#[derive(Clone, Copy, Debug, PartialEq, Eq, Structural)]
pub enum CropError {
    /// The crop rectangle has no area. The image size is reported with it.
    Degenerate { width: u32, height: u32, image_width: u32, image_height: u32 },
    /// Resampling an image this wide would need a buffer longer than `usize` counts.
    TooLarge,
}

/// The Siamese input of `img`: the channel planes of its RGB bytes after
/// scaling it to 96 by 96.
pub open spec fn siamese_planes(img: DynamicImage) -> Seq<u8> {
    planar_spec(
        rgb_bytes(rgb_of(resized_bilinear(img, SIAMESE_SIDE, SIAMESE_SIDE))),
        SIAMESE_SIDE * SIAMESE_SIDE,
    )
}

/// The Siamese input is the resized image in channel planes, rows top to
/// bottom: entry `c * 96 * 96 + y * 96 + x` is channel `c` of pixel (`x`, `y`)
/// of `img` scaled to 96 by 96, for every channel and pixel.
pub proof fn lemma_siamese_planes_layout(img: DynamicImage)
    ensures
        siamese_planes(img).len() == 3 * SIAMESE_SIDE * SIAMESE_SIDE,
        forall|c: int, y: int, x: int| 0 <= c < 3 && 0 <= y < 96 && 0 <= x < 96 ==> #[trigger] siamese_planes(img)[c * 9216
            + y * 96 + x] == rgb_bytes(rgb_of(resized_bilinear(img, SIAMESE_SIDE, SIAMESE_SIDE)))[3 * (y * 96 + x) + c],
{
    let raw = rgb_bytes(rgb_of(resized_bilinear(img, SIAMESE_SIDE, SIAMESE_SIDE)));
    assert forall|c: int, y: int, x: int| 0 <= c < 3 && 0 <= y < 96 && 0 <= x < 96 implies #[trigger] siamese_planes(img)[c
        * 9216 + y * 96 + x] == raw[3 * (y * 96 + x) + c] by {
        assert(0 <= y * 96 + x < 9216) by (nonlinear_arith)
            requires
                0 <= y < 96,
                0 <= x < 96,
        ;
        lemma_planar_entry(raw, 9216, c, y * 96 + x);
        assert(c * 9216 + (y * 96 + x) == c * 9216 + y * 96 + x);
    }
}

/// Scales `img` to 96 by 96 (bilinear) and returns its RGB bytes in channel
/// planes (all red, then green, then blue; rows top to bottom). `None` when the
/// image is too wide to resample (only possible where `usize` has 32 bits).
pub fn preprocess_planes(img: &DynamicImage) -> (out: Option<Vec<u8>>)
    ensures
        out is None <==> !fits_resample(image_dims(*img).0, SIAMESE_SIDE),
        out matches Some(planes) ==> {
            &&& planes@ == siamese_planes(*img)
            &&& planes@.len() == 3 * SIAMESE_SIDE * SIAMESE_SIDE
            // entry c * 96 * 96 + y * 96 + x is channel c of pixel (x, y) of the resized image
            &&& forall|c: int, y: int, x: int| 0 <= c < 3 && 0 <= y < 96 && 0 <= x < 96 ==> #[trigger] planes@[c * 9216 + y * 96 + x]
                == rgb_bytes(rgb_of(resized_bilinear(*img, SIAMESE_SIDE, SIAMESE_SIDE)))[3 * (y * 96 + x) + c]
        },
{
    let dims = dimensions(img);
    if !resample_fits(dims.0, SIAMESE_SIDE) {
        return None;
    }
    let resized = resize_bilinear(img, SIAMESE_SIDE, SIAMESE_SIDE);
    let rgb = to_rgb8(&resized);
    let raw = into_bytes(rgb);
    let pixels: usize = (SIAMESE_SIDE as usize) * (SIAMESE_SIDE as usize);
    let planes = planar_rgb(&raw, pixels);
    proof {
        lemma_siamese_planes_layout(*img);
    }
    Some(planes)
}

/// Cuts the pixel rectangle at (`x`, `y`) of `width` by `height` out of `img`
/// and prepares it as a Siamese input. A rectangle without area is refused with
/// `Degenerate`, which carries the image size.
pub fn crop_planes(img: &DynamicImage, x: u32, y: u32, width: u32, height: u32) -> (out: Result<Vec<u8>, CropError>)
    ensures
        (width == 0 || height == 0) <==> out matches Err(CropError::Degenerate { .. }),
        out matches Err(CropError::Degenerate { width: w, height: h, image_width: iw, image_height: ih })
            ==> w == width && h == height && (iw, ih) == image_dims(*img),
        out matches Err(CropError::TooLarge) <==> width != 0 && height != 0 && !fits_resample(
            crop_dims(image_dims(*img), x, y, width, height).0,
            SIAMESE_SIDE,
        ),
        out matches Ok(planes) ==> {
            &&& planes@ == siamese_planes(cropped(*img, x, y, width, height))
            &&& planes@.len() == 3 * SIAMESE_SIDE * SIAMESE_SIDE
            // entry c * 96 * 96 + py * 96 + px is channel c of pixel (px, py) of the resized crop
            &&& forall|c: int, py: int, px: int| 0 <= c < 3 && 0 <= py < 96 && 0 <= px < 96 ==> #[trigger] planes@[c * 9216 + py
                * 96 + px] == rgb_bytes(
                rgb_of(resized_bilinear(cropped(*img, x, y, width, height), SIAMESE_SIDE, SIAMESE_SIDE)),
            )[3 * (py * 96 + px) + c]
        },
{
    if width == 0 || height == 0 {
        let dims = dimensions(img);
        return Err(CropError::Degenerate { width, height, image_width: dims.0, image_height: dims.1 });
    }
    let region = crop(img, x, y, width, height);
    match preprocess_planes(&region) {
        Some(planes) => Ok(planes),
        None => Err(CropError::TooLarge),
    }
}

} // verus!
