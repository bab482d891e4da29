use gtlv_core::engine::decode_image;
use gtlv_core::perf::PerfTimer;
use gtlv_core::siamese::{crop_planes, preprocess_planes, CropError, SIAMESE_SIDE};
use gtlv_core::tensor::planar_rgb;
use gtlv_core::yolo::{letterbox_planes, LETTERBOX_GRAY};
use image::{DynamicImage, ImageFormat, Rgb, RgbImage};
use std::io::Cursor;

fn png_bytes(img: RgbImage) -> Vec<u8> {
    let mut out = Cursor::new(Vec::new());
    DynamicImage::ImageRgb8(img).write_to(&mut out, ImageFormat::Png).unwrap();
    out.into_inner()
}

/// Left half red, right half blue.
fn two_tone(width: u32, height: u32) -> DynamicImage {
    DynamicImage::ImageRgb8(RgbImage::from_fn(width, height, |x, _| {
        if x < width / 2 { Rgb([255, 0, 0]) } else { Rgb([0, 0, 255]) }
    }))
}

#[test]
fn planar_rgb_splits_channels() {
    let raw = vec![1, 2, 3, 4, 5, 6];
    assert_eq!(planar_rgb(&raw, 2), vec![1, 4, 2, 5, 3, 6]);
}

#[test]
fn planar_rgb_reads_only_the_pixels_asked_for() {
    let raw = vec![1, 2, 3, 4, 5, 6, 7];
    assert_eq!(planar_rgb(&raw, 1), vec![1, 2, 3]);
}

#[test]
fn decoding_keeps_the_picture_and_times_it() {
    let bytes = png_bytes(RgbImage::from_pixel(3, 2, Rgb([10, 20, 30])));
    let mut timer = PerfTimer::new(true);
    let img = decode_image(&bytes, &mut timer).unwrap();
    assert_eq!((img.width(), img.height()), (3, 2));
    assert!(timer.elapsed_ms("preprocess") >= 0);
}

#[test]
fn decoding_no_bytes_fails() {
    let mut timer = PerfTimer::new(false);
    assert!(decode_image(&[], &mut timer).is_err());
}

#[test]
fn decoding_garbage_fails() {
    let mut timer = PerfTimer::new(false);
    assert!(decode_image(&[0u8, 1, 2, 3], &mut timer).is_err());
}

#[test]
fn siamese_planes_are_resized_to_the_input_side() {
    let img = DynamicImage::ImageRgb8(RgbImage::from_pixel(5, 3, Rgb([10, 20, 30])));
    let planes = preprocess_planes(&img).unwrap();
    let n = (SIAMESE_SIDE * SIAMESE_SIDE) as usize;
    assert_eq!(planes.len(), 3 * n);
    assert!(planes[..n].iter().all(|v| *v == 10));
    assert!(planes[n..2 * n].iter().all(|v| *v == 20));
    assert!(planes[2 * n..].iter().all(|v| *v == 30));
}

#[test]
fn crop_takes_the_requested_region() {
    let img = two_tone(8, 4);
    let planes = crop_planes(&img, 4, 0, 4, 4).unwrap();
    let n = (SIAMESE_SIDE * SIAMESE_SIDE) as usize;
    assert!(planes[..n].iter().all(|v| *v == 0)); // no red
    assert!(planes[2 * n..].iter().all(|v| *v == 255)); // all blue
}

#[test]
fn degenerate_crop_is_refused_with_the_image_size() {
    let img = two_tone(8, 4);
    assert_eq!(
        crop_planes(&img, 8, 0, 0, 4),
        Err(CropError::Degenerate { width: 0, height: 4, image_width: 8, image_height: 4 })
    );
    assert_eq!(
        crop_planes(&img, 0, 4, 3, 0),
        Err(CropError::Degenerate { width: 3, height: 0, image_width: 8, image_height: 4 })
    );
}

#[test]
fn letterbox_pads_with_gray() {
    // an 8x4 image scaled into a 16x16 square: 16x8, padded by 4 rows above and below
    let img = DynamicImage::ImageRgb8(RgbImage::from_pixel(8, 4, Rgb([200, 100, 50])));
    let planes = letterbox_planes(&img, 16, 8, 0, 4, 16).unwrap();
    assert_eq!(planes.len(), 3 * 16 * 16);
    let red = &planes[..256];
    for y in 0..16 {
        for x in 0..16 {
            let expected = if (4..12).contains(&y) { 200 } else { LETTERBOX_GRAY };
            assert_eq!(red[y * 16 + x], expected, "red at ({x}, {y})");
        }
    }
    let blue = &planes[512..];
    assert_eq!(blue[0], LETTERBOX_GRAY);
    assert_eq!(blue[5 * 16 + 3], 50);
}

#[test]
fn letterbox_places_the_image_at_the_offsets() {
    // a 4x8 image scaled into 16x16 at 8x16, padded by 4 columns left and right
    let img = DynamicImage::ImageRgb8(RgbImage::from_pixel(4, 8, Rgb([10, 20, 30])));
    let planes = letterbox_planes(&img, 8, 16, 4, 0, 16).unwrap();
    let green = &planes[256..512];
    for y in 0..16 {
        for x in 0..16 {
            let expected = if (4..12).contains(&x) { 20 } else { LETTERBOX_GRAY };
            assert_eq!(green[y * 16 + x], expected, "green at ({x}, {y})");
        }
    }
}

#[test]
fn siamese_planes_keep_channel_order() {
    let img = DynamicImage::ImageRgb8(RgbImage::from_pixel(4, 4, Rgb([255, 0, 51])));
    let planes = preprocess_planes(&img).unwrap();
    let n = (SIAMESE_SIDE * SIAMESE_SIDE) as usize;
    assert!(planes[..n].iter().all(|v| *v == 255));
    assert!(planes[n..2 * n].iter().all(|v| *v == 0));
    assert!(planes[2 * n..].iter().all(|v| *v == 51));
}
