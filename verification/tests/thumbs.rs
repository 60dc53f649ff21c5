//! The thumbnail cache.

use image::{DynamicImage, ImageBuffer, Luma, Rgb, RgbImage};
use renamer::hashing::key_hash;
use renamer::picture::{fittable, measurable};
use renamer::thumbs::{cache_size, render_thumb, thumb_path, THUMB_MAX_EDGE};

fn test_image(w: u32, h: u32) -> DynamicImage {
    let mut img = RgbImage::new(w, h);
    for (x, y, px) in img.enumerate_pixels_mut() {
        *px = Rgb([(x % 256) as u8, (y % 256) as u8, 128]);
    }
    DynamicImage::ImageRgb8(img)
}

#[test]
fn thumb_paths_are_sharded_and_keyed_on_size_and_mtime() {
    let t1 = thumb_path("/cache", "/lib/a.jpg", 100, 10);

    let parts: Vec<&str> = t1.split('/').collect();
    let shard = parts[parts.len() - 2];
    assert_eq!(shard.len(), 2, "one level of sharding");
    assert!(t1.ends_with(".jpg"));

    // Stable for identical inputs...
    assert_eq!(t1, thumb_path("/cache", "/lib/a.jpg", 100, 10));
    // ...and distinct when anything in the key changes, so an edited
    // file can never display a stale thumbnail.
    assert_ne!(t1, thumb_path("/cache", "/lib/a.jpg", 101, 10));
    assert_ne!(t1, thumb_path("/cache", "/lib/a.jpg", 100, 11));
    assert_ne!(t1, thumb_path("/cache", "/lib/b.jpg", 100, 10));
}

#[test]
fn thumbnails_land_outside_the_source_folder() {
    // The core promise: indexing a library never writes into it.
    let library = "/home/someone/Pictures/Holiday";
    let t = thumb_path("/cache/thumbs", "/home/someone/Pictures/Holiday/IMG_1.jpg", 10, 1);
    assert!(t.starts_with("/cache/thumbs/"), "{t:?} must live under the cache dir");
    assert!(!t.starts_with(library), "{t:?} must not be written into the library");
}

#[test]
fn thumb_paths_are_named_by_their_key() {
    let key = key_hash(&["/lib/a.jpg", "100", "-10"]);
    assert_eq!(
        thumb_path("/cache", "/lib/a.jpg", 100, -10),
        format!("/cache/{}/{}.jpg", &key[..2], key)
    );
}

#[test]
fn write_thumb_creates_a_downscaled_jpeg_and_clear_removes_it() {
    let bytes = render_thumb(&test_image(1000, 500)).unwrap();
    let decoded = image::load_from_memory(&bytes).unwrap();
    // Fits the box, and the 2:1 aspect ratio is preserved.
    assert_eq!(decoded.width(), THUMB_MAX_EDGE);
    assert_eq!(decoded.height(), THUMB_MAX_EDGE / 2);
    assert!(cache_size(&[bytes.len() as u64]) > 0);
    assert_eq!(cache_size(&[]), 0);
}

#[test]
fn write_thumb_handles_rgba_input() {
    // PNGs with alpha must not fail the JPEG encode.
    let mut img = image::RgbaImage::new(64, 64);
    for (_x, _y, px) in img.enumerate_pixels_mut() {
        *px = image::Rgba([10, 20, 30, 128]);
    }
    let bytes = render_thumb(&DynamicImage::ImageRgba8(img)).unwrap();
    assert!(image::load_from_memory(&bytes).is_ok());
}

#[test]
fn cache_sizes_add_up() {
    assert_eq!(cache_size(&[1, 2, 3]), 6);
}

#[test]
fn images_beyond_reach_have_no_thumbnail() {
    let grey = |w, h| DynamicImage::ImageLuma16(ImageBuffer::from_pixel(w, h, Luma([65_535u16])));
    assert!(fittable(&grey(56_320, 293), THUMB_MAX_EDGE));
    assert!(!fittable(&grey(56_320, 294), THUMB_MAX_EDGE));
    assert!(!fittable(&grey(294, 56_320), THUMB_MAX_EDGE));
    assert_eq!(
        render_thumb(&grey(60_000, 300)).unwrap_err(),
        "image cannot be scaled down to a thumbnail"
    );
    // The same size in eight bits is well within reach.
    let white = DynamicImage::ImageLuma8(ImageBuffer::from_pixel(60_000, 300, Luma([255u8])));
    let thumb = image::load_from_memory(&render_thumb(&white).unwrap()).unwrap();
    assert_eq!((thumb.width(), thumb.height()), (256, 1));
    assert_eq!(thumb.to_rgb8().get_pixel(7, 0).0, [255, 255, 255]);
}

#[test]
fn long_images_of_sixteen_bits_keep_their_brightness() {
    for (w, h, small) in [
        (56_320, 293, (256, 1)),
        (293, 56_320, (1, 256)),
        (3_000_000, 3, (256, 1)),
        (3, 3_000_000, (1, 256)),
    ] {
        let white = DynamicImage::ImageLuma16(ImageBuffer::from_pixel(w, h, Luma([65_535u16])));
        let thumb = image::load_from_memory(&render_thumb(&white).unwrap()).unwrap();
        assert_eq!((thumb.width(), thumb.height()), small);
        assert!(thumb.to_rgb8().pixels().all(|p| p.0 == [255, 255, 255]), "{w} by {h}");
    }
}

#[test]
fn only_numbers_can_be_measured() {
    let float = |v: f32| DynamicImage::ImageRgb32F(ImageBuffer::from_pixel(2, 2, Rgb([v, 0.5, 1.0])));
    assert!(measurable(&float(-3.5)) && measurable(&test_image(2, 2)));
    assert!(!measurable(&float(f32::NAN)) && !fittable(&float(f32::NAN), 16));
    assert!(!measurable(&float(f32::NEG_INFINITY)));
    // Large numbers are fine as long as their means stay finite.
    assert!(measurable(&float(2f32.powi(125))) && measurable(&float(-(2f32.powi(97)))));
    assert!(!measurable(&float(2f32.powi(126))));
    let long = ImageBuffer::from_pixel(1_048_577, 1, Rgb([2f32.powi(97), 0.5, 1.0]));
    assert!(!measurable(&DynamicImage::ImageRgb32F(long)));
    let long = ImageBuffer::from_pixel(1_048_577, 1, Rgb([2f32.powi(96), 0.5, 1.0]));
    assert!(measurable(&DynamicImage::ImageRgb32F(long)));
}

#[test]
fn a_path_cannot_pass_for_another_size() {
    // The separator within a path does not blur where the path ends.
    let a = thumb_path("/t", "/l/a\u{1f}1", 2, 3);
    let b = thumb_path("/t", "/l/a", 1, 2);
    let c = thumb_path("/t", "/l/a\u{1f}1\u{1f}2", 3, 3);
    assert!(a != b && a != c && b != c);
    let key = a.strip_suffix(".jpg").unwrap().rsplit('/').next().unwrap().to_string();
    assert_eq!(key.len(), 32);
    assert!(key.chars().all(|c| c.is_ascii_digit() || ('a'..='f').contains(&c)));
}
