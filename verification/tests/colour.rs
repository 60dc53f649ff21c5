//! Dominant colours and the order of hues.

use image::{DynamicImage, Rgb, RgbImage};
use renamer::colour::{
    dominant_colour, hue_sort_key, kmeans_dominant, pack, to_hsl, unpack, Rgb as Pixel,
};
use renamer::single::ONE;

fn solid(w: u32, h: u32, colour: [u8; 3]) -> DynamicImage {
    let mut img = RgbImage::new(w, h);
    for (_x, _y, px) in img.enumerate_pixels_mut() {
        *px = Rgb(colour);
    }
    DynamicImage::ImageRgb8(img)
}

/// `fraction` of the width painted `a`, the rest `b`.
fn two_tone(w: u32, h: u32, a: [u8; 3], b: [u8; 3], fraction: f32) -> DynamicImage {
    let mut img = RgbImage::new(w, h);
    let split = (w as f32 * fraction) as u32;
    for (x, _y, px) in img.enumerate_pixels_mut() {
        *px = Rgb(if x < split { a } else { b });
    }
    DynamicImage::ImageRgb8(img)
}

fn close(a: u32, b: u32, tol: i32) -> bool {
    let (ar, ag, ab) = unpack(a);
    let (br, bg, bb) = unpack(b);
    (ar as i32 - br as i32).abs() <= tol
        && (ag as i32 - bg as i32).abs() <= tol
        && (ab as i32 - bb as i32).abs() <= tol
}

#[test]
fn solid_image_yields_that_colour() {
    let c = dominant_colour(&solid(80, 80, [200, 30, 40]));
    assert!(close(c, pack(200, 30, 40), 4), "got {c:06X}");
}

#[test]
fn majority_colour_wins_over_minority() {
    // 80% red, 20% blue: the dominant colour is red, and critically NOT the
    // purple an averaging implementation would produce.
    let img = two_tone(100, 100, [220, 20, 20], [20, 20, 220], 0.8);
    let c = dominant_colour(&img);
    let (r, g, b) = unpack(c);
    assert!(r > 150, "expected a red-dominant result, got {c:06X}");
    assert!(b < 90, "must not blend toward purple, got {c:06X}");
    assert!(g < 90);
}

#[test]
fn minority_subject_does_not_hijack_the_result() {
    let img = two_tone(100, 100, [20, 200, 20], [10, 10, 10], 0.15);
    let (r, g, b) = unpack(dominant_colour(&img));
    // Mostly near-black, so that should win.
    assert!(r < 80 && g < 80 && b < 80);
}

#[test]
fn extraction_is_deterministic() {
    // Colour sort must be stable across runs, so the same input must always
    // give the same output.
    let img = two_tone(64, 64, [10, 120, 200], [200, 180, 20], 0.55);
    let first = dominant_colour(&img);
    for _ in 0..5 {
        assert_eq!(dominant_colour(&img), first);
    }
}

#[test]
fn pack_unpack_roundtrip() {
    for c in [(0, 0, 0), (255, 255, 255), (18, 52, 86), (200, 30, 40)] {
        assert_eq!(unpack(pack(c.0, c.1, c.2)), c);
    }
    assert_eq!(pack(0x12, 0x34, 0x56), 0x123456);
}

/// Hue, saturation and lightness as floating-point numbers.
fn hsl(c: u32) -> (f32, f32, f32) {
    let h = to_hsl(c);
    let one = ONE as f64;
    (
        (h.hue as f64 / one) as f32,
        (h.saturation as f64 / one) as f32,
        (h.lightness as f64 / one) as f32,
    )
}

#[test]
fn hsl_matches_known_values() {
    let (h, s, l) = hsl(pack(255, 0, 0));
    assert!((h - 0.0).abs() < 0.5 && s > 0.99 && (l - 0.5).abs() < 0.01);

    let (h, _, _) = hsl(pack(0, 255, 0));
    assert!((h - 120.0).abs() < 0.5);

    let (h, _, _) = hsl(pack(0, 0, 255));
    assert!((h - 240.0).abs() < 0.5);

    // Greys have no hue and zero saturation.
    let (_, s, l) = hsl(pack(128, 128, 128));
    assert!(s < 0.01);
    assert!((l - 0.502).abs() < 0.01);
}

#[test]
fn hue_sort_orders_spectrum_then_greys_then_unknown() {
    let mut items = vec![
        ("grey", hue_sort_key(Some(pack(128, 128, 128)))),
        ("unknown", hue_sort_key(None)),
        ("blue", hue_sort_key(Some(pack(0, 0, 255)))),
        ("red", hue_sort_key(Some(pack(255, 0, 0)))),
        ("green", hue_sort_key(Some(pack(0, 255, 0)))),
    ];
    items.sort_by_key(|(_, k)| *k);
    let order: Vec<&str> = items.into_iter().map(|(n, _)| n).collect();
    // Saturated colours in spectrum order, then desaturated, then unanalysed.
    assert_eq!(order, vec!["red", "green", "blue", "grey", "unknown"]);
}

#[test]
fn near_greyscale_is_not_scattered_through_the_spectrum() {
    // A slightly-tinted grey has a hue, but sorting by it would drop a
    // black-and-white photo in the middle of the colours.
    let (bucket, _, _) = hue_sort_key(Some(pack(130, 128, 126)));
    assert_eq!(bucket, 1, "near-grey belongs in the grey bucket");
    let (bucket, _, _) = hue_sort_key(Some(pack(220, 20, 20)));
    assert_eq!(bucket, 0);
}

#[test]
fn tiny_and_degenerate_images_do_not_panic() {
    assert_eq!(dominant_colour(&solid(1, 1, [7, 7, 7])) & 0xFF_FFFF, pack(7, 7, 7));
    let _ = dominant_colour(&solid(3, 1, [0, 0, 0]));
}

/// The same key, reckoned with the machine's floating-point numbers.
fn key_in_floats(c: u32) -> (u8, i32, i32) {
    let (r, g, b) = unpack(c);
    let (r, g, b) = (r as f32 / 255.0, g as f32 / 255.0, b as f32 / 255.0);
    let max = r.max(g).max(b);
    let min = r.min(g).min(b);
    let delta = max - min;
    let l = (max + min) / 2.0;
    if delta <= f32::EPSILON {
        return (1, (l * 1000.0) as i32, 0);
    }
    let s = if l > 0.5 { delta / (2.0 - max - min) } else { delta / (max + min) };
    if s < 0.15 {
        return (1, (l * 1000.0) as i32, 0);
    }
    let sixth = if max == r {
        ((g - b) / delta) % 6.0
    } else if max == g {
        (b - r) / delta + 2.0
    } else {
        (r - g) / delta + 4.0
    };
    let mut h = sixth * 60.0;
    if h < 0.0 {
        h += 360.0;
    }
    (0, (h * 10.0) as i32, (l * 1000.0) as i32)
}

#[test]
fn keys_agree_with_floating_point() {
    // A lattice of colours with those where rounding decides: a tenth of a degree
    // or the threshold of grey hangs on the last digit there.
    for c in [
        pack(0, 5, 6),
        pack(0, 9, 6),
        pack(0, 10, 1),
        pack(23, 17, 17),
        pack(204, 186, 190),
        pack(51, 51, 51),
        pack(255, 254, 255),
    ] {
        assert_eq!(hue_sort_key(Some(c)), key_in_floats(c), "{c:06X}");
    }
    let mut c: u32 = 0;
    while c <= 0xFF_FFFF {
        assert_eq!(hue_sort_key(Some(c)), key_in_floats(c), "{c:06X}");
        c += 997;
    }
}

/// The same clustering, reckoned with the machine's floating-point numbers.
fn clusters_in_floats(pixels: &[[f32; 3]]) -> (u8, u8, u8) {
    let n = pixels.len();
    let distance = |a: &[f32; 3], b: &[f32; 3]| {
        let (dr, dg, db) = (a[0] - b[0], a[1] - b[1], a[2] - b[2]);
        dr * dr + dg * dg + db * db
    };
    let mut centres: Vec<[f32; 3]> = (0..5).map(|i| pixels[(i * n) / 5 % n]).collect();
    let mut at = vec![0usize; n];
    for _ in 0..12 {
        let mut moved = false;
        for (i, px) in pixels.iter().enumerate() {
            let mut best = 0;
            for c in 1..5 {
                if distance(px, &centres[c]) < distance(px, &centres[best]) {
                    best = c;
                }
            }
            if at[i] != best {
                at[i] = best;
                moved = true;
            }
        }
        for c in 0..5 {
            let own: Vec<&[f32; 3]> =
                pixels.iter().zip(&at).filter(|(_, a)| **a == c).map(|(p, _)| p).collect();
            if !own.is_empty() {
                for k in 0..3 {
                    let mut sum = 0f32;
                    for p in &own {
                        sum += p[k];
                    }
                    centres[c][k] = sum / own.len() as f32;
                }
            }
        }
        if !moved {
            break;
        }
    }
    let count = |c: usize| at.iter().filter(|a| **a == c).count();
    let mut best = 0;
    for c in 1..5 {
        if count(c) > count(best) {
            best = c;
        }
    }
    let level = |x: f32| x.round().clamp(0.0, 255.0) as u8;
    (level(centres[best][0]), level(centres[best][1]), level(centres[best][2]))
}

#[test]
fn clustering_agrees_with_floating_point() {
    let mut state: u64 = 0x2545_F491_4F6C_DD1D;
    for round in 0..6 {
        let mut pixels: Vec<Pixel> = Vec::new();
        for _ in 0..(50 + 111 * round) {
            state ^= state << 13;
            state ^= state >> 7;
            state ^= state << 17;
            pixels.push(Pixel {
                r: state as u8,
                g: ((state >> 8) as u8) / 2,
                b: (state >> 16) as u8 | 7,
            });
        }
        let floats: Vec<[f32; 3]> =
            pixels.iter().map(|p| [p.r as f32, p.g as f32, p.b as f32]).collect();
        assert_eq!(kmeans_dominant(&pixels), clusters_in_floats(&floats));
    }
}

#[test]
fn one_colour_dominates_itself() {
    let px = Pixel { r: 200, g: 30, b: 40 };
    assert_eq!(kmeans_dominant(&vec![px; 4096]), (200, 30, 40));
    assert_eq!(kmeans_dominant(&[px]), (200, 30, 40));
    assert_eq!(kmeans_dominant(&[]), (0, 0, 0));
}

#[test]
fn exact_keys() {
    assert_eq!(hue_sort_key(None), (2, 0, 0));
    assert_eq!(hue_sort_key(Some(pack(255, 0, 0))), (0, 0, 500));
    assert_eq!(hue_sort_key(Some(pack(0, 255, 0))), (0, 1200, 500));
    assert_eq!(hue_sort_key(Some(pack(0, 0, 255))), (0, 2400, 500));
    assert_eq!(hue_sort_key(Some(pack(128, 128, 128))), (1, 501, 0));
    assert_eq!(hue_sort_key(Some(pack(255, 0, 255))), (0, 3000, 500));
    // Only the low 24 bits hold a colour.
    assert_eq!(unpack(0xFF12_3456), (0x12, 0x34, 0x56));
}

#[test]
fn greys_are_sorted_from_black_to_white() {
    let mut last = hue_sort_key(Some(pack(255, 0, 0)));
    for level in 0..=255u8 {
        let key = hue_sort_key(Some(pack(level, level, level)));
        assert_eq!((key.0, key.2), (1, 0));
        assert!(key > last, "{level}");
        last = key;
    }
    assert_eq!(last, (1, 1000, 0));
    assert!(hue_sort_key(None) > last);
    assert_eq!(hue_sort_key(None), (2, 0, 0));
}
