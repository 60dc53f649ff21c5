//! Content hashes, perceptual hashes and the radius search over them.

use image::{DynamicImage, Rgb, RgbImage};
use renamer::hashing::{
    content_hash, content_hash_of_chunks, dhash, hamming, key_hash, perceptual_hash_from_image,
    BkTree, ContentHasher,
};

#[test]
fn content_hash_matches_for_identical_bytes() {
    let ha = content_hash(b"hello world");
    assert_eq!(ha, content_hash(b"hello world"));
    assert_ne!(ha, content_hash(b"hello worlds"));
    assert_eq!(ha.len(), 64); // blake3 hex
}

#[test]
fn content_hash_handles_multi_chunk_files() {
    // Larger than one read buffer, to exercise the streaming.
    let data: Vec<u8> = (0..300_000u32).map(|i| (i % 251) as u8).collect();
    let expected = blake3::hash(&data).to_hex().to_string();
    assert_eq!(content_hash(&data), expected);
    let chunks: Vec<Vec<u8>> = data.chunks(64 * 1024).map(|c| c.to_vec()).collect();
    assert_eq!(content_hash_of_chunks(&chunks), expected);
    let mut hasher = ContentHasher::new();
    for chunk in data.chunks(1000) {
        hasher.update(chunk);
    }
    assert_eq!(hasher.finish(), expected);
}

#[test]
fn content_hash_of_known_bytes() {
    // The published hash of no input at all.
    assert_eq!(
        content_hash(b""),
        "af1349b9f5f9a1a6a0404dea36dcc9499bcb25c9adc112b7cc9a93cae41f3262"
    );
}

/// Vertical gradient bars, so the dHash has real horizontal structure.
fn gradient_image(w: u32, h: u32, shift: u8) -> DynamicImage {
    let mut img = RgbImage::new(w, h);
    for (x, _y, px) in img.enumerate_pixels_mut() {
        let v = ((x * 37 + shift as u32 * 11) % 256) as u8;
        *px = Rgb([v, v, v]);
    }
    DynamicImage::ImageRgb8(img)
}

#[test]
fn perceptual_hash_survives_rescaling() {
    let big = gradient_image(400, 300, 0);
    let small = big.resize_exact(200, 150, image::imageops::FilterType::Triangle);
    let hb = perceptual_hash_from_image(&big);
    let hs = perceptual_hash_from_image(&small);
    // A pure downscale should be near-identical perceptually.
    assert!(
        hamming(hb, hs) <= 4,
        "rescaled copy should stay close, got distance {}",
        hamming(hb, hs)
    );
}

#[test]
fn perceptual_hash_separates_different_images() {
    let a = perceptual_hash_from_image(&gradient_image(400, 300, 0));
    let b = perceptual_hash_from_image(&gradient_image(400, 300, 7));
    assert!(
        hamming(a, b) > 4,
        "different images should be far apart, got {}",
        hamming(a, b)
    );
}

#[test]
fn hamming_counts_bit_differences() {
    assert_eq!(hamming(0, 0), 0);
    assert_eq!(hamming(0b1011, 0b1001), 1);
    assert_eq!(hamming(u64::MAX, 0), 64);
}

#[test]
fn bktree_radius_search_is_exact() {
    // Brute force is the oracle: the tree must agree with it exactly.
    let hashes: Vec<u64> = (0..500u64)
        .map(|i| i.wrapping_mul(0x9E37_79B9_7F4A_7C15))
        .collect();
    let mut tree = BkTree::new();
    for (i, &h) in hashes.iter().enumerate() {
        tree.insert(h, i);
    }
    assert_eq!(tree.len(), 500);

    for radius in [0u32, 3, 8, 16] {
        for &probe in hashes.iter().take(25) {
            let mut got = tree.within(probe, radius);
            got.sort_unstable();
            let mut want: Vec<usize> = hashes
                .iter()
                .enumerate()
                .filter(|(_, &h)| hamming(h, probe) <= radius)
                .map(|(i, _)| i)
                .collect();
            want.sort_unstable();
            assert_eq!(got, want, "radius {radius} mismatch");
        }
    }
}

#[test]
fn bktree_keeps_duplicate_hashes_distinct() {
    let mut tree = BkTree::new();
    tree.insert(42, 0);
    tree.insert(42, 1);
    tree.insert(42, 2);
    let mut got = tree.within(42, 0);
    got.sort_unstable();
    assert_eq!(got, vec![0, 1, 2]);
}

#[test]
fn empty_bktree_returns_nothing() {
    let tree = BkTree::new();
    assert!(tree.is_empty());
    assert!(tree.within(1, 64).is_empty());
}

#[test]
fn key_hash_is_stable_and_separated() {
    assert_eq!(key_hash(&["a", "b"]), key_hash(&["a", "b"]));
    // The separator prevents component-boundary collisions.
    assert_ne!(key_hash(&["a", "bc"]), key_hash(&["ab", "c"]));
    assert_eq!(key_hash(&["x"]).len(), 32);
}

#[test]
fn key_hash_is_a_prefix_of_the_hash_of_separated_parts() {
    let whole = blake3::hash(b"a\x1fbc\x1f").to_hex().to_string();
    assert_eq!(key_hash(&["a", "bc"]), whole[..32]);
}

#[test]
fn dhash_sets_a_bit_where_brightness_falls() {
    // Each row of nine levels gives eight bits, the first pair the lowest one.
    let rising: Vec<u8> = (0..72).map(|i| (i % 9) as u8).collect();
    assert_eq!(dhash(&rising), 0);
    let falling: Vec<u8> = (0..72).map(|i| 8 - (i % 9) as u8).collect();
    assert_eq!(dhash(&falling), u64::MAX);
    let mut one = vec![0u8; 72];
    one[0] = 1;
    assert_eq!(dhash(&one), 1);
    one[0] = 0;
    one[9 + 3] = 5;
    assert_eq!(dhash(&one), 1 << 11);
}

#[test]
fn hamming_is_a_metric() {
    let probes = [0u64, 1, 0b1011, 0xFFFF_0000, u64::MAX, 0x9E37_79B9_7F4A_7C15];
    for &a in &probes {
        for &b in &probes {
            assert_eq!(hamming(a, b), hamming(b, a));
            assert_eq!(hamming(a, b) == 0, a == b);
            assert!(hamming(a, b) <= 64);
            for &c in &probes {
                assert!(hamming(a, c) <= hamming(a, b) + hamming(b, c));
            }
        }
    }
}
