//! Decoded images: how large they are and what their samples are made of.
use vstd::prelude::*;

verus! {

/// `image::DynamicImage`.
#[verifier::external_type_specification]
#[verifier::external_body]
pub struct ExDynamicImage(image::DynamicImage);

/// How wide an image is, in pixels.
pub uninterp spec fn image_width(img: image::DynamicImage) -> u32;

/// `image::DynamicImage::width`.
#[verifier::external_body]
pub(crate) fn width_of_image(img: &image::DynamicImage) -> (r: u32)
    ensures
        r == image_width(*img),
{
    img.width()
}

/// How high an image is, in pixels.
pub uninterp spec fn image_height(img: image::DynamicImage) -> u32;

/// `image::DynamicImage::height`.
#[verifier::external_body]
pub(crate) fn height_of_image(img: &image::DynamicImage) -> (r: u32)
    ensures
        r == image_height(*img),
{
    img.height()
}

/// What each sample of an image is.
#[derive(Debug, Clone, Copy, PartialEq, Eq, Structural)]
pub enum Depth {
    /// An integer of eight bits.
    Eight,
    /// An integer of sixteen bits.
    Sixteen,
    /// A floating-point number of 32 bits.
    Float,
    /// Anything else.
    Other,
}

/// What each sample of an image is.
pub uninterp spec fn image_depth(img: image::DynamicImage) -> Depth;

/// `image::DynamicImage::color`: the samples of the colour type that it returns, by
/// the colour type's name.
#[verifier::external_body]
pub(crate) fn depth_of_image(img: &image::DynamicImage) -> (r: Depth)
    ensures
        r == image_depth(*img),
{
    match img.color() {
        image::ColorType::L8 => Depth::Eight,
        image::ColorType::La8 => Depth::Eight,
        image::ColorType::Rgb8 => Depth::Eight,
        image::ColorType::Rgba8 => Depth::Eight,
        image::ColorType::L16 => Depth::Sixteen,
        image::ColorType::La16 => Depth::Sixteen,
        image::ColorType::Rgb16 => Depth::Sixteen,
        image::ColorType::Rgba16 => Depth::Sixteen,
        image::ColorType::Rgb32F => Depth::Float,
        image::ColorType::Rgba32F => Depth::Float,
        _ => Depth::Other,
    }
}

/// The samples of an image as floating-point numbers, each by its bits: red, green,
/// blue and alpha of one pixel after the other.
pub uninterp spec fn image_floats(img: image::DynamicImage) -> Seq<u32>;

/// `image::DynamicImage::to_rgba32f`, each sample turned into its bits.
#[verifier::external_body]
pub(crate) fn floats_of_image(img: &image::DynamicImage) -> (r: Vec<u32>)
    ensures
        r@ == image_floats(*img),
{
    img.to_rgba32f().into_raw().into_iter().map(|sample| sample.to_bits()).collect()
}

/// Whether every sample of an image, as a floating-point number, has a magnitude below
/// that of the number with the given bits. Neither infinite values have one nor those
/// that are no number.
pub open spec fn is_below(img: image::DynamicImage, limit: u32) -> bool {
    forall|i: int|
        0 <= i < image_floats(img).len() ==> #[trigger] image_floats(img)[i] & 0x7fff_ffff < limit
}

/// Whether every sample of an image has a magnitude below a limit.
fn below(img: &image::DynamicImage, limit: u32) -> (r: bool)
    ensures
        r == is_below(*img, limit),
{
    let floats: Vec<u32> = floats_of_image(img);
    let mut i: usize = 0;
    while i < floats.len()
        invariant
            floats@ == image_floats(*img),
            i <= floats@.len(),
            forall|j: int|
                0 <= j < i ==> #[trigger] image_floats(*img)[j] & 0x7fff_ffff < limit,
        decreases floats@.len() - i,
    {
        if floats[i] & 0x7fff_ffff >= limit {
            assert(!(image_floats(*img)[i as int] & 0x7fff_ffff < limit));
            return false;
        }
        i += 1;
    }
    true
}

/// The bits of `2^97`. Samples below it stay finite however many are averaged.
pub const MODERATE: u32 = 0x7000_0000;

/// The bits of `2^126`. Samples below it stay finite when those of a row or column of at
/// most [`LONG_EDGE`] are averaged.
pub const EXTREME: u32 = 0x7e80_0000;

/// How long an image may be whose samples are larger than moderate.
pub const LONG_EDGE: u32 = 0x10_0000;

/// Whether an image can be resized and then turned into integer samples: its samples
/// are integers, or numbers that stay finite when they are averaged.
pub open spec fn is_measurable(img: image::DynamicImage) -> bool {
    match image_depth(img) {
        Depth::Eight | Depth::Sixteen => true,
        Depth::Float => is_below(img, MODERATE) || (image_width(img) <= LONG_EDGE && image_height(
            img,
        ) <= LONG_EDGE && is_below(img, EXTREME)),
        Depth::Other => false,
    }
}

/// Whether an image can be resized and then turned into integer samples.
pub fn measurable(img: &image::DynamicImage) -> (r: bool)
    ensures
        r == is_measurable(*img),
{
    match depth_of_image(img) {
        Depth::Eight | Depth::Sixteen => true,
        Depth::Other => false,
        Depth::Float => below(img, MODERATE) || (width_of_image(img) <= LONG_EDGE
            && height_of_image(img) <= LONG_EDGE && below(img, EXTREME)),
    }
}

/// How many samples can be added up without loss when an image is scaled down: as many
/// of the largest, and half as many units again, as 32 bits hold. Floating-point samples
/// are only counted in 32 bits.
pub open spec fn most_samples(depth: Depth) -> nat {
    match depth {
        Depth::Eight => 16_810_048,
        Depth::Sixteen => 65_536,
        Depth::Float => 0xffff_ffff,
        Depth::Other => 0,
    }
}

/// How many pixels at most become one when an image is scaled down to fit a box, given
/// its longer side, its shorter side and the box's edge. The longer side is divided by
/// the edge exactly, the shorter one into pieces at most one and a half times as long,
/// and in single precision a piece may be longer by a few pixels, and by one more for
/// each four million that the side has.
pub open spec fn block_size(longer: u32, shorter: u32, edge: u32) -> nat {
    let slack = longer as nat / 0x40_0000 + 3;
    let along = longer as nat / edge as nat + slack;
    let across = (3 * longer as nat) / (2 * edge as nat) + slack;
    along * if across < shorter {
        across
    } else {
        shorter as nat
    }
}

/// Whether an image can be scaled down to fit a box of the given edge.
pub open spec fn is_fittable(img: image::DynamicImage, edge: u32) -> bool {
    let (w, h) = (image_width(img), image_height(img));
    &&& is_measurable(img)
    &&& if w < h {
        block_size(h, w, edge) <= most_samples(image_depth(img))
    } else {
        block_size(w, h, edge) <= most_samples(image_depth(img))
    }
}

fn block_of(longer: u32, shorter: u32, edge: u32) -> (r: u128)
    requires
        0 < edge,
    ensures
        r == block_size(longer, shorter, edge),
{
    let slack: u128 = longer as u128 / 0x40_0000 + 3;
    let along: u128 = longer as u128 / edge as u128 + slack;
    let across: u128 = (3 * longer as u128) / (2 * edge as u128) + slack;
    let side: u128 = if across < shorter as u128 {
        across
    } else {
        shorter as u128
    };
    assert(longer as u128 / edge as u128 <= longer) by (nonlinear_arith)
        requires
            0 < edge,
    ;
    assert(along * side <= 0x1_0000_1000 * 0x1_0000_0000) by (nonlinear_arith)
        requires
            0 <= along <= 0x1_0000_1000,
            0 <= side <= 0x1_0000_0000,
    ;
    along * side
}

/// Whether an image can be scaled down to fit a box of the given edge.
pub fn fittable(img: &image::DynamicImage, edge: u32) -> (r: bool)
    requires
        0 < edge,
    ensures
        r == is_fittable(*img, edge),
{
    let most: u128 = match depth_of_image(img) {
        Depth::Eight => 16_810_048,
        Depth::Sixteen => 65_536,
        Depth::Float => 0xffff_ffff,
        Depth::Other => 0,
    };
    let w: u32 = width_of_image(img);
    let h: u32 = height_of_image(img);
    let block: u128 = if w < h {
        block_of(h, w, edge)
    } else {
        block_of(w, h, edge)
    };
    block <= most && measurable(img)
}

/// A picture of eight or sixteen bits a sample can always be measured, one of single
/// precision numbers if these are moderate.
pub proof fn ordinary_pictures_can_be_measured(img: image::DynamicImage)
    ensures
        image_depth(img) == Depth::Eight || image_depth(img) == Depth::Sixteen ==> is_measurable(
            img,
        ),
        image_depth(img) == Depth::Float && is_below(img, MODERATE) ==> is_measurable(img),
{
}

/// A picture of eight bits a sample and no edge beyond 65536 pixels can be made a
/// thumbnail, and one of sixteen with no edge beyond 50000.
pub proof fn ordinary_pictures_can_be_made_thumbnails(img: image::DynamicImage)
    ensures
        image_depth(img) == Depth::Eight && image_width(img) <= 65536 && image_height(img) <= 65536
            ==> is_fittable(img, 256),
        image_depth(img) == Depth::Sixteen && image_width(img) <= 50000 && image_height(img)
            <= 50000 ==> is_fittable(img, 256),
{
    let (w, h) = (image_width(img), image_height(img));
    let (longer, shorter) = if w < h {
        (h, w)
    } else {
        (w, h)
    };
    lemma_block(longer, shorter);
}

proof fn lemma_block(longer: u32, shorter: u32)
    ensures
        longer <= 65536 ==> block_size(longer, shorter, 256) <= 100_233,
        longer <= 50000 ==> block_size(longer, shorter, 256) <= 58_410,
{
    let slack = longer as nat / 0x40_0000 + 3;
    let along = longer as nat / 256 + slack;
    let across = (3 * longer as nat) / 512 + slack;
    let least = if across < shorter {
        across
    } else {
        shorter as nat
    };
    assert(block_size(longer, shorter, 256) == along * least);
    if longer <= 65536 {
        assert(along * least <= 100_233) by (nonlinear_arith)
            requires
                along <= 259,
                least <= 387,
        ;
    }
    if longer <= 50000 {
        assert(along * least <= 58_410) by (nonlinear_arith)
            requires
                along <= 198,
                least <= 295,
        ;
    }
}

} // verus!
