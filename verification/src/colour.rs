//! Dominant colours and the order of hues.
//!
//! Used to sort a library by colour. The dominant colour is the largest cluster's,
//! not the mean of the pixels, which would turn every photo into the same muddy
//! brown: a red sunset averaged against a blue sea is grey.
use vstd::prelude::*;

use crate::order;
use crate::picture;
use crate::single;
use crate::single::{to_signed_single, to_single, ONE};

verus! {

/// A colour packed as `0xRRGGBB`.
pub open spec fn packed(r: u8, g: u8, b: u8) -> int {
    r * 0x10000 + g * 0x100 + b
}

/// The red, green and blue of a packed colour.
pub open spec fn unpacked(c: u32) -> (u8, u8, u8) {
    (
        ((c as int / 0x10000) % 0x100) as u8,
        ((c as int / 0x100) % 0x100) as u8,
        (c as int % 0x100) as u8,
    )
}

/// Packs a colour as `0xRRGGBB`.
pub fn pack(r: u8, g: u8, b: u8) -> (c: u32)
    ensures
        c == packed(r, g, b),
{
    r as u32 * 0x10000 + g as u32 * 0x100 + b as u32
}

/// The red, green and blue of a packed colour.
pub fn unpack(c: u32) -> (r: (u8, u8, u8))
    ensures
        r == unpacked(c),
{
    (((c / 0x10000) % 0x100) as u8, ((c / 0x100) % 0x100) as u8, (c % 0x100) as u8)
}

/// What is packed comes out as it went in.
#[verifier::rlimit(30)]
pub proof fn packing_loses_nothing(r: u8, g: u8, b: u8)
    ensures
        packed(r, g, b) <= 0xFF_FFFF,
        unpacked(packed(r, g, b) as u32) == (r, g, b),
{
    let c = packed(r, g, b);
    let front = r * 0x100 + g;
    assert(c / 0x100 == front && c % 0x100 == b);
    assert(c / 0x10000 == r);
    assert(front % 0x100 == g);
    assert(r as int % 0x100 == r);
}

/// A level of eight bits as a share of one.
pub open spec fn share(level: u8) -> nat {
    single::single((level * ONE) as nat, 255)
}

pub open spec fn larger(a: nat, b: nat) -> nat {
    if a >= b {
        a
    } else {
        b
    }
}

pub open spec fn smaller(a: nat, b: nat) -> nat {
    if a <= b {
        a
    } else {
        b
    }
}

/// Below this difference, `2^-23`, colours count as grey.
pub const GREY_MARGIN: u128 = 0x200_0000;

/// Hue in degrees, saturation and lightness, each counted in units of which
/// [`ONE`] make one.
#[derive(Debug, Clone, Copy, PartialEq, Eq, Structural)]
pub struct Hsl {
    pub hue: i128,
    pub saturation: u128,
    pub lightness: u128,
}

/// The remainder of a division by six, of the dividend's sign.
pub open spec fn modulo_six(x: int) -> int {
    if x < 0 {
        -((-x) % (6 * ONE))
    } else {
        x % (6 * ONE)
    }
}

/// The hue of a colour of the given shares, in degrees. It is reckoned in single
/// precision, from the share that is largest.
pub open spec fn hue_of(r: nat, g: nat, b: nat, max: nat, delta: nat) -> int {
    let sixth = if max == r {
        modulo_six(
            single::signed_single(single::signed_single(g - b, 1) * ONE, delta),
        )
    } else if max == g {
        single::signed_single(
            single::signed_single(single::signed_single(b - r, 1) * ONE, delta) + 2 * ONE,
            1,
        )
    } else {
        single::signed_single(
            single::signed_single(single::signed_single(r - g, 1) * ONE, delta) + 4 * ONE,
            1,
        )
    };
    let hue = single::signed_single(sixth * 60, 1);
    if hue < 0 {
        single::signed_single(hue + 360 * ONE, 1)
    } else {
        hue
    }
}

/// Hue, saturation and lightness of a colour, reckoned in single precision. A grey
/// has no hue.
pub open spec fn hsl_of(c: u32) -> (int, nat, nat) {
    let (red, green, blue) = unpacked(c);
    let (r, g, b) = (share(red), share(green), share(blue));
    let max = larger(larger(r, g), b);
    let min = smaller(smaller(r, g), b);
    let delta = single::single((max - min) as nat, 1);
    let sum = single::single(max + min, 1);
    let lightness = sum / 2;
    if delta <= GREY_MARGIN {
        (0, 0, lightness)
    } else {
        let span = if lightness > ONE / 2 {
            single::single((single::single((2 * ONE - max) as nat, 1) - min) as nat, 1)
        } else {
            sum
        };
        (hue_of(r, g, b, max, delta), single::single(delta * ONE as nat, span), lightness)
    }
}

fn share_of(level: u8) -> (r: u128)
    ensures
        r == share(level),
        r <= ONE,
{
    proof {
        single::lemma_single_about_one((level * ONE) as nat, 255);
    }
    to_single(level as u128 * ONE, 255)
}

fn part_of_circle(x: u128, y: u128, delta: u128) -> (r: i128)
    requires
        x <= ONE,
        y <= ONE,
        0 < delta <= 0x4_0000_0000_0000,
    ensures
        r == single::signed_single(
            single::signed_single(x - y, 1) * ONE,
            delta as nat,
        ),
        -0xF_FFFF_FFFF_FFFF_FFFF_FFFF_FFFF <= r <= 0xF_FFFF_FFFF_FFFF_FFFF_FFFF_FFFF,
{
    let d: i128 = to_signed_single(x as i128 - y as i128, 1);
    to_signed_single(d * ONE as i128, delta)
}

fn find_hue(r: u128, g: u128, b: u128, max: u128, delta: u128) -> (hue: i128)
    requires
        r <= ONE,
        g <= ONE,
        b <= ONE,
        0 < delta <= 0x4_0000_0000_0000,
    ensures
        hue == hue_of(r as nat, g as nat, b as nat, max as nat, delta as nat),
        -0xFFFF_FFFF_FFFF_FFFF_FFFF_FFFF_FFFF <= hue <= 0xFFFF_FFFF_FFFF_FFFF_FFFF_FFFF_FFFF,
{
    let one: i128 = ONE as i128;
    let sixth: i128 = if max == r {
        let x: i128 = part_of_circle(g, b, delta);
        if x < 0 {
            -((-x) % (6 * one))
        } else {
            x % (6 * one)
        }
    } else if max == g {
        let x: i128 = part_of_circle(b, r, delta);
        to_signed_single(x + 2 * one, 1)
    } else {
        let x: i128 = part_of_circle(r, g, delta);
        to_signed_single(x + 4 * one, 1)
    };
    let hue: i128 = to_signed_single(sixth * 60, 1);
    if hue < 0 {
        to_signed_single(hue + 360 * one, 1)
    } else {
        hue
    }
}

/// Hue, saturation and lightness of a packed colour.
pub fn to_hsl(c: u32) -> (h: Hsl)
    ensures
        (h.hue as int, h.saturation as nat, h.lightness as nat) == hsl_of(c),
        h.lightness <= 2 * ONE,
        -0xFFFF_FFFF_FFFF_FFFF_FFFF_FFFF_FFFF <= h.hue <= 0xFFFF_FFFF_FFFF_FFFF_FFFF_FFFF_FFFF,
{
    let (red, green, blue): (u8, u8, u8) = unpack(c);
    let r: u128 = share_of(red);
    let g: u128 = share_of(green);
    let b: u128 = share_of(blue);
    let mut max: u128 = if r >= g {
        r
    } else {
        g
    };
    if b > max {
        max = b;
    }
    let mut min: u128 = if r <= g {
        r
    } else {
        g
    };
    if b < min {
        min = b;
    }
    let delta: u128 = to_single(max - min, 1);
    let sum: u128 = to_single(max + min, 1);
    let lightness: u128 = sum / 2;
    if delta <= GREY_MARGIN {
        return Hsl { hue: 0, saturation: 0, lightness };
    }
    proof {
        if max == min {
            single::lemma_single_of_zero(1);
        }
        single::lemma_single_of_a_unit((max + min) as nat, 1);
        single::lemma_single_about_one((2 * ONE - max) as nat, 1);
    }
    let span: u128 = if lightness > ONE / 2 {
        let upper: u128 = to_single(2 * ONE - max, 1);
        proof {
            single::lemma_single_of_a_unit((upper - min) as nat, 1);
        }
        to_single(upper - min, 1)
    } else {
        sum
    };
    let saturation: u128 = to_single(delta * ONE, span);
    Hsl { hue: find_hue(r, g, b, max, delta), saturation, lightness }
}

/// The whole part of a number, as near to it as 32 bits allow.
pub open spec fn whole(x: int) -> int {
    let w = if x < 0 {
        -((-x) / (ONE as int))
    } else {
        x / (ONE as int)
    };
    if w < i32::MIN {
        i32::MIN as int
    } else if w > i32::MAX {
        i32::MAX as int
    } else {
        w
    }
}

fn whole_of(x: i128) -> (r: i32)
    requires
        x > i128::MIN,
    ensures
        r == whole(x as int),
{
    let one: i128 = ONE as i128;
    let w: i128 = if x < 0 {
        -((-x) / one)
    } else {
        x / one
    };
    if w < i32::MIN as i128 {
        i32::MIN
    } else if w > i32::MAX as i128 {
        i32::MAX
    } else {
        w as i32
    }
}

/// What a colour is sorted by: spectrum colours by hue, in tenths of a degree, then
/// greys by lightness, in thousandths, then what was not analysed.
pub open spec fn hue_key(colour: Option<u32>) -> (int, int, int) {
    match colour {
        None => (2, 0, 0),
        Some(c) => {
            let (hue, saturation, lightness) = hsl_of(c);
            let thousandths = whole(single::signed_single(lightness as int * 1000, 1));
            if saturation < single::single(15 * ONE as nat, 100) {
                (1, thousandths, 0)
            } else {
                (0, whole(single::signed_single(hue * 10, 1)), thousandths)
            }
        },
    }
}

/// What a colour is sorted by to arrange a library into a rainbow.
///
/// Near-greys go to the end rather than being scattered through the spectrum by
/// hues that mean nothing: among saturated photos a black-and-white one would look
/// out of place. Greys are ordered by lightness.
pub fn hue_sort_key(colour: Option<u32>) -> (r: (u8, i32, i32))
    ensures
        (r.0 as int, r.1 as int, r.2 as int) == hue_key(colour),
{
    match colour {
        None => (2, 0, 0),
        Some(c) => {
            let hsl: Hsl = to_hsl(c);
            let thousandths: i32 = whole_of(to_signed_single(hsl.lightness as i128 * 1000, 1));
            let threshold: u128 = to_single(15 * ONE, 100);
            if hsl.saturation < threshold {
                (1, thousandths, 0)
            } else {
                (0, whole_of(to_signed_single(hsl.hue * 10, 1)), thousandths)
            }
        },
    }
}

/// Edge length of the sample that an image is reduced to before clustering.
pub const SAMPLE_EDGE: u32 = 64;

/// How many pixels a sample holds at most.
pub const SAMPLES: usize = 4096;

/// Number of clusters: enough to tell subject from background without splitting a
/// subject across several clusters.
pub const CLUSTERS: usize = 5;

/// How often the centres are moved at most. It is fixed, so that the same photo
/// always sorts to the same place.
pub const ITERATIONS: usize = 12;

/// A pixel.
#[derive(Debug, Clone, Copy, PartialEq, Eq, Structural)]
pub struct Rgb {
    pub r: u8,
    pub g: u8,
    pub b: u8,
}

/// The centre of a cluster, counted in units of which [`ONE`] make one level.
#[derive(Debug, Clone, Copy, PartialEq, Eq, Structural)]
pub struct Centre {
    pub r: u128,
    pub g: u128,
    pub b: u128,
}

/// A place among the colours.
#[verifier::ext_equal]
pub struct Spot {
    pub r: nat,
    pub g: nat,
    pub b: nat,
}

impl View for Centre {
    type V = Spot;

    open spec fn view(&self) -> Spot {
        Spot { r: self.r as nat, g: self.g as nat, b: self.b as nat }
    }
}

/// Where a pixel is.
pub open spec fn spot(px: Rgb) -> Spot {
    Spot { r: (px.r * ONE) as nat, g: (px.g * ONE) as nat, b: (px.b * ONE) as nat }
}

/// The square of a difference, in single precision.
pub open spec fn square(a: nat, b: nat) -> nat {
    let d = single::single(
        if a >= b {
            (a - b) as nat
        } else {
            (b - a) as nat
        },
        1,
    );
    single::single(d * d, ONE as nat)
}

/// The square of a distance, in single precision.
pub open spec fn square_distance(a: Spot, b: Spot) -> nat {
    single::single(
        single::single(square(a.r, b.r) + square(a.g, b.g), 1) + square(a.b, b.b),
        1,
    )
}

/// The first of the centres before the `n`th that is nearest to a place.
pub open spec fn closest_upto(at: Spot, centres: Seq<Spot>, n: int) -> int
    decreases n,
{
    if n <= 1 {
        0
    } else {
        let best = closest_upto(at, centres, n - 1);
        if square_distance(at, centres[n - 1]) < square_distance(at, centres[best]) {
            n - 1
        } else {
            best
        }
    }
}

/// The centre that each pixel is nearest to.
pub open spec fn assignment(pixels: Seq<Rgb>, centres: Seq<Spot>) -> Seq<int> {
    pixels.map_values(|px: Rgb| closest_upto(spot(px), centres, centres.len() as int))
}

/// The levels of some pixels, added up, and how many pixels they are.
#[verifier::ext_equal]
pub struct Tally {
    pub r: nat,
    pub g: nat,
    pub b: nat,
    pub count: nat,
}

/// The tally of a cluster among the first `n` pixels.
pub open spec fn tally(pixels: Seq<Rgb>, clusters: Seq<int>, c: int, n: int) -> Tally
    decreases n,
{
    if n <= 0 {
        Tally { r: 0, g: 0, b: 0, count: 0 }
    } else {
        let t = tally(pixels, clusters, c, n - 1);
        let px = pixels[n - 1];
        if clusters[n - 1] == c {
            Tally { r: t.r + px.r as nat, g: t.g + px.g as nat, b: t.b + px.b as nat, count: t.count + 1 }
        } else {
            t
        }
    }
}

/// The centre of a cluster: its pixels' mean in single precision, or where it was
/// if it has no pixels.
pub open spec fn centre_of(t: Tally, before: Spot) -> Spot {
    if t.count > 0 {
        Spot {
            r: single::single(t.r * ONE as nat, t.count),
            g: single::single(t.g * ONE as nat, t.count),
            b: single::single(t.b * ONE as nat, t.count),
        }
    } else {
        before
    }
}

/// The centres moved to where their pixels are.
pub open spec fn recentred(pixels: Seq<Rgb>, clusters: Seq<int>, centres: Seq<Spot>) -> Seq<Spot> {
    Seq::new(
        centres.len(),
        |c: int| centre_of(tally(pixels, clusters, c, pixels.len() as int), centres[c]),
    )
}

/// Clusters and centres once nothing moves any more, or after the given number of
/// rounds.
pub open spec fn settled(
    pixels: Seq<Rgb>,
    clusters: Seq<int>,
    centres: Seq<Spot>,
    rounds: nat,
) -> (Seq<int>, Seq<Spot>)
    decreases rounds,
{
    if rounds == 0 {
        (clusters, centres)
    } else {
        let next = assignment(pixels, centres);
        let moved = recentred(pixels, next, centres);
        if next == clusters {
            (next, moved)
        } else {
            settled(pixels, next, moved, (rounds - 1) as nat)
        }
    }
}

/// The centres to begin with: pixels spread evenly through the sample. Chance would
/// make the same photo sort differently from run to run.
pub open spec fn seeds(pixels: Seq<Rgb>) -> Seq<Spot> {
    Seq::new(
        CLUSTERS as nat,
        |i: int| spot(pixels[(i * pixels.len()) / (CLUSTERS as int) % (pixels.len() as int)]),
    )
}

/// The first of the clusters before the `n`th that has most pixels.
pub open spec fn fullest_upto(pixels: Seq<Rgb>, clusters: Seq<int>, n: int) -> int
    decreases n,
{
    if n <= 1 {
        0
    } else {
        let best = fullest_upto(pixels, clusters, n - 1);
        let m = pixels.len() as int;
        if tally(pixels, clusters, n - 1, m).count > tally(pixels, clusters, best, m).count {
            n - 1
        } else {
            best
        }
    }
}

/// The level of eight bits nearest to a number.
pub open spec fn level_of(x: nat) -> u8 {
    let n = (x + ONE as nat / 2) / (ONE as nat);
    if n > 255 {
        255
    } else {
        n as u8
    }
}

/// The colour of the largest cluster of a sample.
pub open spec fn dominant_of(pixels: Seq<Rgb>) -> (u8, u8, u8) {
    if pixels.len() == 0 {
        (0, 0, 0)
    } else {
        let none = Seq::new(pixels.len(), |i: int| 0int);
        let (clusters, centres) = settled(pixels, none, seeds(pixels), ITERATIONS as nat);
        let c = centres[fullest_upto(pixels, clusters, CLUSTERS as int)];
        (level_of(c.r), level_of(c.g), level_of(c.b))
    }
}

/// How large a coordinate of a centre can get.
pub const REACH: u128 = 0x200_0000_0000_0000;

/// Whether a centre lies within reach.
pub open spec fn within(c: Centre) -> bool {
    c.r <= REACH && c.g <= REACH && c.b <= REACH
}

/// Centres as places.
pub open spec fn spots(centres: Seq<Centre>) -> Seq<Spot> {
    centres.map_values(|c: Centre| c@)
}

fn centre_at(px: Rgb) -> (r: Centre)
    ensures
        r@ == spot(px),
        within(r),
{
    Centre { r: px.r as u128 * ONE, g: px.g as u128 * ONE, b: px.b as u128 * ONE }
}

fn square_of(a: u128, b: u128) -> (r: u128)
    requires
        a <= REACH,
        b <= REACH,
    ensures
        r == square(a as nat, b as nat),
        r <= 0x100_0000_0000_0000_0000,
{
    let d: u128 = to_single(
        if a >= b {
            a - b
        } else {
            b - a
        },
        1,
    );
    assert(d * d <= 0x800_0000_0000_0000 * 0x800_0000_0000_0000) by (nonlinear_arith)
        requires
            d <= 0x800_0000_0000_0000,
    ;
    let r: u128 = to_single(d * d, ONE);
    assert(r <= 0x100_0000_0000_0000_0000) by (nonlinear_arith)
        requires
            r * ONE <= 2 * (0x800_0000_0000_0000 * 0x800_0000_0000_0000) + ONE,
    ;
    r
}

fn distance_of(a: Centre, b: Centre) -> (r: u128)
    requires
        within(a),
        within(b),
    ensures
        r == square_distance(a@, b@),
{
    let two: u128 = to_single(square_of(a.r, b.r) + square_of(a.g, b.g), 1);
    to_single(two + square_of(a.b, b.b), 1)
}

fn closest(px: Rgb, centres: &Vec<Centre>) -> (r: usize)
    requires
        centres@.len() == CLUSTERS,
        forall|i: int| 0 <= i < centres@.len() ==> within(#[trigger] centres@[i]),
    ensures
        r == closest_upto(spot(px), spots(centres@), CLUSTERS as int),
        r < CLUSTERS,
{
    let at: Centre = centre_at(px);
    let mut best: usize = 0;
    let mut least: u128 = distance_of(at, centres[0]);
    let mut n: usize = 1;
    while n < CLUSTERS
        invariant
            at@ == spot(px),
            within(at),
            centres@.len() == CLUSTERS,
            forall|i: int| 0 <= i < centres@.len() ==> within(#[trigger] centres@[i]),
            1 <= n <= CLUSTERS,
            best < n,
            best == closest_upto(spot(px), spots(centres@), n as int),
            least == square_distance(spot(px), spots(centres@)[best as int]),
        decreases CLUSTERS - n,
    {
        assert(spots(centres@)[n as int] == centres@[n as int]@);
        let d: u128 = distance_of(at, centres[n]);
        if d < least {
            least = d;
            best = n;
        }
        n += 1;
    }
    best
}

/// A tally in machine numbers.
#[derive(Debug, Clone, Copy)]
pub struct Sums {
    pub r: u64,
    pub g: u64,
    pub b: u64,
    pub count: u64,
}

impl View for Sums {
    type V = Tally;

    open spec fn view(&self) -> Tally {
        Tally { r: self.r as nat, g: self.g as nat, b: self.b as nat, count: self.count as nat }
    }
}

/// Tallies that a sample can give.
pub open spec fn plausible(s: Sums) -> bool {
    s.count <= SAMPLES && s.r <= 255 * s.count && s.g <= 255 * s.count && s.b <= 255 * s.count
}

fn tallies(pixels: &[Rgb], clusters: &Vec<usize>) -> (r: Vec<Sums>)
    requires
        pixels@.len() <= SAMPLES,
        clusters@.len() == pixels@.len(),
        forall|i: int| 0 <= i < clusters@.len() ==> (#[trigger] clusters@[i]) < CLUSTERS,
    ensures
        r@.len() == CLUSTERS,
        forall|c: int|
            0 <= c < CLUSTERS ==> (#[trigger] r@[c])@ == tally(
                pixels@,
                order::positions(clusters@),
                c,
                pixels@.len() as int,
            ) && plausible(r@[c]),
{
    let ghost cs = order::positions(clusters@);
    let mut out: Vec<Sums> = Vec::new();
    let mut c: usize = 0;
    while c < CLUSTERS
        invariant
            c <= CLUSTERS,
            out@.len() == c,
            forall|k: int|
                0 <= k < c ==> (#[trigger] out@[k])@ == tally(pixels@, cs, k, 0) && out@[k].count == 0
                    && plausible(out@[k]),
        decreases CLUSTERS - c,
    {
        out.push(Sums { r: 0, g: 0, b: 0, count: 0 });
        c += 1;
    }
    let mut i: usize = 0;
    while i < pixels.len()
        invariant
            cs == order::positions(clusters@),
            pixels@.len() <= SAMPLES,
            clusters@.len() == pixels@.len(),
            forall|i: int| 0 <= i < clusters@.len() ==> (#[trigger] clusters@[i]) < CLUSTERS,
            i <= pixels@.len(),
            out@.len() == CLUSTERS,
            forall|k: int|
                0 <= k < CLUSTERS ==> (#[trigger] out@[k])@ == tally(pixels@, cs, k, i as int)
                    && out@[k].count <= i && plausible(out@[k]),
        decreases pixels@.len() - i,
    {
        let ghost before = out@;
        let at: usize = clusters[i];
        assert(cs[i as int] == at);
        let px: Rgb = pixels[i];
        let s: Sums = out[at];
        assert(s == before[at as int]);
        out.set(
            at,
            Sums {
                r: s.r + px.r as u64,
                g: s.g + px.g as u64,
                b: s.b + px.b as u64,
                count: s.count + 1,
            },
        );
        assert forall|k: int| 0 <= k < CLUSTERS implies (#[trigger] out@[k])@ == tally(
            pixels@,
            cs,
            k,
            i + 1,
        ) && out@[k].count <= i + 1 && plausible(out@[k]) by {
            assert(before[k]@ == tally(pixels@, cs, k, i as int));
        }
        i += 1;
    }
    out
}

fn mean(sum: u64, count: u64) -> (r: u128)
    requires
        0 < count <= SAMPLES,
        sum <= 255 * count,
    ensures
        r == single::single(sum as nat * ONE as nat, count as nat),
        r <= REACH,
{
    let r: u128 = to_single(sum as u128 * ONE, count as u128);
    assert(r <= REACH) by (nonlinear_arith)
        requires
            r * count <= 2 * (sum * ONE) + count,
            sum <= 255 * count,
            0 < count,
    ;
    r
}

fn recentre(pixels: &[Rgb], clusters: &Vec<usize>, centres: &mut Vec<Centre>)
    requires
        pixels@.len() <= SAMPLES,
        clusters@.len() == pixels@.len(),
        forall|i: int| 0 <= i < clusters@.len() ==> (#[trigger] clusters@[i]) < CLUSTERS,
        old(centres)@.len() == CLUSTERS,
        forall|i: int| 0 <= i < CLUSTERS ==> within(#[trigger] old(centres)@[i]),
    ensures
        spots(final(centres)@) == recentred(
            pixels@,
            order::positions(clusters@),
            spots(old(centres)@),
        ),
        final(centres)@.len() == CLUSTERS,
        forall|i: int| 0 <= i < CLUSTERS ==> within(#[trigger] final(centres)@[i]),
{
    let ghost start = centres@;
    let ghost cs = order::positions(clusters@);
    let sums: Vec<Sums> = tallies(pixels, clusters);
    let mut c: usize = 0;
    while c < CLUSTERS
        invariant
            start == old(centres)@,
            cs == order::positions(clusters@),
            sums@.len() == CLUSTERS,
            forall|c: int|
                0 <= c < CLUSTERS ==> (#[trigger] sums@[c])@ == tally(
                    pixels@,
                    cs,
                    c,
                    pixels@.len() as int,
                ) && plausible(sums@[c]),
            c <= CLUSTERS,
            start.len() == CLUSTERS,
            centres@.len() == CLUSTERS,
            forall|i: int| 0 <= i < CLUSTERS ==> within(#[trigger] centres@[i]),
            forall|i: int| c <= i < CLUSTERS ==> #[trigger] centres@[i] == start[i],
            forall|i: int|
                0 <= i < c ==> (#[trigger] centres@[i])@ == centre_of(
                    tally(pixels@, cs, i, pixels@.len() as int),
                    start[i]@,
                ),
        decreases CLUSTERS - c,
    {
        let s: Sums = sums[c];
        assert(plausible(sums@[c as int]));
        if s.count > 0 {
            let centre: Centre = Centre {
                r: mean(s.r, s.count),
                g: mean(s.g, s.count),
                b: mean(s.b, s.count),
            };
            centres.set(c, centre);
        }
        c += 1;
    }
    assert(spots(centres@) =~= recentred(pixels@, cs, spots(start)));
}

fn to_level(x: u128) -> (r: u8)
    requires
        x <= REACH,
    ensures
        r == level_of(x as nat),
{
    let n: u128 = (x + ONE / 2) / ONE;
    if n > 255 {
        255
    } else {
        n as u8
    }
}

/// The colour of the largest cluster of a sample, found by k-means. Ties go to the
/// cluster that comes first.
pub fn kmeans_dominant(pixels: &[Rgb]) -> (r: (u8, u8, u8))
    requires
        pixels@.len() <= SAMPLES,
    ensures
        r == dominant_of(pixels@),
{
    let n: usize = pixels.len();
    if n == 0 {
        return (0, 0, 0);
    }
    let mut centres: Vec<Centre> = Vec::new();
    let mut i: usize = 0;
    while i < CLUSTERS
        invariant
            n == pixels@.len(),
            0 < n <= SAMPLES,
            i <= CLUSTERS,
            centres@.len() == i,
            forall|k: int| 0 <= k < i ==> within(#[trigger] centres@[k]),
            forall|k: int| 0 <= k < i ==> (#[trigger] centres@[k])@ == seeds(pixels@)[k],
        decreases CLUSTERS - i,
    {
        assert(i * n <= CLUSTERS * SAMPLES) by (nonlinear_arith)
            requires
                i <= CLUSTERS,
                n <= SAMPLES,
        ;
        let at: usize = (i * n) / CLUSTERS % n;
        centres.push(centre_at(pixels[at]));
        i += 1;
    }
    assert(spots(centres@) =~= seeds(pixels@));
    let mut clusters: Vec<usize> = Vec::new();
    let mut j: usize = 0;
    while j < n
        invariant
            j <= n,
            clusters@.len() == j,
            forall|k: int| 0 <= k < j ==> #[trigger] clusters@[k] == 0,
        decreases n - j,
    {
        clusters.push(0);
        j += 1;
    }
    let ghost none = Seq::new(n as nat, |i: int| 0int);
    assert(order::positions(clusters@) =~= none);
    let ghost want = settled(pixels@, none, seeds(pixels@), ITERATIONS as nat);
    let mut rounds: usize = ITERATIONS;
    while rounds > 0
        invariant
            n == pixels@.len(),
            0 < n <= SAMPLES,
            clusters@.len() == n,
            forall|i: int| 0 <= i < clusters@.len() ==> (#[trigger] clusters@[i]) < CLUSTERS,
            centres@.len() == CLUSTERS,
            forall|i: int| 0 <= i < CLUSTERS ==> within(#[trigger] centres@[i]),
            settled(
                pixels@,
                order::positions(clusters@),
                spots(centres@),
                rounds as nat,
            ) == want,
        decreases rounds,
    {
        let ghost before = order::positions(clusters@);
        let ghost cs = spots(centres@);
        let mut moved: bool = false;
        let mut k: usize = 0;
        while k < n
            invariant
                n == pixels@.len(),
                k <= n,
                clusters@.len() == n,
                before.len() == n,
                cs == spots(centres@),
                cs.len() == CLUSTERS,
                centres@.len() == CLUSTERS,
                forall|i: int| 0 <= i < centres@.len() ==> within(#[trigger] centres@[i]),
                forall|i: int| 0 <= i < clusters@.len() ==> (#[trigger] clusters@[i]) < CLUSTERS,
                forall|i: int| k <= i < n ==> #[trigger] clusters@[i] == before[i],
                forall|i: int|
                    0 <= i < k ==> #[trigger] clusters@[i] == assignment(pixels@, cs)[i],
                moved == exists|i: int|
                    0 <= i < k && assignment(pixels@, cs)[i] != #[trigger] before[i],
            decreases n - k,
        {
            let best: usize = closest(pixels[k], &centres);
            assert(best == assignment(pixels@, cs)[k as int]);
            if clusters[k] != best {
                clusters.set(k, best);
                moved = true;
                assert(assignment(pixels@, cs)[k as int] != before[k as int]);
            }
            k += 1;
        }
        let ghost next = assignment(pixels@, cs);
        assert(order::positions(clusters@) =~= next);
        assert(!moved ==> next =~= before);
        recentre(pixels, &clusters, &mut centres);
        if !moved {
            assert((next, spots(centres@)) == want);
            rounds = 0;
        } else {
            assert(next != before);
            rounds -= 1;
        }
    }
    assert((order::positions(clusters@), spots(centres@)) == want);
    let sums: Vec<Sums> = tallies(pixels, &clusters);
    let ghost cl = order::positions(clusters@);
    let mut best: usize = 0;
    let mut c: usize = 1;
    while c < CLUSTERS
        invariant
            sums@.len() == CLUSTERS,
            forall|c: int|
                0 <= c < CLUSTERS ==> (#[trigger] sums@[c])@ == tally(
                    pixels@,
                    cl,
                    c,
                    pixels@.len() as int,
                ),
            1 <= c <= CLUSTERS,
            best < c,
            best == fullest_upto(pixels@, cl, c as int),
        decreases CLUSTERS - c,
    {
        assert(sums@[c as int]@ == tally(pixels@, cl, c as int, pixels@.len() as int));
        assert(sums@[best as int]@ == tally(pixels@, cl, best as int, pixels@.len() as int));
        if sums[c].count > sums[best].count {
            best = c;
        }
        c += 1;
    }
    let centre: Centre = centres[best];
    assert(spots(centres@)[best as int] == centre@);
    assert(within(centres@[best as int]));
    (to_level(centre.r), to_level(centre.g), to_level(centre.b))
}

/// The red, green and blue levels of an image's pixels, row by row, once it has been
/// resized to the given width and height with a triangle filter.
pub uninterp spec fn colour_levels(img: image::DynamicImage, width: u32, height: u32) -> Seq<u8>;

/// `image::DynamicImage::resize_exact` with `FilterType::Triangle`, the result
/// turned into bytes by `to_rgb8`: three levels for each pixel of the resized image.
/// A sample that is no number, or that stops being one on the way, has no level.
#[verifier::external_body]
pub(crate) fn resized_rgb(img: &image::DynamicImage, width: u32, height: u32) -> (r: Vec<u8>)
    requires
        picture::is_measurable(*img),
        0 < width <= 1024,
        0 < height <= 1024,
    ensures
        r@ == colour_levels(*img, width, height),
        r@.len() == 3 * width * height,
{
    img.resize_exact(width, height, image::imageops::FilterType::Triangle).to_rgb8().into_raw()
}

/// The pixels that levels, three by three, make up.
pub open spec fn pixels_of(levels: Seq<u8>) -> Seq<Rgb> {
    Seq::new(
        levels.len() / 3,
        |i: int| Rgb { r: levels[3 * i], g: levels[3 * i + 1], b: levels[3 * i + 2] },
    )
}

/// The pixels that levels, three by three, make up.
pub fn to_pixels(levels: &[u8]) -> (r: Vec<Rgb>)
    ensures
        r@ == pixels_of(levels@),
{
    let all: usize = levels.len();
    let n: usize = all / 3;
    let mut out: Vec<Rgb> = Vec::new();
    let mut i: usize = 0;
    while i < n
        invariant
            all == levels@.len(),
            n == all / 3,
            i <= n,
            out@.len() == i,
            forall|k: int| 0 <= k < i ==> #[trigger] out@[k] == pixels_of(levels@)[k],
        decreases n - i,
    {
        out.push(Rgb { r: levels[3 * i], g: levels[3 * i + 1], b: levels[3 * i + 2] });
        i += 1;
    }
    assert(out@ =~= pixels_of(levels@));
    out
}

/// The dominant colour of a decoded image, packed as `0xRRGGBB`.
pub fn dominant_colour(img: &image::DynamicImage) -> (c: u32)
    requires
        picture::is_measurable(*img),
    ensures
        ({
            let (r, g, b) = dominant_of(pixels_of(colour_levels(*img, SAMPLE_EDGE, SAMPLE_EDGE)));
            c == packed(r, g, b)
        }),
{
    let levels: Vec<u8> = resized_rgb(img, SAMPLE_EDGE, SAMPLE_EDGE);
    let pixels: Vec<Rgb> = to_pixels(levels.as_slice());
    assert(pixels@.len() == 4096);
    let (r, g, b): (u8, u8, u8) = kmeans_dominant(pixels.as_slice());
    pack(r, g, b)
}

proof fn lemma_no_distance(at: Spot)
    ensures
        square_distance(at, at) == 0,
{
    single::lemma_single_of_zero(1);
    single::lemma_single_of_zero(ONE as nat);
    assert(0nat * 0nat == 0);
    assert(square(at.r, at.r) == 0 && square(at.g, at.g) == 0 && square(at.b, at.b) == 0);
}

proof fn lemma_first_of_equals(at: Spot, centres: Seq<Spot>, n: int)
    requires
        0 <= n <= centres.len(),
        forall|i: int| 0 <= i < centres.len() ==> #[trigger] centres[i] == at,
    ensures
        closest_upto(at, centres, n) == 0,
    decreases n,
{
    if n > 1 {
        lemma_first_of_equals(at, centres, n - 1);
        lemma_no_distance(at);
    }
}

proof fn lemma_uniform_tally(pixels: Seq<Rgb>, px: Rgb, clusters: Seq<int>, c: int, n: int)
    requires
        0 <= n <= pixels.len(),
        clusters.len() == pixels.len(),
        forall|i: int| 0 <= i < pixels.len() ==> #[trigger] pixels[i] == px,
        forall|i: int| 0 <= i < pixels.len() ==> #[trigger] clusters[i] == 0,
    ensures
        c == 0 ==> tally(pixels, clusters, c, n) == (Tally {
            r: (n * px.r) as nat,
            g: (n * px.g) as nat,
            b: (n * px.b) as nat,
            count: n as nat,
        }),
        c != 0 ==> tally(pixels, clusters, c, n).count == 0,
    decreases n,
{
    if n > 0 {
        lemma_uniform_tally(pixels, px, clusters, c, n - 1);
        assert(pixels[n - 1] == px);
        assert(clusters[n - 1] == 0);
        assert(n * px.r == (n - 1) * px.r + px.r && n * px.g == (n - 1) * px.g + px.g && n * px.b
            == (n - 1) * px.b + px.b) by (nonlinear_arith);
    }
}

proof fn lemma_uniform_fullest(pixels: Seq<Rgb>, px: Rgb, clusters: Seq<int>, n: int)
    requires
        clusters.len() == pixels.len(),
        forall|i: int| 0 <= i < pixels.len() ==> #[trigger] pixels[i] == px,
        forall|i: int| 0 <= i < pixels.len() ==> #[trigger] clusters[i] == 0,
    ensures
        fullest_upto(pixels, clusters, n) == 0,
    decreases n,
{
    if n > 1 {
        lemma_uniform_fullest(pixels, px, clusters, n - 1);
        lemma_uniform_tally(pixels, px, clusters, n - 1, pixels.len() as int);
    }
}

proof fn lemma_level_is_kept(level: u8, n: nat)
    requires
        n > 0,
    ensures
        level_of(single::single((n * level as nat) * ONE as nat, n)) == level,
{
    single::lemma_single_is_exact(level as nat, n);
    assert((n * level as nat) * ONE as nat == n * (level as nat * ONE as nat)) by (nonlinear_arith);
    assert((level as nat * ONE as nat + ONE as nat / 2) / (ONE as nat) == level as nat);
}

/// The dominant colour of a sample that has only one colour is that colour.
pub proof fn one_colour_dominates_itself(pixels: Seq<Rgb>, px: Rgb)
    requires
        pixels.len() > 0,
        forall|i: int| 0 <= i < pixels.len() ==> #[trigger] pixels[i] == px,
    ensures
        dominant_of(pixels) == (px.r, px.g, px.b),
{
    let n = pixels.len() as int;
    let none = Seq::new(pixels.len(), |i: int| 0int);
    let start = seeds(pixels);
    assert forall|i: int| 0 <= i < start.len() implies #[trigger] start[i] == spot(px) by {
        let at = (i * n) / (CLUSTERS as int) % n;
        assert(0 <= at < n) by (nonlinear_arith)
            requires
                at == ((i * n) / (CLUSTERS as int)) % n,
                n > 0,
        ;
        assert(pixels[at] == px);
    }
    let next = assignment(pixels, start);
    assert forall|i: int| 0 <= i < n implies #[trigger] next[i] == 0 by {
        assert(pixels[i] == px);
        lemma_first_of_equals(spot(px), start, start.len() as int);
    }
    assert(next =~= none);
    let moved = recentred(pixels, next, start);
    assert(settled(pixels, none, start, ITERATIONS as nat) == (next, moved));
    lemma_uniform_fullest(pixels, px, next, CLUSTERS as int);
    lemma_uniform_tally(pixels, px, next, 0, n);
    lemma_level_is_kept(px.r, pixels.len());
    lemma_level_is_kept(px.g, pixels.len());
    lemma_level_is_kept(px.b, pixels.len());
    let t = tally(pixels, next, 0, n);
    assert(t.count == n && t.r == n * px.r);
    assert(moved[0] == centre_of(t, start[0]));
}

/// Whether a sort key comes before another.
pub open spec fn key_before(a: (int, int, int), b: (int, int, int)) -> bool {
    a.0 < b.0 || (a.0 == b.0 && (a.1 < b.1 || (a.1 == b.1 && a.2 < b.2)))
}

/// Whether a colour is sorted among the greys: its saturation is below 0.15.
pub open spec fn is_grey(c: u32) -> bool {
    hsl_of(c).1 < single::single(15 * ONE as nat, 100)
}

/// What was not analysed comes after everything that was, and greys after the
/// spectrum.
pub proof fn greys_and_unknowns_come_last(c: u32, d: u32)
    ensures
        hue_key(None) == (2int, 0int, 0int),
        key_before(hue_key(Some(c)), hue_key(None)),
        hue_key(Some(c)).0 == 1 <==> is_grey(c),
        hue_key(Some(c)).0 == 0 <==> !is_grey(c),
        is_grey(c) ==> hue_key(Some(c)).2 == 0,
        !is_grey(c) && is_grey(d) ==> key_before(hue_key(Some(c)), hue_key(Some(d))),
{
}

/// Among the greys the order is by lightness: a grey is never sorted after a lighter
/// one.
pub proof fn greys_go_by_lightness(c: u32, d: u32)
    requires
        is_grey(c),
        is_grey(d),
        hsl_of(c).2 <= hsl_of(d).2,
    ensures
        !key_before(hue_key(Some(d)), hue_key(Some(c))),
{
    let (x, y) = (hsl_of(c).2, hsl_of(d).2);
    single::rounding_keeps_order((x * 1000) as nat, (y * 1000) as nat, 1);
    let (p, q) = (
        single::signed_single(x as int * 1000, 1),
        single::signed_single(y as int * 1000, 1),
    );
    assert(p / (ONE as int) <= q / (ONE as int)) by (nonlinear_arith)
        requires
            0 <= p <= q,
    ;
}

proof fn lemma_plain_grey(level: u8)
    ensures
        is_grey(packed(level, level, level) as u32),
        hsl_of(packed(level, level, level) as u32).2 == single::single(2 * share(level), 1) / 2,
{
    let c = packed(level, level, level) as u32;
    packing_loses_nothing(level, level, level);
    assert(unpacked(c) == (level, level, level));
    single::lemma_single_of_zero(1);
    single::lemma_single_of_a_unit(15 * ONE as nat, 100);
    assert(share(level) + share(level) == 2 * share(level));
}

/// Plain greys are sorted from black to white.
pub proof fn plain_greys_go_from_black_to_white(u: u8, v: u8)
    requires
        u <= v,
    ensures
        hue_key(Some(packed(u, u, u) as u32)).0 == 1,
        hue_key(Some(packed(v, v, v) as u32)).0 == 1,
        !key_before(
            hue_key(Some(packed(v, v, v) as u32)),
            hue_key(Some(packed(u, u, u) as u32)),
        ),
{
    lemma_plain_grey(u);
    lemma_plain_grey(v);
    single::rounding_keeps_order((u * ONE) as nat, (v * ONE) as nat, 255);
    single::rounding_keeps_order(2 * share(u), 2 * share(v), 1);
    greys_go_by_lightness(packed(u, u, u) as u32, packed(v, v, v) as u32);
}

/// The pixels of a sample are its levels three by three: red, green and blue.
pub proof fn samples_are_read_three_by_three(levels: Seq<u8>, i: int)
    requires
        0 <= i,
        3 * i + 2 < levels.len(),
    ensures
        i < pixels_of(levels).len(),
        pixels_of(levels)[i].r == levels[3 * i],
        pixels_of(levels)[i].g == levels[3 * i + 1],
        pixels_of(levels)[i].b == levels[3 * i + 2],
        3 * pixels_of(levels).len() <= levels.len() < 3 * pixels_of(levels).len() + 3,
{
}

/// A mean lies between the least and the greatest of what it is taken of.
proof fn lemma_mean_between(sum: nat, count: nat, lo: nat, hi: nat)
    requires
        count > 0,
        count * lo <= sum <= count * hi,
        hi < 0x100_0000,
    ensures
        lo * ONE <= single::single(sum * ONE as nat, count) <= hi * ONE,
{
    single::lemma_single_is_exact(hi, count);
    assert(lo <= hi) by (nonlinear_arith)
        requires
            count > 0,
            count * lo <= count * hi,
    ;
    single::lemma_single_is_exact(lo, count);
    assert(count * (lo * ONE as nat) <= sum * ONE as nat <= count * (hi * ONE as nat))
        by (nonlinear_arith)
        requires
            count * lo <= sum <= count * hi,
    ;
    single::rounding_keeps_order(count * (lo * ONE as nat), sum * ONE as nat, count);
    single::rounding_keeps_order(sum * ONE as nat, count * (hi * ONE as nat), count);
}

proof fn lemma_tally_between(
    pixels: Seq<Rgb>,
    clusters: Seq<int>,
    c: int,
    n: int,
    low: (nat, nat, nat),
    high: (nat, nat, nat),
)
    requires
        0 <= n <= pixels.len(),
        clusters.len() == pixels.len(),
        forall|i: int|
            0 <= i < pixels.len() && #[trigger] clusters[i] == c ==> low.0 <= pixels[i].r <= high.0
                && low.1 <= pixels[i].g <= high.1 && low.2 <= pixels[i].b <= high.2,
    ensures
        ({
            let t = tally(pixels, clusters, c, n);
            &&& t.count * low.0 <= t.r <= t.count * high.0
            &&& t.count * low.1 <= t.g <= t.count * high.1
            &&& t.count * low.2 <= t.b <= t.count * high.2
        }),
    decreases n,
{
    if n > 0 {
        lemma_tally_between(pixels, clusters, c, n - 1, low, high);
        if clusters[n - 1] == c {
            let k = tally(pixels, clusters, c, n - 1).count;
            assert((k + 1) * low.0 == k * low.0 + low.0 && (k + 1) * low.1 == k * low.1 + low.1 && (k
                + 1) * low.2 == k * low.2 + low.2) by (nonlinear_arith);
            assert((k + 1) * high.0 == k * high.0 + high.0 && (k + 1) * high.1 == k * high.1
                + high.1 && (k + 1) * high.2 == k * high.2 + high.2) by (nonlinear_arith);
        }
    } else {
        assert(0 * low.0 == 0 && 0 * low.1 == 0 && 0 * low.2 == 0);
        assert(0 * high.0 == 0 && 0 * high.1 == 0 && 0 * high.2 == 0);
    }
}

/// What the clusters of a settled sample are: each pixel is with the centre closest to it,
/// for centres of which some property holds that moving them keeps.
proof fn lemma_settled(
    pixels: Seq<Rgb>,
    clusters: Seq<int>,
    centres: Seq<Spot>,
    rounds: nat,
    p: spec_fn(Seq<Spot>) -> bool,
) -> (at: Seq<Spot>)
    requires
        rounds > 0,
        p(centres),
        forall|cs: Seq<Spot>|
            p(cs) ==> p(#[trigger] recentred(pixels, assignment(pixels, cs), cs)),
    ensures
        p(at),
        settled(pixels, clusters, centres, rounds) == (
            assignment(pixels, at),
            recentred(pixels, assignment(pixels, at), at),
        ),
    decreases rounds,
{
    let next = assignment(pixels, centres);
    let moved = recentred(pixels, next, centres);
    if next == clusters {
        centres
    } else if rounds == 1 {
        assert(settled(pixels, next, moved, 0) == (next, moved));
        centres
    } else {
        lemma_settled(pixels, next, moved, (rounds - 1) as nat, p)
    }
}

proof fn lemma_closest(at: Spot, centres: Seq<Spot>, n: int)
    requires
        1 <= n <= centres.len(),
    ensures
        0 <= closest_upto(at, centres, n) < n,
        forall|j: int|
            0 <= j < n ==> square_distance(at, centres[closest_upto(at, centres, n)])
                <= square_distance(at, #[trigger] centres[j]),
    decreases n,
{
    if n > 1 {
        lemma_closest(at, centres, n - 1);
    }
}

proof fn lemma_fullest(pixels: Seq<Rgb>, clusters: Seq<int>, n: int)
    requires
        1 <= n,
    ensures
        0 <= fullest_upto(pixels, clusters, n) < n,
        forall|c: int|
            0 <= c < n ==> #[trigger] tally(pixels, clusters, c, pixels.len() as int).count <= tally(
                pixels,
                clusters,
                fullest_upto(pixels, clusters, n),
                pixels.len() as int,
            ).count,
    decreases n,
{
    if n > 1 {
        lemma_fullest(pixels, clusters, n - 1);
    }
}

/// How many of the first pixels have a colour.
spec fn count_of(pixels: Seq<Rgb>, px: Rgb, n: int) -> nat {
    pixels.take(n).to_multiset().count(px)
}

proof fn lemma_count_step(pixels: Seq<Rgb>, px: Rgb, n: int)
    requires
        0 < n <= pixels.len(),
    ensures
        count_of(pixels, px, n) == count_of(pixels, px, n - 1) + if pixels[n - 1] == px {
            1nat
        } else {
            0nat
        },
{
    broadcast use vstd::seq_lib::group_to_multiset_ensures;
    broadcast use vstd::multiset::group_multiset_axioms;

    assert(pixels.take(n) =~= pixels.take(n - 1).push(pixels[n - 1]));
}

proof fn lemma_count_none(pixels: Seq<Rgb>, px: Rgb)
    ensures
        count_of(pixels, px, 0) == 0,
{
    broadcast use vstd::seq_lib::group_to_multiset_ensures;

    assert(!pixels.take(0).contains(px));
    vstd::seq_lib::to_multiset_contains(pixels.take(0), px);
}

proof fn lemma_tally_of_majority(pixels: Seq<Rgb>, px: Rgb, clusters: Seq<int>, c: int, n: int)
    requires
        0 <= n <= pixels.len(),
        clusters.len() == pixels.len(),
        forall|i: int| 0 <= i < pixels.len() && #[trigger] pixels[i] == px ==> clusters[i] == c,
    ensures
        ({
            let t = tally(pixels, clusters, c, n);
            let m = count_of(pixels, px, n);
            &&& m <= t.count <= n
            &&& m * px.r <= t.r && m * (255 - px.r) <= 255 * t.count - t.r
            &&& m * px.g <= t.g && m * (255 - px.g) <= 255 * t.count - t.g
            &&& m * px.b <= t.b && m * (255 - px.b) <= 255 * t.count - t.b
        }),
    decreases n,
{
    if n > 0 {
        lemma_tally_of_majority(pixels, px, clusters, c, n - 1);
        lemma_count_step(pixels, px, n);
        if pixels[n - 1] == px {
            let m = count_of(pixels, px, n - 1) as int;
            assert((m + 1) * px.r == m * px.r + px.r && (m + 1) * (255 - px.r) == m * (255 - px.r) + (
            255 - px.r)) by (nonlinear_arith);
            assert((m + 1) * px.g == m * px.g + px.g && (m + 1) * (255 - px.g) == m * (255 - px.g) + (
            255 - px.g)) by (nonlinear_arith);
            assert((m + 1) * px.b == m * px.b + px.b && (m + 1) * (255 - px.b) == m * (255 - px.b) + (
            255 - px.b)) by (nonlinear_arith);
        }
    } else {
        lemma_count_none(pixels, px);
        assert(0 * px.r == 0 && 0 * px.g == 0 && 0 * px.b == 0);
        assert(0 * (255 - px.r) == 0 && 0 * (255 - px.g) == 0 && 0 * (255 - px.b) == 0);
    }
}

proof fn lemma_two_tallies(pixels: Seq<Rgb>, clusters: Seq<int>, c: int, d: int, n: int)
    requires
        c != d,
        0 <= n,
    ensures
        tally(pixels, clusters, c, n).count + tally(pixels, clusters, d, n).count <= n,
    decreases n,
{
    if n > 0 {
        lemma_two_tallies(pixels, clusters, c, d, n - 1);
    }
}

/// The cluster of a colour that more than half of the pixels have is the fullest.
proof fn lemma_majority_is_fullest(pixels: Seq<Rgb>, px: Rgb, centres: Seq<Spot>)
    requires
        centres.len() == CLUSTERS,
        pixels.len() > 0,
        2 * pixels.to_multiset().count(px) > pixels.len(),
    ensures
        ({
            let clusters = assignment(pixels, centres);
            let c = closest_upto(spot(px), centres, centres.len() as int);
            let t = tally(pixels, clusters, c, pixels.len() as int);
            let m = pixels.to_multiset().count(px);
            &&& 0 <= c < CLUSTERS
            &&& fullest_upto(pixels, clusters, CLUSTERS as int) == c
            &&& m <= t.count <= pixels.len()
            &&& m * px.r <= t.r && m * (255 - px.r) <= 255 * t.count - t.r
            &&& m * px.g <= t.g && m * (255 - px.g) <= 255 * t.count - t.g
            &&& m * px.b <= t.b && m * (255 - px.b) <= 255 * t.count - t.b
        }),
{
    let n = pixels.len() as int;
    let clusters = assignment(pixels, centres);
    let c = closest_upto(spot(px), centres, centres.len() as int);
    lemma_closest(spot(px), centres, centres.len() as int);
    assert(pixels.take(n) =~= pixels);
    lemma_tally_of_majority(pixels, px, clusters, c, n);
    lemma_fullest(pixels, clusters, CLUSTERS as int);
    let f = fullest_upto(pixels, clusters, CLUSTERS as int);
    assert(tally(pixels, clusters, c, n).count <= tally(pixels, clusters, f, n).count);
    if f != c {
        lemma_two_tallies(pixels, clusters, c, f, n);
    }
}

proof fn lemma_majority_level(m: nat, count: nat, sum: nat, level: u8)
    requires
        0 < count < 2 * m,
        m * level <= sum,
        m * (255 - level) <= 255 * count - sum,
    ensures
        level / 2 <= level_of(single::single(sum * ONE as nat, count)),
        (255 - level) / 2 <= 255 - level_of(single::single(sum * ONE as nat, count)),
{
    let lo = (level / 2) as nat;
    let hi = ((256 + level) / 2) as nat;
    assert(count * lo <= sum) by (nonlinear_arith)
        requires
            count < 2 * m,
            m * level <= sum,
            2 * lo <= level,
            0 <= lo,
    ;
    assert(sum <= count * hi) by (nonlinear_arith)
        requires
            0 < count < 2 * m,
            m * (255 - level) <= 255 * count - sum,
            255 + level <= 2 * hi,
            level <= 255,
    ;
    lemma_mean_between(sum, count, lo, hi);
    let x = single::single(sum * ONE as nat, count);
    assert(lo <= (x + ONE as nat / 2) / (ONE as nat) <= hi) by (nonlinear_arith)
        requires
            lo * ONE <= x <= hi * ONE,
    ;
}

/// A colour that more than half of the pixels have draws the dominant colour to itself:
/// each level of that is at least half of its own, and as far from full at least by half
/// of what its own is.
pub proof fn majorities_draw_the_dominant_colour(levels: Seq<u8>, px: Rgb)
    requires
        2 * pixels_of(levels).to_multiset().count(px) > levels.len() / 3,
    ensures
        ({
            let d = dominant_of(pixels_of(levels));
            &&& px.r / 2 <= d.0 && (255 - px.r) / 2 <= 255 - d.0
            &&& px.g / 2 <= d.1 && (255 - px.g) / 2 <= 255 - d.1
            &&& px.b / 2 <= d.2 && (255 - px.b) / 2 <= 255 - d.2
        }),
{
    let pixels = pixels_of(levels);
    if pixels.len() == 0 {
        assert(pixels.take(0) =~= pixels);
        lemma_count_none(pixels, px);
    }
    let none = Seq::new(pixels.len(), |i: int| 0int);
    let at = lemma_settled(
        pixels,
        none,
        seeds(pixels),
        ITERATIONS as nat,
        |cs: Seq<Spot>| cs.len() == CLUSTERS,
    );
    lemma_majority_is_fullest(pixels, px, at);
    let c = closest_upto(spot(px), at, at.len() as int);
    let t = tally(pixels, assignment(pixels, at), c, pixels.len() as int);
    let m = pixels.to_multiset().count(px);
    lemma_majority_level(m, t.count, t.r, px.r);
    lemma_majority_level(m, t.count, t.g, px.g);
    lemma_majority_level(m, t.count, t.b, px.b);
}

proof fn lemma_square_upto(a: nat, b: nat, w: nat)
    requires
        w <= 255,
        -w * ONE <= a - b <= w * ONE,
    ensures
        square(a, b) <= w * w * ONE,
{
    let diff: nat = if a >= b {
        (a - b) as nat
    } else {
        (b - a) as nat
    };
    let d = single::single(diff, 1);
    single::lemma_single_is_exact(w, 1);
    assert(1 * (w * ONE as nat) == w * ONE as nat);
    single::rounding_keeps_order(diff, w * ONE as nat, 1);
    assert(d <= w * ONE);
    assert(w * w < 0x100_0000) by (nonlinear_arith)
        requires
            w <= 255,
    ;
    single::lemma_single_is_exact(w * w, ONE as nat);
    assert(d * d <= ONE as nat * ((w * w) * ONE as nat)) by (nonlinear_arith)
        requires
            0 <= d <= w * ONE,
    ;
    single::rounding_keeps_order(d * d, ONE as nat * ((w * w) * ONE as nat), ONE as nat);
}

proof fn lemma_square_from(a: nat, b: nat, w: nat)
    requires
        w <= 255,
        a - b >= w * ONE || b - a >= w * ONE,
    ensures
        square(a, b) >= w * w * ONE,
{
    let diff: nat = if a >= b {
        (a - b) as nat
    } else {
        (b - a) as nat
    };
    assert(w * ONE >= 0) by (nonlinear_arith);
    let d = single::single(diff, 1);
    single::lemma_single_is_exact(w, 1);
    assert(1 * (w * ONE as nat) == w * ONE as nat);
    single::rounding_keeps_order(w * ONE as nat, diff, 1);
    assert(d >= w * ONE);
    assert(w * w < 0x100_0000) by (nonlinear_arith)
        requires
            w <= 255,
    ;
    single::lemma_single_is_exact(w * w, ONE as nat);
    assert(d * d >= ONE as nat * ((w * w) * ONE as nat)) by (nonlinear_arith)
        requires
            d >= w * ONE,
            w >= 0,
    ;
    single::rounding_keeps_order(ONE as nat * ((w * w) * ONE as nat), d * d, ONE as nat);
}

proof fn lemma_distance_upto(a: Spot, b: Spot, w: nat)
    requires
        w <= 255,
        -w * ONE <= a.r - b.r <= w * ONE,
        -w * ONE <= a.g - b.g <= w * ONE,
        -w * ONE <= a.b - b.b <= w * ONE,
    ensures
        square_distance(a, b) <= 3 * (w * w) * ONE,
{
    lemma_square_upto(a.r, b.r, w);
    lemma_square_upto(a.g, b.g, w);
    lemma_square_upto(a.b, b.b, w);
    let s = w * w;
    assert(s <= 255 * 255) by (nonlinear_arith)
        requires
            s == w * w,
            w <= 255,
    ;
    single::lemma_single_is_exact(2 * s, 1);
    single::lemma_single_is_exact(3 * s, 1);
    let two = square(a.r, b.r) + square(a.g, b.g);
    assert(1 * ((2 * s) * ONE as nat) == 2 * s * ONE && 1 * ((3 * s) * ONE as nat) == 3 * s * ONE);
    single::rounding_keeps_order(two, (2 * s) * ONE as nat, 1);
    single::rounding_keeps_order(
        single::single(two, 1) + square(a.b, b.b),
        (3 * s) * ONE as nat,
        1,
    );
}

proof fn lemma_distance_from(a: Spot, b: Spot, w: nat)
    requires
        w <= 255,
        a.r - b.r >= w * ONE || b.r - a.r >= w * ONE || a.g - b.g >= w * ONE || b.g - a.g >= w * ONE
            || a.b - b.b >= w * ONE || b.b - a.b >= w * ONE,
    ensures
        square_distance(a, b) >= w * w * ONE,
{
    let s = w * w;
    assert(s <= 255 * 255) by (nonlinear_arith)
        requires
            s == w * w,
            w <= 255,
    ;
    single::lemma_single_is_exact(s, 1);
    assert(1 * (s * ONE as nat) == s * ONE);
    let two = square(a.r, b.r) + square(a.g, b.g);
    if a.r - b.r >= w * ONE || b.r - a.r >= w * ONE {
        lemma_square_from(a.r, b.r, w);
        single::rounding_keeps_order(s * ONE as nat, two, 1);
    } else if a.g - b.g >= w * ONE || b.g - a.g >= w * ONE {
        lemma_square_from(a.g, b.g, w);
        single::rounding_keeps_order(s * ONE as nat, two, 1);
    } else {
        lemma_square_from(a.b, b.b, w);
    }
    single::rounding_keeps_order(s * ONE as nat, single::single(two, 1) + square(a.b, b.b), 1);
}

/// Whether a place lies in the cube that some levels begin and that is so wide.
spec fn in_cube(c: Spot, low: Rgb, w: nat) -> bool {
    &&& low.r * ONE <= c.r <= (low.r + w) * ONE
    &&& low.g * ONE <= c.g <= (low.g + w) * ONE
    &&& low.b * ONE <= c.b <= (low.b + w) * ONE
}

/// Whether a colour lies outside a cube, in some level more than twice as far as the cube
/// is wide.
pub open spec fn is_far_from(px: Rgb, low: Rgb, w: nat) -> bool {
    ||| px.r > low.r + 3 * w || px.r + 2 * w < low.r
    ||| px.g > low.g + 3 * w || px.g + 2 * w < low.g
    ||| px.b > low.b + 3 * w || px.b + 2 * w < low.b
}

/// Whether some centres lie at a colour or in a cube, some here and some there.
spec fn is_parted(cs: Seq<Spot>, px: Rgb, low: Rgb, w: nat) -> bool {
    &&& cs.len() == CLUSTERS
    &&& forall|c: int| 0 <= c < cs.len() ==> #[trigger] cs[c] == spot(px) || in_cube(cs[c], low, w)
    &&& exists|c: int| 0 <= c < cs.len() && #[trigger] cs[c] == spot(px)
    &&& exists|c: int| 0 <= c < cs.len() && in_cube(#[trigger] cs[c], low, w)
}

proof fn lemma_far_from_cube(px: Rgb, c: Spot, low: Rgb, w: nat)
    requires
        in_cube(c, low, w),
        is_far_from(px, low, w),
    ensures
        square_distance(spot(px), c) > 3 * (w * w) * ONE,
        square_distance(c, spot(px)) > 3 * (w * w) * ONE,
        c != spot(px),
{
    let far = 2 * w + 1;
    assert(far <= 255);
    let at = spot(px);
    assert(far * ONE == 2 * w * ONE + ONE) by (nonlinear_arith)
        requires
            far == 2 * w + 1,
    ;
    lemma_distance_from(at, c, far);
    lemma_distance_from(c, at, far);
    assert(far * far * ONE > 3 * (w * w) * ONE) by (nonlinear_arith)
        requires
            far == 2 * w + 1,
            w >= 0,
    ;
}

proof fn lemma_within_cube(a: Spot, b: Spot, low: Rgb, w: nat)
    requires
        in_cube(a, low, w),
        in_cube(b, low, w),
        w <= 255,
    ensures
        square_distance(a, b) <= 3 * (w * w) * ONE,
{
    assert((low.r + w) * ONE == low.r * ONE + w * ONE && (low.g + w) * ONE == low.g * ONE + w * ONE
        && (low.b + w) * ONE == low.b * ONE + w * ONE) by (nonlinear_arith);
    lemma_distance_upto(a, b, w);
}

/// The pixels of the colour stay with centres at it, all others with centres in the cube.
proof fn lemma_parts_stay_apart(px: Rgb, q: Rgb, cs: Seq<Spot>, low: Rgb, w: nat)
    requires
        is_parted(cs, px, low, w),
        is_far_from(px, low, w),
        q == px || in_cube(spot(q), low, w),
    ensures
        ({
            let c = closest_upto(spot(q), cs, cs.len() as int);
            &&& 0 <= c < cs.len()
            &&& q == px <==> cs[c] == spot(px)
            &&& q != px ==> in_cube(cs[c], low, w)
        }),
{
    lemma_closest(spot(q), cs, cs.len() as int);
    let c = closest_upto(spot(q), cs, cs.len() as int);
    let near = choose|c: int| 0 <= c < cs.len() && #[trigger] cs[c] == spot(px);
    let other = choose|c: int| 0 <= c < cs.len() && in_cube(#[trigger] cs[c], low, w);
    assert(3 * (w * w) * ONE >= 0) by (nonlinear_arith);
    if q == px {
        lemma_no_distance(spot(px));
        assert(square_distance(spot(q), cs[c]) <= square_distance(spot(q), cs[near]));
        if in_cube(cs[c], low, w) {
            lemma_far_from_cube(px, cs[c], low, w);
        }
    } else {
        lemma_within_cube(spot(q), cs[other], low, w);
        assert(square_distance(spot(q), cs[c]) <= square_distance(spot(q), cs[other]));
        lemma_far_from_cube(px, spot(q), low, w);
    }
}

#[verifier::rlimit(30)]
proof fn lemma_parts_are_kept(pixels: Seq<Rgb>, px: Rgb, cs: Seq<Spot>, low: Rgb, w: nat, c: int)
    requires
        is_parted(cs, px, low, w),
        is_far_from(px, low, w),
        forall|i: int|
            0 <= i < pixels.len() ==> #[trigger] pixels[i] == px || in_cube(spot(pixels[i]), low, w),
        0 <= c < CLUSTERS,
    ensures
        ({
            let moved = recentred(pixels, assignment(pixels, cs), cs);
            &&& cs[c] == spot(px) ==> moved[c] == spot(px)
            &&& in_cube(cs[c], low, w) ==> in_cube(moved[c], low, w)
        }),
{
    let clusters = assignment(pixels, cs);
    let n = pixels.len() as int;
    let t = tally(pixels, clusters, c, n);
    if cs[c] == spot(px) {
        assert forall|i: int| 0 <= i < pixels.len() && #[trigger] clusters[i] == c implies px.r
            <= pixels[i].r <= px.r && px.g <= pixels[i].g <= px.g && px.b <= pixels[i].b
            <= px.b by {
            lemma_parts_stay_apart(px, pixels[i], cs, low, w);
        }
        let level = (px.r as nat, px.g as nat, px.b as nat);
        lemma_tally_between(pixels, clusters, c, n, level, level);
        if t.count > 0 {
            lemma_mean_between(t.r, t.count, level.0, level.0);
            lemma_mean_between(t.g, t.count, level.1, level.1);
            lemma_mean_between(t.b, t.count, level.2, level.2);
        }
    }
    if in_cube(cs[c], low, w) {
        let from = (low.r as nat, low.g as nat, low.b as nat);
        let to = ((low.r + w) as nat, (low.g + w) as nat, (low.b + w) as nat);
        assert forall|i: int| 0 <= i < pixels.len() && #[trigger] clusters[i] == c implies from.0
            <= pixels[i].r <= to.0 && from.1 <= pixels[i].g <= to.1 && from.2 <= pixels[i].b
            <= to.2 by {
            lemma_parts_stay_apart(px, pixels[i], cs, low, w);
            lemma_far_from_cube(px, cs[c], low, w);
            assert(in_cube(spot(pixels[i]), low, w));
        }
        lemma_tally_between(pixels, clusters, c, n, from, to);
        if t.count > 0 {
            lemma_mean_between(t.r, t.count, from.0, to.0);
            lemma_mean_between(t.g, t.count, from.1, to.1);
            lemma_mean_between(t.b, t.count, from.2, to.2);
        }
    }
}

#[verifier::rlimit(30)]
proof fn lemma_parting_is_kept(pixels: Seq<Rgb>, px: Rgb, cs: Seq<Spot>, low: Rgb, w: nat)
    requires
        is_parted(cs, px, low, w),
        is_far_from(px, low, w),
        forall|i: int|
            0 <= i < pixels.len() ==> #[trigger] pixels[i] == px || in_cube(spot(pixels[i]), low, w),
    ensures
        is_parted(recentred(pixels, assignment(pixels, cs), cs), px, low, w),
{
    let moved = recentred(pixels, assignment(pixels, cs), cs);
    let near = choose|c: int| 0 <= c < cs.len() && #[trigger] cs[c] == spot(px);
    let other = choose|c: int| 0 <= c < cs.len() && in_cube(#[trigger] cs[c], low, w);
    assert forall|c: int| 0 <= c < moved.len() implies #[trigger] moved[c] == spot(px) || in_cube(
        moved[c],
        low,
        w,
    ) by {
        assert(cs[c] == spot(px) || in_cube(cs[c], low, w));
        lemma_parts_are_kept(pixels, px, cs, low, w, c);
    }
    lemma_parts_are_kept(pixels, px, cs, low, w, near);
    lemma_parts_are_kept(pixels, px, cs, low, w, other);
    assert(moved[near] == spot(px));
    assert(in_cube(moved[other], low, w));
}

proof fn lemma_seeds(pixels: Seq<Rgb>, i: int)
    requires
        pixels.len() > 0,
        0 <= i < 5,
    ensures
        0 <= i * pixels.len() / 5 < pixels.len(),
        seeds(pixels)[i] == spot(pixels[i * pixels.len() / 5]),
{
    let n = pixels.len() as int;
    assert(0 <= i * n && i * n <= 4 * n) by (nonlinear_arith)
        requires
            0 <= i <= 4,
            n > 0,
    ;
    vstd::arithmetic::div_mod::lemma_small_mod(((i * n) / 5) as nat, n as nat);
}

proof fn lemma_seeds_are_parted(
    pixels: Seq<Rgb>,
    px: Rgb,
    low: Rgb,
    w: nat,
    a: int,
    b: int,
)
    requires
        pixels.len() > 0,
        forall|i: int|
            0 <= i < pixels.len() ==> #[trigger] pixels[i] == px || in_cube(spot(pixels[i]), low, w),
        0 <= a < 5,
        0 <= b < 5,
        pixels[a * pixels.len() / 5] == px,
        pixels[b * pixels.len() / 5] != px,
    ensures
        is_parted(seeds(pixels), px, low, w),
{
    let start = seeds(pixels);
    assert forall|c: int| 0 <= c < start.len() implies #[trigger] start[c] == spot(px) || in_cube(
        start[c],
        low,
        w,
    ) by {
        lemma_seeds(pixels, c);
        let k = c * pixels.len() / 5;
        assert(pixels[k] == px || in_cube(spot(pixels[k]), low, w));
    }
    lemma_seeds(pixels, a);
    lemma_seeds(pixels, b);
    assert(start[a] == spot(px));
    assert(in_cube(start[b], low, w));
}

proof fn lemma_parts_settle(pixels: Seq<Rgb>, px: Rgb, low: Rgb, w: nat) -> (at: Seq<Spot>)
    requires
        is_far_from(px, low, w),
        forall|i: int|
            0 <= i < pixels.len() ==> #[trigger] pixels[i] == px || in_cube(spot(pixels[i]), low, w),
        is_parted(seeds(pixels), px, low, w),
    ensures
        is_parted(at, px, low, w),
        settled(
            pixels,
            Seq::new(pixels.len(), |i: int| 0int),
            seeds(pixels),
            ITERATIONS as nat,
        ) == (assignment(pixels, at), recentred(pixels, assignment(pixels, at), at)),
{
    let p = |cs: Seq<Spot>| is_parted(cs, px, low, w);
    assert forall|cs: Seq<Spot>| p(cs) implies p(
        #[trigger] recentred(pixels, assignment(pixels, cs), cs),
    ) by {
        lemma_parting_is_kept(pixels, px, cs, low, w);
    }
    let none = Seq::new(pixels.len(), |i: int| 0int);
    lemma_settled(pixels, none, seeds(pixels), ITERATIONS as nat, p)
}

proof fn lemma_centre_of_part(pixels: Seq<Rgb>, px: Rgb, at: Seq<Spot>, low: Rgb, w: nat)
    requires
        is_far_from(px, low, w),
        forall|i: int|
            0 <= i < pixels.len() ==> #[trigger] pixels[i] == px || in_cube(spot(pixels[i]), low, w),
        is_parted(at, px, low, w),
    ensures
        recentred(pixels, assignment(pixels, at), at)[closest_upto(
            spot(px),
            at,
            at.len() as int,
        )] == spot(px),
{
    lemma_parts_stay_apart(px, px, at, low, w);
    lemma_parts_are_kept(pixels, px, at, low, w, closest_upto(spot(px), at, at.len() as int));
}

proof fn lemma_whole_level(level: u8)
    ensures
        level_of((level * ONE) as nat) == level,
{
}

proof fn lemma_dominant_is(pixels: Seq<Rgb>, px: Rgb, at: Seq<Spot>)
    requires
        pixels.len() > 0,
        at.len() == CLUSTERS,
        2 * pixels.to_multiset().count(px) > pixels.len(),
        settled(
            pixels,
            Seq::new(pixels.len(), |i: int| 0int),
            seeds(pixels),
            ITERATIONS as nat,
        ) == (assignment(pixels, at), recentred(pixels, assignment(pixels, at), at)),
        recentred(pixels, assignment(pixels, at), at)[closest_upto(
            spot(px),
            at,
            at.len() as int,
        )] == spot(px),
    ensures
        dominant_of(pixels) == (px.r, px.g, px.b),
{
    lemma_majority_is_fullest(pixels, px, at);
    lemma_whole_level(px.r);
    lemma_whole_level(px.g);
    lemma_whole_level(px.b);
}

/// A colour that more than half of the pixels have, all others being far from it, is the
/// dominant one. The others may differ among themselves: they lie in a cube of colours,
/// and the colour is more than twice as far from that as the cube is wide. Clustering
/// starts from five pixels at equal distances; where none of them has the colour, or all
/// of them have it, the others are not told from it at once, so that is left out.
pub proof fn far_majorities_are_dominant(
    pixels: Seq<Rgb>,
    px: Rgb,
    low: Rgb,
    w: nat,
    a: int,
    b: int,
)
    requires
        2 * pixels.to_multiset().count(px) > pixels.len(),
        forall|i: int|
            0 <= i < pixels.len() ==> #[trigger] pixels[i] == px || (low.r <= pixels[i].r <= low.r + w
                && low.g <= pixels[i].g <= low.g + w && low.b <= pixels[i].b <= low.b + w),
        is_far_from(px, low, w),
        0 <= a < 5,
        0 <= b < 5,
        pixels[a * pixels.len() / 5] == px,
        pixels[b * pixels.len() / 5] != px,
    ensures
        dominant_of(pixels) == (px.r, px.g, px.b),
{
    if pixels.len() == 0 {
        assert(pixels.take(0) =~= pixels);
        lemma_count_none(pixels, px);
    }
    assert forall|i: int| 0 <= i < pixels.len() implies #[trigger] pixels[i] == px || in_cube(
        spot(pixels[i]),
        low,
        w,
    ) by {
        lemma_spot_in_cube(pixels[i], px, low, w);
    }
    lemma_seeds_are_parted(pixels, px, low, w, a, b);
    let at = lemma_parts_settle(pixels, px, low, w);
    lemma_centre_of_part(pixels, px, at, low, w);
    lemma_dominant_is(pixels, px, at);
}

proof fn lemma_spot_in_cube(q: Rgb, px: Rgb, low: Rgb, w: nat)
    requires
        q == px || (low.r <= q.r <= low.r + w && low.g <= q.g <= low.g + w && low.b <= q.b <= low.b
            + w),
    ensures
        q == px || in_cube(spot(q), low, w),
{
    if q != px {
        assert((low.r + w) * ONE >= q.r * ONE && (low.g + w) * ONE >= q.g * ONE && (low.b + w) * ONE
            >= q.b * ONE) by (nonlinear_arith)
            requires
                q.r <= low.r + w,
                q.g <= low.g + w,
                q.b <= low.b + w,
        ;
    }
}

/// A level is the whole number nearest to its mean.
pub proof fn levels_are_rounded_to_the_nearest(x: nat)
    requires
        x <= 255 * ONE,
    ensures
        (2 * level_of(x) - 1) * ONE <= 2 * x < (2 * level_of(x) + 1) * ONE,
{
}

/// A share of one differs little from the level's part of 255.
proof fn lemma_share(level: u8)
    ensures
        -0x1_0000_0000 <= 255 * share(level) - level * ONE <= 0x1_0000_0000,
        share(level) <= ONE,
{
    let p = (level * ONE) as nat;
    single::rounding_is_accurate(p, 255, single::SINGLE as nat);
    single::lemma_single_about_one(p, 255);
}

proof fn lemma_shares_differ(a: u8, b: u8)
    requires
        a < b,
    ensures
        share(a) < share(b),
{
    lemma_share(a);
    lemma_share(b);
}

proof fn lemma_rounded_little(x: nat)
    requires
        x <= 2 * ONE,
    ensures
        -0x200_0001 <= single::single(x, 1) - x <= 0x200_0001,
{
    single::rounding_is_accurate(x, 1, single::SINGLE as nat);
}

/// The greatest and the least level of a colour give its greatest and least share.
proof fn lemma_extremes(r: u8, g: u8, b: u8, most: u8, least: u8)
    requires
        most == r || most == g || most == b,
        most >= r && most >= g && most >= b,
        least == r || least == g || least == b,
        least <= r && least <= g && least <= b,
    ensures
        larger(larger(share(r), share(g)), share(b)) == share(most),
        smaller(smaller(share(r), share(g)), share(b)) == share(least),
{
    if r < most {
        lemma_shares_differ(r, most);
    }
    if g < most {
        lemma_shares_differ(g, most);
    }
    if b < most {
        lemma_shares_differ(b, most);
    }
    if least < r {
        lemma_shares_differ(least, r);
    }
    if least < g {
        lemma_shares_differ(least, g);
    }
    if least < b {
        lemma_shares_differ(least, b);
    }
}

proof fn lemma_between(x: int, lo: nat, hi: nat)
    requires
        lo * ONE <= x <= hi * ONE,
        hi < 0x100_0000,
    ensures
        lo * ONE <= single::signed_single(x, 1) <= hi * ONE,
{
    single::lemma_single_is_exact(hi, 1);
    assert(lo <= hi) by (nonlinear_arith)
        requires
            lo * ONE <= hi * ONE,
    ;
    single::lemma_single_is_exact(lo, 1);
    assert(lo * ONE >= 0) by (nonlinear_arith);
    assert(1 * (lo * ONE as nat) == lo * ONE && 1 * (hi * ONE as nat) == hi * ONE);
    single::rounding_keeps_order(lo * ONE as nat, x as nat, 1);
    single::rounding_keeps_order(x as nat, hi * ONE as nat, 1);
}

proof fn lemma_whole_between(x: int, lo: nat, hi: nat)
    requires
        lo * ONE <= x <= hi * ONE,
        hi < 0x100_0000,
    ensures
        lo <= whole(x) <= hi,
{
    assert(lo * ONE >= 0) by (nonlinear_arith);
    let w = x / (ONE as int);
    vstd::arithmetic::div_mod::lemma_fundamental_div_mod(x, ONE as int);
    assert(lo <= w <= hi) by (nonlinear_arith)
        requires
            lo * ONE <= x <= hi * ONE,
            x == ONE * w + x % (ONE as int),
            0 <= x % (ONE as int) < ONE,
    ;
}

/// The part of the circle that two shares make, by the widest difference there is.
spec fn part(x: nat, y: nat, delta: nat) -> int {
    single::signed_single(single::signed_single(x - y, 1) * ONE, delta)
}

proof fn lemma_part_size(a: nat, wide: nat)
    requires
        a <= wide <= ONE,
        0 < wide,
    ensures
        ({
            let delta = single::single(wide, 1);
            &&& 0 < delta <= ONE
            &&& single::single(single::single(a, 1) * ONE as nat, delta) <= ONE
            &&& a > 0 ==> single::single(single::single(a, 1) * ONE as nat, delta) > 0
        }),
{
    let delta = single::single(wide, 1);
    single::lemma_single_of_a_unit(wide, 1);
    single::lemma_single_about_one(wide, 1);
    single::rounding_keeps_order(a, wide, 1);
    let s = single::single(a, 1);
    single::lemma_single_is_exact(1, delta);
    assert(s * ONE as nat <= delta * (1 * ONE as nat)) by (nonlinear_arith)
        requires
            s <= delta,
    ;
    single::rounding_keeps_order(s * ONE as nat, delta * (1 * ONE as nat), delta);
    if a > 0 {
        single::lemma_single_of_a_unit(a, 1);
        assert(delta <= s * ONE as nat) by (nonlinear_arith)
            requires
                s >= 1,
                delta <= ONE,
        ;
        single::lemma_single_of_a_unit(s * ONE as nat, delta);
    }
}

proof fn lemma_part(x: nat, y: nat, wide: nat)
    requires
        -wide <= x - y <= wide,
        0 < wide <= ONE,
    ensures
        ({
            let s = part(x, y, single::single(wide, 1));
            &&& -ONE <= s <= ONE
            &&& x >= y ==> s >= 0
            &&& x < y ==> s < 0
        }),
{
    let delta = single::single(wide, 1);
    single::lemma_single_of_zero(1);
    if x < y {
        let a = (y - x) as nat;
        lemma_part_size(a, wide);
        let d = single::single(a, 1);
        single::lemma_single_of_a_unit(a, 1);
        assert((-(d as int)) * ONE < 0) by (nonlinear_arith)
            requires
                d > 0,
        ;
        assert(-((-(d as int)) * ONE) == d * ONE as nat) by (nonlinear_arith);
    } else {
        let a = (x - y) as nat;
        lemma_part_size(a, wide);
        let d = single::single(a, 1);
        assert(d * ONE >= 0) by (nonlinear_arith)
            requires
                d >= 0,
        ;
    }
}

/// Where in the circle a hue lies, in tenths of a degree, for a colour that has one.
#[verifier::rlimit(30)]
proof fn lemma_hue(r: u8, g: u8, b: u8, most: u8, least: u8)
    requires
        most == r || most == g || most == b,
        most >= r && most >= g && most >= b,
        least == r || least == g || least == b,
        least <= r && least <= g && least <= b,
        least < most,
    ensures
        ({
            let (x, y, z) = (share(r), share(g), share(b));
            let wide = (share(most) - share(least)) as nat;
            let hue = hue_of(x, y, z, share(most), single::single(wide, 1));
            &&& r == most && g >= b ==> 0 <= hue <= 60 * ONE
            &&& r == most && g < b ==> 300 * ONE <= hue <= 360 * ONE
            &&& r < most && g == most && b < r ==> 60 * ONE <= hue <= 120 * ONE
            &&& r < most && g == most && b >= r ==> 120 * ONE <= hue <= 180 * ONE
            &&& r < most && g < most && r < g ==> 180 * ONE <= hue <= 240 * ONE
            &&& r < most && g < most && r >= g ==> 240 * ONE <= hue <= 300 * ONE
        }),
{
    let (x, y, z) = (share(r), share(g), share(b));
    let wide = (share(most) - share(least)) as nat;
    lemma_shares_differ(least, most);
    lemma_share(most);
    lemma_extremes(r, g, b, most, least);
    let delta = single::single(wide, 1);
    if r == most {
        lemma_part(y, z, wide);
        let s = part(y, z, delta);
        if g < b {
            lemma_shares_differ(g, b);
            assert((-s) % (6 * ONE) == -s) by {
                vstd::arithmetic::div_mod::lemma_small_mod((-s) as nat, (6 * ONE) as nat);
            }
            lemma_between(-(s * 60), 0, 60);
            single::lemma_single_of_a_unit((-(s * 60)) as nat, 1);
            let hue = single::signed_single(s * 60, 1);
            assert(-60 * ONE <= hue < 0);
            lemma_between(hue + 360 * ONE, 300, 360);
        } else {
            if b < g {
                lemma_shares_differ(b, g);
            }
            assert(s % (6 * ONE) == s) by {
                vstd::arithmetic::div_mod::lemma_small_mod(s as nat, (6 * ONE) as nat);
            }
            lemma_between(s * 60, 0, 60);
        }
    } else if g == most {
        lemma_shares_differ(r, most);
        lemma_part(z, x, wide);
        let s = part(z, x, delta);
        if b < r {
            lemma_shares_differ(b, r);
            lemma_between(s + 2 * ONE, 1, 2);
            let sixth = single::signed_single(s + 2 * ONE, 1);
            lemma_between(sixth * 60, 60, 120);
        } else {
            if r < b {
                lemma_shares_differ(r, b);
            }
            lemma_between(s + 2 * ONE, 2, 3);
            let sixth = single::signed_single(s + 2 * ONE, 1);
            lemma_between(sixth * 60, 120, 180);
        }
    } else {
        lemma_shares_differ(r, most);
        lemma_shares_differ(g, most);
        lemma_part(x, y, wide);
        let s = part(x, y, delta);
        if r < g {
            lemma_shares_differ(r, g);
            lemma_between(s + 4 * ONE, 3, 4);
            let sixth = single::signed_single(s + 4 * ONE, 1);
            lemma_between(sixth * 60, 180, 240);
        } else {
            if g < r {
                lemma_shares_differ(g, r);
            }
            lemma_between(s + 4 * ONE, 4, 5);
            let sixth = single::signed_single(s + 4 * ONE, 1);
            lemma_between(sixth * 60, 240, 300);
        }
    }
}

proof fn lemma_tenths(hue: int, lo: nat, hi: nat)
    requires
        lo * ONE <= hue <= hi * ONE,
        hi <= 360,
    ensures
        10 * lo <= whole(single::signed_single(hue * 10, 1)) <= 10 * hi,
{
    assert((10 * lo) * ONE <= hue * 10 <= (10 * hi) * ONE) by (nonlinear_arith)
        requires
            lo * ONE <= hue <= hi * ONE,
    ;
    lemma_between(hue * 10, 10 * lo, 10 * hi);
    lemma_whole_between(single::signed_single(hue * 10, 1), 10 * lo, 10 * hi);
}

/// Colours go round the circle from red by yellow, green, cyan, blue and magenta: in which
/// sixth of it, in tenths of a degree, a colour lies follows from which of its levels is
/// the greatest and which of the other two is.
#[verifier::rlimit(30)]
pub proof fn hues_go_round_the_circle(r: u8, g: u8, b: u8)
    requires
        hue_key(Some(packed(r, g, b) as u32)).0 == 0,
    ensures
        ({
            let tenths = hue_key(Some(packed(r, g, b) as u32)).1;
            &&& r >= g && g >= b ==> 0 <= tenths <= 600
            &&& g > r && r > b ==> 600 <= tenths <= 1200
            &&& g > r && g >= b && b >= r ==> 1200 <= tenths <= 1800
            &&& b > g && g > r ==> 1800 <= tenths <= 2400
            &&& b > r && r >= g ==> 2400 <= tenths <= 3000
            &&& r >= b && b > g ==> 3000 <= tenths <= 3600
        }),
{
    let c = packed(r, g, b) as u32;
    packing_loses_nothing(r, g, b);
    let most = if r >= g && r >= b {
        r
    } else if g >= b {
        g
    } else {
        b
    };
    let least = if r <= g && r <= b {
        r
    } else if g <= b {
        g
    } else {
        b
    };
    lemma_extremes(r, g, b, most, least);
    single::lemma_single_of_zero(1);
    lemma_grey_limit();
    let wide = (share(most) - share(least)) as nat;
    if least == most {
        assert(hsl_of(c).1 == 0);
    } else {
        lemma_hue(r, g, b, most, least);
        let hue = hue_of(
            share(r),
            share(g),
            share(b),
            share(most),
            single::single(wide, 1),
        );
        assert(hsl_of(c).0 == hue);
        if r == most && g >= b {
            lemma_tenths(hue, 0, 60);
        } else if r == most {
            lemma_tenths(hue, 300, 360);
        } else if g == most && b < r {
            lemma_tenths(hue, 60, 120);
        } else if g == most {
            lemma_tenths(hue, 120, 180);
        } else if r < g {
            lemma_tenths(hue, 180, 240);
        } else {
            lemma_tenths(hue, 240, 300);
        }
    }
}

proof fn lemma_grey_limit()
    ensures
        single::single(15 * ONE as nat, 100) > 0,
        -0x1000_0000 <= 100 * single::single(15 * ONE as nat, 100) - 15 * ONE <= 0x1000_0000,
{
    single::lemma_single_of_a_unit(15 * ONE as nat, 100);
    single::rounding_is_accurate(15 * ONE as nat, 100, single::SINGLE as nat);
}

/// The sum of the greatest and the least share, rounded, as the two levels give it.
proof fn lemma_sum(most: u8, least: u8)
    ensures
        ({
            let sum = single::single(share(most) + share(least), 1);
            &&& -0x6_0000_0000 <= 255 * sum - (most + least) * ONE <= 0x6_0000_0000
            &&& sum <= 2 * ONE + 0x200_0001
        }),
{
    lemma_share(most);
    lemma_share(least);
    lemma_rounded_little(share(most) + share(least));
    assert((most + least) * ONE == most * ONE + least * ONE) by (nonlinear_arith);
}

/// How light a colour is, in thousandths, is the mean of its greatest and its least level,
/// with what is left over left out.
#[verifier::rlimit(30)]
pub proof fn lightness_is_between_the_extremes(r: u8, g: u8, b: u8, most: u8, least: u8)
    requires
        most == r || most == g || most == b,
        most >= r && most >= g && most >= b,
        least == r || least == g || least == b,
        least <= r && least <= g && least <= b,
    ensures
        ({
            let k = hue_key(Some(packed(r, g, b) as u32));
            let thousandths = if k.0 == 1 {
                k.1
            } else {
                k.2
            };
            510 * thousandths <= 1000 * (most + least) <= 510 * (thousandths + 1)
        }),
{
    let c = packed(r, g, b) as u32;
    packing_loses_nothing(r, g, b);
    lemma_extremes(r, g, b, most, least);
    lemma_sum(most, least);
    let sum = single::single(share(most) + share(least), 1);
    let light = sum / 2;
    assert(hsl_of(c).2 == light);
    let x = (light * 1000) as nat;
    single::rounding_is_accurate(x, 1, single::SINGLE as nat);
    let y = single::single(x, 1);
    assert(-0x1_0000_0000_0 <= y - x <= 0x1_0000_0000_0) by {
        assert(x <= 1001 * ONE);
    }
    let t = y as int / (ONE as int);
    vstd::arithmetic::div_mod::lemma_fundamental_div_mod(y as int, ONE as int);
    assert(ONE * t <= y < ONE * t + ONE);
    assert(t <= 2000) by (nonlinear_arith)
        requires
            ONE * t <= y,
            y <= 1002 * ONE,
    ;
    assert(0 <= t) by (nonlinear_arith)
        requires
            0 <= y < ONE * t + ONE,
    ;
    assert(whole(single::signed_single(light as int * 1000, 1)) == t);
    let n = most + least;
    assert(510 * t <= 1000 * n <= 510 * (t + 1));
}

/// The span by which a colour's difference is measured, as the two levels give it.
proof fn lemma_span(most: u8, least: u8)
    ensures
        ({
            let (max, min) = (share(most), share(least));
            let sum = single::single(max + min, 1);
            let span = if sum / 2 > ONE / 2 {
                single::single((single::single((2 * ONE - max) as nat, 1) - min) as nat, 1)
            } else {
                sum
            };
            let s = if most + least <= 255 {
                most + least
            } else {
                510 - (most + least)
            };
            -0x8_0000_0000 <= 255 * span - s * ONE <= 0x8_0000_0000
        }),
{
    let (max, min) = (share(most), share(least));
    lemma_share(most);
    lemma_share(least);
    lemma_sum(most, least);
    let sum = single::single(max + min, 1);
    if sum / 2 > ONE / 2 {
        let a = (2 * ONE - max) as nat;
        lemma_rounded_little(a);
        let b = single::single(a, 1);
        single::lemma_single_about_one(a, 1);
        assert(b >= ONE);
        lemma_rounded_little((b - min) as nat);
        assert(most + least >= 255);
        let s = 510 - (most + least);
        assert(s * ONE == 510 * ONE - most * ONE - least * ONE) by (nonlinear_arith)
            requires
                s == 510 - (most + least),
        ;
    } else {
        assert(most + least <= 255);
    }
}

proof fn lemma_below_limit(d: int, s: int, delta: nat, span: nat, sat: nat, limit: nat)
    requires
        0 <= d <= 255,
        0 <= s <= 255,
        delta <= ONE,
        255 * delta <= d * ONE + 0x8_0000_0000,
        255 * span >= s * ONE - 0x8_0000_0000,
        span <= 3 * ONE,
        sat * span <= delta * ONE + 0x100_0000_0000_0000_0001,
        100 * limit >= 15 * ONE - 0x1000_0000,
        20 * d < 3 * s,
    ensures
        sat < limit,
{
    if sat >= limit {
        assert(limit * span <= sat * span) by (nonlinear_arith)
            requires
                limit <= sat,
        ;
        assert(0xefffff0000000 * span <= (100 * limit) * span) by (nonlinear_arith)
            requires
                0xefffff0000000 <= 100 * limit,
                span >= 0,
        ;
        assert((100 * limit) * span == 100 * (limit * span)) by (nonlinear_arith);
        assert(0xefffff0000000 * (255 * span) >= 0xefffff0000000 * (s * 0x1_0000_0000_0000 - 0x8_0000_0000));
        assert(100 * (delta * ONE) * 255 <= 100 * 0x1_0000_0000_0000 * (d * 0x1_0000_0000_0000 + 0x8_0000_0000));
        assert(false);
    }
}

proof fn lemma_above_limit(d: int, s: int, delta: nat, span: nat, sat: nat, limit: nat)
    requires
        0 <= d <= 255,
        0 <= s <= 255,
        255 * delta >= d * ONE - 0x8_0000_0000,
        255 * span <= s * ONE + 0x8_0000_0000,
        sat * span >= delta * ONE - 0x100_0000_0000_0000_0001,
        100 * limit <= 15 * ONE + 0x1000_0000,
        20 * d > 3 * s,
    ensures
        sat >= limit,
{
    if sat < limit {
        assert(sat * span <= limit * span) by (nonlinear_arith)
            requires
                sat <= limit,
        ;
        assert((100 * limit) * span <= 0xf000010000000 * span) by (nonlinear_arith)
            requires
                100 * limit <= 0xf000010000000,
                span >= 0,
        ;
        assert((100 * limit) * span == 100 * (limit * span)) by (nonlinear_arith);
        assert(0xf000010000000 * (255 * span) <= 0xf000010000000 * (s * 0x1_0000_0000_0000 + 0x8_0000_0000));
        assert(100 * (delta * ONE) * 255 >= 100 * 0x1_0000_0000_0000 * (d * 0x1_0000_0000_0000 - 0x8_0000_0000));
        assert(false);
    }
}

/// The difference of the greatest and the least share, rounded, as the levels give it.
proof fn lemma_difference(most: u8, least: u8)
    requires
        least < most,
    ensures
        ({
            let delta = single::single((share(most) - share(least)) as nat, 1);
            &&& GREY_MARGIN < delta <= ONE
            &&& -0x8_0000_0000 <= 255 * delta - (most - least) * ONE <= 0x8_0000_0000
        }),
{
    lemma_share(most);
    lemma_share(least);
    lemma_shares_differ(least, most);
    let wide = (share(most) - share(least)) as nat;
    lemma_rounded_little(wide);
    single::lemma_single_about_one(wide, 1);
    assert((most - least) * ONE == most * ONE - least * ONE) by (nonlinear_arith);
}

proof fn lemma_saturation(delta: nat, span: nat)
    requires
        delta <= ONE,
        0 < span <= 3 * ONE,
    ensures
        ({
            let sat = single::single(delta * ONE as nat, span);
            -0x100_0000_0000_0000_0001 <= sat * span - delta * ONE <= 0x100_0000_0000_0000_0001
        }),
{
    single::rounding_is_accurate(delta * ONE as nat, span, single::SINGLE as nat);
    assert(delta * ONE as nat <= ONE * ONE) by (nonlinear_arith)
        requires
            delta <= ONE,
    ;
}

/// A colour counts as grey if its greatest and least levels differ by less than fifteen in
/// a hundred of what they could differ by at its lightness: their sum, or what that lacks
/// of twice the full level where that is less. It does not if they differ by more.
#[verifier::rlimit(30)]
pub proof fn greys_differ_little_in_their_levels(r: u8, g: u8, b: u8, most: u8, least: u8)
    requires
        most == r || most == g || most == b,
        most >= r && most >= g && most >= b,
        least == r || least == g || least == b,
        least <= r && least <= g && least <= b,
    ensures
        ({
            let span = if most + least <= 255 {
                most + least
            } else {
                510 - (most + least)
            };
            let bucket = hue_key(Some(packed(r, g, b) as u32)).0;
            &&& most == least ==> bucket == 1
            &&& 20 * (most - least) < 3 * span ==> bucket == 1
            &&& 20 * (most - least) > 3 * span ==> bucket == 0
        }),
{
    let c = packed(r, g, b) as u32;
    packing_loses_nothing(r, g, b);
    lemma_extremes(r, g, b, most, least);
    lemma_grey_limit();
    let limit = single::single(15 * ONE as nat, 100);
    let (max, min) = (share(most), share(least));
    let delta = single::single((max - min) as nat, 1);
    if most == least {
        single::lemma_single_of_zero(1);
        assert(hsl_of(c).1 == 0);
    } else {
        lemma_difference(most, least);
        lemma_sum(most, least);
        lemma_span(most, least);
        let sum = single::single(max + min, 1);
        let span = if sum / 2 > ONE / 2 {
            single::single((single::single((2 * ONE - max) as nat, 1) - min) as nat, 1)
        } else {
            sum
        };
        let s = if most + least <= 255 {
            most + least
        } else {
            510 - (most + least)
        };
        let sat = single::single(delta * ONE as nat, span);
        assert(hsl_of(c).1 == sat);
        lemma_limit(most - least, s, delta, span, limit);
    }
}

proof fn lemma_limit(d: int, s: int, delta: nat, span: nat, limit: nat)
    requires
        1 <= d <= 255,
        1 <= s <= 255,
        delta <= ONE,
        -0x8_0000_0000 <= 255 * delta - d * ONE <= 0x8_0000_0000,
        -0x8_0000_0000 <= 255 * span - s * ONE <= 0x8_0000_0000,
        -0x1000_0000 <= 100 * limit - 15 * ONE <= 0x1000_0000,
    ensures
        20 * d < 3 * s ==> single::single(delta * ONE as nat, span) < limit,
        20 * d > 3 * s ==> single::single(delta * ONE as nat, span) >= limit,
{
    lemma_saturation(delta, span);
    let sat = single::single(delta * ONE as nat, span);
    if 20 * d < 3 * s {
        lemma_below_limit(d, s, delta, span, sat, limit);
    }
    if 20 * d > 3 * s {
        lemma_above_limit(d, s, delta, span, sat, limit);
    }
}

proof fn lemma_apart_spots(a: Rgb, b: Rgb)
    ensures
        square_distance(spot(a), spot(b)) == 0 <==> a == b,
{
    if a == b {
        lemma_no_distance(spot(a));
    } else {
        lemma_distance_from(spot(a), spot(b), 1);
    }
}

proof fn lemma_first_closest(at: Spot, centres: Seq<Spot>, n: int, k: int)
    requires
        0 <= k < n <= centres.len(),
        square_distance(at, centres[k]) == 0,
    ensures
        0 <= closest_upto(at, centres, n) <= k,
        square_distance(at, centres[closest_upto(at, centres, n)]) == 0,
    decreases n,
{
    if n > 1 {
        if k < n - 1 {
            lemma_first_closest(at, centres, n - 1, k);
        } else {
            lemma_closest(at, centres, n - 1);
        }
    }
}

proof fn lemma_first_fullest(pixels: Seq<Rgb>, clusters: Seq<int>, n: int, c: int)
    requires
        1 <= n,
        0 <= c < fullest_upto(pixels, clusters, n),
    ensures
        tally(pixels, clusters, c, pixels.len() as int).count < tally(
            pixels,
            clusters,
            fullest_upto(pixels, clusters, n),
            pixels.len() as int,
        ).count,
    decreases n,
{
    if n > 1 {
        lemma_fullest(pixels, clusters, n - 1);
        if fullest_upto(pixels, clusters, n) != n - 1 {
            lemma_first_fullest(pixels, clusters, n - 1, c);
        }
    }
}

/// Whether every pixel has the colour of one that clustering starts from.
pub open spec fn is_flat(pixels: Seq<Rgb>) -> bool {
    forall|i: int| 0 <= i < pixels.len() ==> is_start(pixels, #[trigger] pixels[i])
}

/// Whether a colour is that of one of the five pixels at equal distances that clustering
/// starts from.
pub open spec fn is_start(pixels: Seq<Rgb>, px: Rgb) -> bool {
    exists|k: int| 0 <= k < 5 && #[trigger] start_at(pixels, k) == px
}

/// The pixel that a cluster starts from.
pub open spec fn start_at(pixels: Seq<Rgb>, k: int) -> Rgb {
    pixels[k * pixels.len() / 5]
}

proof fn lemma_own_start(pixels: Seq<Rgb>, px: Rgb)
    requires
        pixels.len() > 0,
        is_start(pixels, px),
    ensures
        ({
            let c = closest_upto(spot(px), seeds(pixels), 5);
            &&& 0 <= c < 5
            &&& start_at(pixels, c) == px
            &&& seeds(pixels)[c] == spot(px)
            &&& forall|k: int| 0 <= k < 5 && #[trigger] start_at(pixels, k) == px ==> c <= k
        }),
{
    let centres = seeds(pixels);
    let j = choose|k: int| 0 <= k < 5 && #[trigger] start_at(pixels, k) == px;
    lemma_no_distance(spot(px));
    assert forall|k: int| 0 <= k < 5 && #[trigger] start_at(pixels, k) == px implies closest_upto(
        spot(px),
        centres,
        5,
    ) <= k by {
        lemma_seeds(pixels, k);
        lemma_first_closest(spot(px), centres, 5, k);
    }
    lemma_seeds(pixels, j);
    lemma_first_closest(spot(px), centres, 5, j);
    let c = closest_upto(spot(px), centres, 5);
    lemma_seeds(pixels, c);
    lemma_apart_spots(px, start_at(pixels, c));
}

#[verifier::rlimit(30)]
proof fn lemma_flat_centres(pixels: Seq<Rgb>)
    requires
        pixels.len() > 0,
        is_flat(pixels),
    ensures
        recentred(pixels, assignment(pixels, seeds(pixels)), seeds(pixels)) == seeds(pixels),
{
    let centres = seeds(pixels);
    let clusters = assignment(pixels, centres);
    let moved = recentred(pixels, clusters, centres);
    assert forall|c: int| 0 <= c < 5 implies moved[c] == centres[c] by {
        lemma_seeds(pixels, c);
        let px = start_at(pixels, c);
        let level = (px.r as nat, px.g as nat, px.b as nat);
        assert forall|i: int| 0 <= i < pixels.len() && #[trigger] clusters[i] == c implies level.0
            <= pixels[i].r <= level.0 && level.1 <= pixels[i].g <= level.1 && level.2
            <= pixels[i].b <= level.2 by {
            assert(is_start(pixels, pixels[i]));
            lemma_own_start(pixels, pixels[i]);
        }
        lemma_tally_between(pixels, clusters, c, pixels.len() as int, level, level);
        let t = tally(pixels, clusters, c, pixels.len() as int);
        if t.count > 0 {
            lemma_mean_between(t.r, t.count, level.0, level.0);
            lemma_mean_between(t.g, t.count, level.1, level.1);
            lemma_mean_between(t.b, t.count, level.2, level.2);
        }
    }
    assert(moved =~= centres);
}

proof fn lemma_flat_tally(pixels: Seq<Rgb>, px: Rgb, c: int, n: int)
    requires
        pixels.len() > 0,
        is_flat(pixels),
        is_start(pixels, px),
        c == closest_upto(spot(px), seeds(pixels), 5),
        0 <= n <= pixels.len(),
    ensures
        tally(pixels, assignment(pixels, seeds(pixels)), c, n).count == count_of(pixels, px, n),
    decreases n,
{
    if n > 0 {
        lemma_flat_tally(pixels, px, c, n - 1);
        lemma_count_step(pixels, px, n);
        assert(is_start(pixels, pixels[n - 1]));
        lemma_own_start(pixels, pixels[n - 1]);
        lemma_own_start(pixels, px);
    } else {
        lemma_count_none(pixels, px);
    }
}

proof fn lemma_member(pixels: Seq<Rgb>, clusters: Seq<int>, c: int, n: int) -> (i: int)
    requires
        tally(pixels, clusters, c, n).count > 0,
    ensures
        0 <= i < n,
        clusters[i] == c,
    decreases n,
{
    if clusters[n - 1] == c {
        n - 1
    } else {
        lemma_member(pixels, clusters, c, n - 1)
    }
}

/// Of a picture in a few flat colours, each of which is met at one of the five pixels that
/// clustering starts from, the dominant colour is one that no other has more pixels than;
/// of those that have equally many, the one that is met first.
#[verifier::rlimit(30)]
pub proof fn the_commonest_flat_colour_is_dominant(pixels: Seq<Rgb>) -> (px: Rgb)
    requires
        pixels.len() > 0,
        is_flat(pixels),
    ensures
        dominant_of(pixels) == (px.r, px.g, px.b),
        pixels.contains(px),
        forall|i: int|
            0 <= i < pixels.len() ==> pixels.to_multiset().count(#[trigger] pixels[i])
                <= pixels.to_multiset().count(px),
        forall|k: int|
            0 <= k < 5 && pixels.to_multiset().count(#[trigger] start_at(pixels, k))
                == pixels.to_multiset().count(px) ==> exists|j: int|
                0 <= j <= k && #[trigger] start_at(pixels, j) == px,
{
    let n = pixels.len() as int;
    let centres = seeds(pixels);
    let clusters = assignment(pixels, centres);
    let none = Seq::new(pixels.len(), |i: int| 0int);
    lemma_flat_centres(pixels);
    let p = |cs: Seq<Spot>| cs == centres;
    let at = lemma_settled(pixels, none, centres, ITERATIONS as nat, p);
    let f = fullest_upto(pixels, clusters, 5);
    lemma_fullest(pixels, clusters, 5);
    assert(pixels.take(n) =~= pixels);
    assert(is_start(pixels, pixels[0]));
    lemma_own_start(pixels, pixels[0]);
    let c0 = closest_upto(spot(pixels[0]), centres, 5);
    lemma_flat_tally(pixels, pixels[0], c0, n);
    lemma_has_one(pixels, 0);
    assert(tally(pixels, clusters, c0, n).count <= tally(pixels, clusters, f, n).count);
    let i = lemma_member(pixels, clusters, f, n);
    let px = pixels[i];
    assert(is_start(pixels, px));
    lemma_own_start(pixels, px);
    assert(clusters[i] == closest_upto(spot(px), centres, 5));
    lemma_flat_tally(pixels, px, f, n);
    lemma_whole_level(px.r);
    lemma_whole_level(px.g);
    lemma_whole_level(px.b);
    assert forall|i: int| 0 <= i < pixels.len() implies pixels.to_multiset().count(
        #[trigger] pixels[i],
    ) <= pixels.to_multiset().count(px) by {
        assert(is_start(pixels, pixels[i]));
        lemma_own_start(pixels, pixels[i]);
        let c = closest_upto(spot(pixels[i]), centres, 5);
        lemma_flat_tally(pixels, pixels[i], c, n);
        assert(tally(pixels, clusters, c, n).count <= tally(pixels, clusters, f, n).count);
    }
    assert forall|k: int|
        0 <= k < 5 && pixels.to_multiset().count(#[trigger] start_at(pixels, k))
            == pixels.to_multiset().count(px) implies exists|j: int|
        0 <= j <= k && #[trigger] start_at(pixels, j) == px by {
        let q = start_at(pixels, k);
        assert(is_start(pixels, q));
        lemma_own_start(pixels, q);
        let c = closest_upto(spot(q), centres, 5);
        lemma_flat_tally(pixels, q, c, n);
        if c < f {
            lemma_first_fullest(pixels, clusters, 5, c);
        }
        assert(start_at(pixels, f) == px);
    }
    px
}

proof fn lemma_has_one(pixels: Seq<Rgb>, i: int)
    requires
        0 <= i < pixels.len(),
    ensures
        pixels.to_multiset().count(pixels[i]) > 0,
{
    vstd::seq_lib::to_multiset_contains(pixels, pixels[i]);
    assert(pixels.contains(pixels[i]));
}

proof fn lemma_signed_order(a: int, b: int, q: nat)
    requires
        q > 0,
        a <= b,
    ensures
        single::signed_single(a, q) <= single::signed_single(b, q),
{
    if a >= 0 {
        single::rounding_keeps_order(a as nat, b as nat, q);
    } else if b < 0 {
        single::rounding_keeps_order((-b) as nat, (-a) as nat, q);
    }
}

proof fn lemma_part_order(x: nat, y: nat, u: nat, v: nat, delta: nat)
    requires
        delta > 0,
        x - y <= u - v,
    ensures
        part(x, y, delta) <= part(u, v, delta),
{
    lemma_signed_order(x - y, u - v, 1);
    let (a, b) = (single::signed_single(x - y, 1), single::signed_single(u - v, 1));
    assert(a * ONE <= b * ONE) by (nonlinear_arith)
        requires
            a <= b,
    ;
    lemma_signed_order(a * ONE, b * ONE, delta);
}

proof fn lemma_whole_order(a: int, b: int)
    requires
        0 <= a <= b,
    ensures
        whole(a) <= whole(b),
{
    assert(0 <= a / (ONE as int) <= b / (ONE as int)) by (nonlinear_arith)
        requires
            0 <= a <= b,
    ;
}

/// The hue that a part of the circle beyond a sixth gives.
proof fn lemma_turn_order(s: int, t: int, sixths: int)
    requires
        s <= t,
    ensures
        single::signed_single(single::signed_single(s + sixths * ONE, 1) * 60, 1)
            <= single::signed_single(single::signed_single(t + sixths * ONE, 1) * 60, 1),
{
    lemma_signed_order(s + sixths * ONE, t + sixths * ONE, 1);
    lemma_signed_order(
        single::signed_single(s + sixths * ONE, 1) * 60,
        single::signed_single(t + sixths * ONE, 1) * 60,
        1,
    );
}

proof fn lemma_tenths_order(x: int, y: int)
    requires
        0 <= x <= y,
    ensures
        whole(single::signed_single(x * 10, 1)) <= whole(single::signed_single(y * 10, 1)),
{
    lemma_signed_order(x * 10, y * 10, 1);
    lemma_whole_order(single::signed_single(x * 10, 1), single::signed_single(y * 10, 1));
}

#[verifier::rlimit(30)]
proof fn lemma_hue_is(r: u8, g: u8, b: u8, most: u8, least: u8)
    requires
        most == r || most == g || most == b,
        most >= r && most >= g && most >= b,
        least == r || least == g || least == b,
        least <= r && least <= g && least <= b,
        hue_key(Some(packed(r, g, b) as u32)).0 == 0,
    ensures
        least < most,
        0 < single::single((share(most) - share(least)) as nat, 1),
        hue_key(Some(packed(r, g, b) as u32)).1 == whole(
            single::signed_single(
                hue_of(
                    share(r),
                    share(g),
                    share(b),
                    share(most),
                    single::single((share(most) - share(least)) as nat, 1),
                ) * 10,
                1,
            ),
        ),
{
    packing_loses_nothing(r, g, b);
    lemma_extremes(r, g, b, most, least);
    lemma_grey_limit();
    single::lemma_single_of_zero(1);
    let c = packed(r, g, b) as u32;
    if least == most {
        assert(hsl_of(c).1 == 0);
    }
    lemma_difference(most, least);
}

proof fn lemma_share_order(a: u8, b: u8)
    requires
        a <= b,
    ensures
        share(a) <= share(b),
{
    if a < b {
        lemma_shares_differ(a, b);
    }
}

/// Within a sixth of the circle the hue turns with the level in the middle, the greatest
/// and the least staying as they are: from red to yellow and on to green, from green to
/// cyan and on to blue, from blue to magenta and on to red.
pub proof fn hues_turn_with_the_middle_level(most: u8, a: u8, b: u8, least: u8)
    requires
        least <= a <= b <= most,
    ensures
        ({
            let x = hue_key(Some(packed(most, a, least) as u32));
            let y = hue_key(Some(packed(most, b, least) as u32));
            x.0 == 0 && y.0 == 0 ==> x.1 <= y.1
        }),
        ({
            let x = hue_key(Some(packed(a, most, least) as u32));
            let y = hue_key(Some(packed(b, most, least) as u32));
            b < most && x.0 == 0 && y.0 == 0 ==> x.1 >= y.1
        }),
        ({
            let x = hue_key(Some(packed(least, most, a) as u32));
            let y = hue_key(Some(packed(least, most, b) as u32));
            x.0 == 0 && y.0 == 0 ==> x.1 <= y.1
        }),
        ({
            let x = hue_key(Some(packed(least, a, most) as u32));
            let y = hue_key(Some(packed(least, b, most) as u32));
            b < most && x.0 == 0 && y.0 == 0 ==> x.1 >= y.1
        }),
        ({
            let x = hue_key(Some(packed(a, least, most) as u32));
            let y = hue_key(Some(packed(b, least, most) as u32));
            b < most && x.0 == 0 && y.0 == 0 ==> x.1 <= y.1
        }),
        ({
            let x = hue_key(Some(packed(most, least, a) as u32));
            let y = hue_key(Some(packed(most, least, b) as u32));
            least < a && x.0 == 0 && y.0 == 0 ==> x.1 >= y.1
        }),
{
    lemma_red_to_yellow(most, a, b, least);
    lemma_yellow_to_green(most, a, b, least);
    lemma_green_to_cyan(most, a, b, least);
    lemma_cyan_to_blue(most, a, b, least);
    lemma_blue_to_magenta(most, a, b, least);
    lemma_magenta_to_red(most, a, b, least);
}

#[verifier::rlimit(30)]
proof fn lemma_red_to_yellow(most: u8, a: u8, b: u8, least: u8)
    requires
        least <= a <= b <= most,
    ensures
        ({
            let x = hue_key(Some(packed(most, a, least) as u32));
            let y = hue_key(Some(packed(most, b, least) as u32));
            x.0 == 0 && y.0 == 0 ==> x.1 <= y.1
        }),
{
    if hue_key(Some(packed(most, a, least) as u32)).0 == 0 && hue_key(
        Some(packed(most, b, least) as u32),
    ).0 == 0 {
        lemma_hue_is(most, a, least, most, least);
        lemma_hue_is(most, b, least, most, least);
        lemma_share_order(a, b);
        lemma_share_order(least, a);
        lemma_share_order(b, most);
        lemma_share(most);
        lemma_shares_differ(least, most);
        let wide = (share(most) - share(least)) as nat;
        let delta = single::single(wide, 1);
        lemma_part(share(a), share(least), wide);
        lemma_part(share(b), share(least), wide);
        lemma_part_order(share(a), share(least), share(b), share(least), delta);
        let (s, t) = (part(share(a), share(least), delta), part(share(b), share(least), delta));
        assert(s % (6 * ONE) == s && t % (6 * ONE) == t) by {
            vstd::arithmetic::div_mod::lemma_small_mod(s as nat, (6 * ONE) as nat);
            vstd::arithmetic::div_mod::lemma_small_mod(t as nat, (6 * ONE) as nat);
        }
        lemma_hue(most, a, least, most, least);
        lemma_signed_order(s * 60, t * 60, 1);
        lemma_signed_order(0, s * 60, 1);
        single::lemma_single_of_zero(1);
        lemma_tenths_order(
            single::signed_single(s * 60, 1),
            single::signed_single(t * 60, 1),
        );
    }
}

#[verifier::rlimit(30)]
proof fn lemma_magenta_to_red(most: u8, a: u8, b: u8, least: u8)
    requires
        least <= a <= b <= most,
    ensures
        ({
            let x = hue_key(Some(packed(most, least, a) as u32));
            let y = hue_key(Some(packed(most, least, b) as u32));
            least < a && x.0 == 0 && y.0 == 0 ==> x.1 >= y.1
        }),
{
    if least < a && hue_key(Some(packed(most, least, a) as u32)).0 == 0 && hue_key(
        Some(packed(most, least, b) as u32),
    ).0 == 0 {
        lemma_hue_is(most, least, a, most, least);
        lemma_hue_is(most, least, b, most, least);
        lemma_share_order(a, b);
        lemma_shares_differ(least, a);
        lemma_shares_differ(least, b);
        lemma_share_order(b, most);
        lemma_share(most);
        lemma_shares_differ(least, most);
        let wide = (share(most) - share(least)) as nat;
        let delta = single::single(wide, 1);
        lemma_part(share(least), share(a), wide);
        lemma_part(share(least), share(b), wide);
        lemma_part_order(share(least), share(b), share(least), share(a), delta);
        let (s, t) = (part(share(least), share(a), delta), part(share(least), share(b), delta));
        assert((-s) % (6 * ONE) == -s && (-t) % (6 * ONE) == -t) by {
            vstd::arithmetic::div_mod::lemma_small_mod((-s) as nat, (6 * ONE) as nat);
            vstd::arithmetic::div_mod::lemma_small_mod((-t) as nat, (6 * ONE) as nat);
        }
        lemma_hue(most, least, a, most, least);
        lemma_hue(most, least, b, most, least);
        lemma_signed_order(t * 60, s * 60, 1);
        single::lemma_single_of_a_unit((-(s * 60)) as nat, 1);
        single::lemma_single_of_a_unit((-(t * 60)) as nat, 1);
        let (x, y) = (single::signed_single(s * 60, 1), single::signed_single(t * 60, 1));
        assert(y <= x < 0);
        lemma_signed_order(y + 360 * ONE, x + 360 * ONE, 1);
        lemma_tenths_order(
            single::signed_single(y + 360 * ONE, 1),
            single::signed_single(x + 360 * ONE, 1),
        );
    }
}

/// The hue that a part of the circle gives, some sixths on.
spec fn turned(s: int, sixths: int) -> int {
    single::signed_single(single::signed_single(s + sixths * ONE, 1) * 60, 1)
}

proof fn lemma_turned(s: int, sixths: nat)
    requires
        -ONE <= s <= ONE,
        1 <= sixths <= 5,
    ensures
        0 <= turned(s, sixths as int),
{
    lemma_between(s + sixths * ONE, (sixths - 1) as nat, sixths + 1);
    let t = single::signed_single(s + sixths * ONE, 1);
    lemma_signed_order(0, t * 60, 1);
    single::lemma_single_of_zero(1);
}

proof fn lemma_green_hue(x: nat, z: nat, max: nat, wide: nat)
    requires
        x < max,
        -wide <= z - x <= wide,
        0 < wide <= ONE,
    ensures
        hue_of(x, max, z, max, single::single(wide, 1)) == turned(
            part(z, x, single::single(wide, 1)),
            2,
        ),
        0 <= hue_of(x, max, z, max, single::single(wide, 1)),
{
    lemma_part(z, x, wide);
    lemma_turned(part(z, x, single::single(wide, 1)), 2);
}

proof fn lemma_blue_hue(x: nat, y: nat, max: nat, wide: nat)
    requires
        x < max,
        y < max,
        -wide <= x - y <= wide,
        0 < wide <= ONE,
    ensures
        hue_of(x, y, max, max, single::single(wide, 1)) == turned(
            part(x, y, single::single(wide, 1)),
            4,
        ),
        0 <= hue_of(x, y, max, max, single::single(wide, 1)),
{
    lemma_part(x, y, wide);
    lemma_turned(part(x, y, single::single(wide, 1)), 4);
}

/// Of two colours with the same extremes the one with the greater hue is not sorted first.
proof fn lemma_keys_order(c: (u8, u8, u8), d: (u8, u8, u8), most: u8, least: u8)
    requires
        most == c.0 || most == c.1 || most == c.2,
        most >= c.0 && most >= c.1 && most >= c.2,
        least == c.0 || least == c.1 || least == c.2,
        least <= c.0 && least <= c.1 && least <= c.2,
        most == d.0 || most == d.1 || most == d.2,
        most >= d.0 && most >= d.1 && most >= d.2,
        least == d.0 || least == d.1 || least == d.2,
        least <= d.0 && least <= d.1 && least <= d.2,
        hue_key(Some(packed(c.0, c.1, c.2) as u32)).0 == 0,
        hue_key(Some(packed(d.0, d.1, d.2) as u32)).0 == 0,
        ({
            let delta = single::single((share(most) - share(least)) as nat, 1);
            0 <= hue_of(share(c.0), share(c.1), share(c.2), share(most), delta) <= hue_of(
                share(d.0),
                share(d.1),
                share(d.2),
                share(most),
                delta,
            )
        }),
    ensures
        hue_key(Some(packed(c.0, c.1, c.2) as u32)).1 <= hue_key(
            Some(packed(d.0, d.1, d.2) as u32),
        ).1,
{
    let delta = single::single((share(most) - share(least)) as nat, 1);
    lemma_hue_is(c.0, c.1, c.2, most, least);
    lemma_hue_is(d.0, d.1, d.2, most, least);
    lemma_tenths_order(
        hue_of(share(c.0), share(c.1), share(c.2), share(most), delta),
        hue_of(share(d.0), share(d.1), share(d.2), share(most), delta),
    );
}

/// The shares of the levels least, a, b and most, in their order.
proof fn lemma_shares_in_order(most: u8, a: u8, b: u8, least: u8)
    requires
        least <= a <= b <= most,
        least < most,
    ensures
        share(least) <= share(a) <= share(b) <= share(most) <= ONE,
        share(least) < share(most),
        b < most ==> share(b) < share(most),
        0 < single::single((share(most) - share(least)) as nat, 1),
{
    lemma_share_order(least, a);
    lemma_share_order(a, b);
    lemma_share_order(b, most);
    lemma_shares_differ(least, most);
    lemma_share(most);
    if b < most {
        lemma_shares_differ(b, most);
    }
    lemma_difference(most, least);
}

proof fn lemma_yellow_to_green(most: u8, a: u8, b: u8, least: u8)
    requires
        least <= a <= b <= most,
    ensures
        ({
            let x = hue_key(Some(packed(a, most, least) as u32));
            let y = hue_key(Some(packed(b, most, least) as u32));
            b < most && x.0 == 0 && y.0 == 0 ==> x.1 >= y.1
        }),
{
    if b < most && hue_key(Some(packed(a, most, least) as u32)).0 == 0 && hue_key(
        Some(packed(b, most, least) as u32),
    ).0 == 0 {
        lemma_hue_is(a, most, least, most, least);
        lemma_shares_in_order(most, a, b, least);
        let wide = (share(most) - share(least)) as nat;
        let delta = single::single(wide, 1);
        lemma_green_hue(share(a), share(least), share(most), wide);
        lemma_green_hue(share(b), share(least), share(most), wide);
        lemma_part_order(share(least), share(b), share(least), share(a), delta);
        lemma_turn_order(
            part(share(least), share(b), delta),
            part(share(least), share(a), delta),
            2,
        );
        lemma_keys_order((b, most, least), (a, most, least), most, least);
    }
}

proof fn lemma_green_to_cyan(most: u8, a: u8, b: u8, least: u8)
    requires
        least <= a <= b <= most,
    ensures
        ({
            let x = hue_key(Some(packed(least, most, a) as u32));
            let y = hue_key(Some(packed(least, most, b) as u32));
            x.0 == 0 && y.0 == 0 ==> x.1 <= y.1
        }),
{
    if hue_key(Some(packed(least, most, a) as u32)).0 == 0 && hue_key(
        Some(packed(least, most, b) as u32),
    ).0 == 0 {
        lemma_hue_is(least, most, a, most, least);
        lemma_shares_in_order(most, a, b, least);
        let wide = (share(most) - share(least)) as nat;
        let delta = single::single(wide, 1);
        lemma_green_hue(share(least), share(a), share(most), wide);
        lemma_green_hue(share(least), share(b), share(most), wide);
        lemma_part_order(share(a), share(least), share(b), share(least), delta);
        lemma_turn_order(
            part(share(a), share(least), delta),
            part(share(b), share(least), delta),
            2,
        );
        lemma_keys_order((least, most, a), (least, most, b), most, least);
    }
}

proof fn lemma_cyan_to_blue(most: u8, a: u8, b: u8, least: u8)
    requires
        least <= a <= b <= most,
    ensures
        ({
            let x = hue_key(Some(packed(least, a, most) as u32));
            let y = hue_key(Some(packed(least, b, most) as u32));
            b < most && x.0 == 0 && y.0 == 0 ==> x.1 >= y.1
        }),
{
    if b < most && hue_key(Some(packed(least, a, most) as u32)).0 == 0 && hue_key(
        Some(packed(least, b, most) as u32),
    ).0 == 0 {
        lemma_hue_is(least, a, most, most, least);
        lemma_shares_in_order(most, a, b, least);
        let wide = (share(most) - share(least)) as nat;
        let delta = single::single(wide, 1);
        lemma_blue_hue(share(least), share(a), share(most), wide);
        lemma_blue_hue(share(least), share(b), share(most), wide);
        lemma_part_order(share(least), share(b), share(least), share(a), delta);
        lemma_turn_order(
            part(share(least), share(b), delta),
            part(share(least), share(a), delta),
            4,
        );
        lemma_keys_order((least, b, most), (least, a, most), most, least);
    }
}

proof fn lemma_blue_to_magenta(most: u8, a: u8, b: u8, least: u8)
    requires
        least <= a <= b <= most,
    ensures
        ({
            let x = hue_key(Some(packed(a, least, most) as u32));
            let y = hue_key(Some(packed(b, least, most) as u32));
            b < most && x.0 == 0 && y.0 == 0 ==> x.1 <= y.1
        }),
{
    if b < most && hue_key(Some(packed(a, least, most) as u32)).0 == 0 && hue_key(
        Some(packed(b, least, most) as u32),
    ).0 == 0 {
        lemma_hue_is(a, least, most, most, least);
        lemma_shares_in_order(most, a, b, least);
        let wide = (share(most) - share(least)) as nat;
        let delta = single::single(wide, 1);
        lemma_blue_hue(share(a), share(least), share(most), wide);
        lemma_blue_hue(share(b), share(least), share(most), wide);
        lemma_part_order(share(a), share(least), share(b), share(least), delta);
        lemma_turn_order(
            part(share(a), share(least), delta),
            part(share(b), share(least), delta),
            4,
        );
        lemma_keys_order((a, least, most), (b, least, most), most, least);
    }
}

/// A picture is sampled at 64 by 64 pixels, and these are put into five clusters in at most
/// twelve rounds.
pub proof fn samples_are_of_one_size()
    ensures
        SAMPLE_EDGE == 64,
        SAMPLES == 64 * 64,
        CLUSTERS == 5,
        ITERATIONS == 12,
{
}

/// The distance of two colours is the sum of the squares of what their levels differ by,
/// without any error.
pub proof fn distances_of_colours_are_exact(a: Rgb, b: Rgb)
    ensures
        square_distance(spot(a), spot(b)) == ((a.r - b.r) * (a.r - b.r) + (a.g - b.g) * (a.g - b.g)
            + (a.b - b.b) * (a.b - b.b)) * ONE,
{
    lemma_square_is_exact(a.r, b.r);
    lemma_square_is_exact(a.g, b.g);
    lemma_square_is_exact(a.b, b.b);
    let x = ((a.r - b.r) * (a.r - b.r)) as nat;
    let y = ((a.g - b.g) * (a.g - b.g)) as nat;
    let z = ((a.b - b.b) * (a.b - b.b)) as nat;
    single::lemma_single_is_exact(x + y, 1);
    single::lemma_single_is_exact(x + y + z, 1);
    assert(1 * ((x + y) * ONE as nat) == x * ONE + y * ONE) by (nonlinear_arith);
    assert(1 * ((x + y + z) * ONE as nat) == x * ONE + y * ONE + z * ONE) by (nonlinear_arith);
    assert((x + y) * ONE as nat == x * ONE + y * ONE) by (nonlinear_arith);
    assert((x + y + z) * ONE as nat == x * ONE + y * ONE + z * ONE) by (nonlinear_arith);
}

proof fn lemma_square_is_exact(a: u8, b: u8)
    ensures
        square((a * ONE) as nat, (b * ONE) as nat) == (a - b) * (a - b) * ONE,
        0 <= (a - b) * (a - b) <= 255 * 255,
{
    let w: nat = if a >= b {
        (a - b) as nat
    } else {
        (b - a) as nat
    };
    assert(w * w == (a - b) * (a - b) && 0 <= w * w <= 255 * 255) by (nonlinear_arith)
        requires
            w == a - b || w == b - a,
            0 <= w <= 255,
    ;
    lemma_square_upto((a * ONE) as nat, (b * ONE) as nat, w);
    lemma_square_from((a * ONE) as nat, (b * ONE) as nat, w);
}

/// A pixel goes to the cluster whose centre is nearest to it, to the first of those that
/// are equally near.
pub proof fn pixels_go_to_the_nearest_centre(
    pixels: Seq<Rgb>,
    centres: Seq<Spot>,
    i: int,
    j: int,
)
    requires
        0 <= i < pixels.len(),
        0 <= j < centres.len(),
    ensures
        ({
            let c = assignment(pixels, centres)[i];
            &&& assignment(pixels, centres).len() == pixels.len()
            &&& 0 <= c < centres.len()
            &&& square_distance(spot(pixels[i]), centres[c]) <= square_distance(
                spot(pixels[i]),
                centres[j],
            )
            &&& j < c ==> square_distance(spot(pixels[i]), centres[c]) < square_distance(
                spot(pixels[i]),
                centres[j],
            )
        }),
{
    let n = centres.len() as int;
    lemma_closest(spot(pixels[i]), centres, n);
    if j < closest_upto(spot(pixels[i]), centres, n) {
        lemma_none_nearer_before(spot(pixels[i]), centres, n, j);
    }
}

proof fn lemma_none_nearer_before(at: Spot, centres: Seq<Spot>, n: int, j: int)
    requires
        1 <= n <= centres.len(),
        0 <= j < closest_upto(at, centres, n),
    ensures
        square_distance(at, centres[closest_upto(at, centres, n)]) < square_distance(at, centres[j]),
    decreases n,
{
    if n > 1 {
        lemma_closest(at, centres, n - 1);
        if closest_upto(at, centres, n) != n - 1 {
            lemma_none_nearer_before(at, centres, n - 1, j);
        } else {
            assert(square_distance(at, centres[closest_upto(at, centres, n - 1)])
                <= square_distance(at, centres[j]));
        }
    }
}

/// The tally of a cluster counts its pixels and adds up their levels.
pub proof fn tallies_add_up_the_pixels(pixels: Seq<Rgb>, clusters: Seq<int>, c: int, n: nat)
    ensures
        ({
            let t = tally(pixels, clusters, c, n as int);
            let own = Seq::new(n, |i: int| i).filter(|i: int| clusters[i] == c);
            &&& t.count == own.len()
            &&& t.r == own.fold_left(0, |s: int, i: int| s + pixels[i].r)
            &&& t.g == own.fold_left(0, |s: int, i: int| s + pixels[i].g)
            &&& t.b == own.fold_left(0, |s: int, i: int| s + pixels[i].b)
        }),
    decreases n,
{
    reveal(Seq::filter);
    let p = |i: int| clusters[i] == c;
    let all = Seq::new(n, |i: int| i);
    if n > 0 {
        tallies_add_up_the_pixels(pixels, clusters, c, (n - 1) as nat);
        assert(all.drop_last() =~= Seq::new((n - 1) as nat, |i: int| i));
        assert(all.last() == n - 1);
        let rest = all.drop_last().filter(p);
        if clusters[n - 1] == c {
            assert(all.filter(p) == rest.push(n - 1));
            assert(rest.push(n - 1).drop_last() =~= rest);
        } else {
            assert(all.filter(p) == rest);
        }
    } else {
        assert(all.filter(p).len() == 0);
    }
}

/// A centre moves to the mean of its cluster, as near to it as single precision comes; one
/// whose cluster is empty stays.
pub proof fn centres_move_to_the_mean(
    pixels: Seq<Rgb>,
    clusters: Seq<int>,
    centres: Seq<Spot>,
    c: int,
)
    requires
        0 <= c < centres.len(),
        clusters.len() == pixels.len(),
    ensures
        ({
            let t = tally(pixels, clusters, c, pixels.len() as int);
            let moved = recentred(pixels, clusters, centres)[c];
            let (x, y, z) = (
                moved.r * t.count - t.r * ONE,
                moved.g * t.count - t.g * ONE,
                moved.b * t.count - t.b * ONE,
            );
            &&& recentred(pixels, clusters, centres).len() == centres.len()
            &&& t.count == 0 ==> moved == centres[c]
            &&& t.count > 0 ==> (-t.count <= 2 * x <= t.count || -(t.r * ONE) <= 0x100_0000 * x
                <= t.r * ONE)
            &&& t.count > 0 ==> (-t.count <= 2 * y <= t.count || -(t.g * ONE) <= 0x100_0000 * y
                <= t.g * ONE)
            &&& t.count > 0 ==> (-t.count <= 2 * z <= t.count || -(t.b * ONE) <= 0x100_0000 * z
                <= t.b * ONE)
        }),
{
    let t = tally(pixels, clusters, c, pixels.len() as int);
    if t.count > 0 {
        single::rounding_is_accurate(t.r * ONE as nat, t.count, single::SINGLE as nat);
        single::rounding_is_accurate(t.g * ONE as nat, t.count, single::SINGLE as nat);
        single::rounding_is_accurate(t.b * ONE as nat, t.count, single::SINGLE as nat);
    }
}

/// How clustering goes: from five pixels at equal distances, round by round each pixel goes
/// to the nearest centre and each centre to the mean of its pixels, until no pixel changes
/// its cluster or twelve rounds are over. The dominant colour is the centre of the fullest
/// cluster.
pub proof fn clustering_goes_on_until_it_settles(pixels: Seq<Rgb>) -> (rounds: Seq<Seq<Spot>>)
    requires
        pixels.len() > 0,
    ensures
        2 <= rounds.len() <= 13,
        rounds[0] == Seq::new(5, |i: int| spot(pixels[i * pixels.len() / 5])),
        forall|k: int|
            0 <= k < rounds.len() - 1 ==> rounds[k + 1] == recentred(
                pixels,
                assignment(pixels, #[trigger] rounds[k]),
                rounds[k],
            ),
        rounds.len() < 13 ==> {
            let last = assignment(pixels, rounds[rounds.len() - 2]);
            if rounds.len() == 2 {
                last == Seq::new(pixels.len(), |i: int| 0int)
            } else {
                last == assignment(pixels, rounds[rounds.len() - 3])
            }
        },
        ({
            let last = assignment(pixels, rounds[rounds.len() - 2]);
            let centre = rounds.last()[fullest_upto(pixels, last, 5)];
            dominant_of(pixels) == (level_of(centre.r), level_of(centre.g), level_of(centre.b))
        }),
{
    let none = Seq::new(pixels.len(), |i: int| 0int);
    assert(seeds(pixels) =~= Seq::new(5, |i: int| spot(pixels[i * pixels.len() / 5]))) by {
        assert forall|i: int| 0 <= i < 5 implies seeds(pixels)[i] == spot(
            pixels[i * pixels.len() / 5],
        ) by {
            lemma_seeds(pixels, i);
        }
    }
    lemma_rounds(pixels, none, seeds(pixels), 12)
}

proof fn lemma_rounds(pixels: Seq<Rgb>, clusters: Seq<int>, centres: Seq<Spot>, n: nat) -> (rounds:
    Seq<Seq<Spot>>)
    requires
        n > 0,
    ensures
        2 <= rounds.len() <= n + 1,
        rounds[0] == centres,
        forall|k: int|
            0 <= k < rounds.len() - 1 ==> rounds[k + 1] == recentred(
                pixels,
                assignment(pixels, #[trigger] rounds[k]),
                rounds[k],
            ),
        settled(pixels, clusters, centres, n) == (
            assignment(pixels, rounds[rounds.len() - 2]),
            rounds.last(),
        ),
        rounds.len() < n + 1 ==> {
            let last = assignment(pixels, rounds[rounds.len() - 2]);
            if rounds.len() == 2 {
                last == clusters
            } else {
                last == assignment(pixels, rounds[rounds.len() - 3])
            }
        },
    decreases n,
{
    let next = assignment(pixels, centres);
    let moved = recentred(pixels, next, centres);
    let two = seq![centres, moved];
    if next == clusters {
        two
    } else if n == 1 {
        assert(settled(pixels, next, moved, 0) == (next, moved));
        two
    } else {
        let rest = lemma_rounds(pixels, next, moved, (n - 1) as nat);
        let rounds = seq![centres] + rest;
        assert forall|k: int| 0 <= k < rounds.len() - 1 implies rounds[k + 1] == recentred(
            pixels,
            assignment(pixels, #[trigger] rounds[k]),
            rounds[k],
        ) by {
            if k > 0 {
                assert(rounds[k] == rest[k - 1] && rounds[k + 1] == rest[k - 1 + 1]);
            } else {
                assert(rounds[1] == rest[0]);
            }
        }
        assert(rounds.last() == rest.last());
        assert(rounds[rounds.len() - 2] == rest[rest.len() - 2]);
        if rest.len() > 2 {
            assert(rounds[rounds.len() - 3] == rest[rest.len() - 3]);
        } else {
            assert(rounds[rounds.len() - 3] == centres);
        }
        rounds
    }
}

} // verus!
