//! The thumbnail cache.
//!
//! Thumbnails go to the cache directory, never next to the originals. A file's size
//! and modification time are part of its thumbnail's name, so that an edited file
//! misses the cache instead of showing a stale thumbnail.
use vstd::prelude::*;

use crate::hashing;
use crate::hashing::key_hash;
use crate::pathname;
use crate::pathname::join;
use crate::picture;
use crate::picture::fittable;
use crate::text;
use crate::text::{chars_of, decimal_of, push_signed, push_text, string_of};

verus! {

/// The longest edge of a thumbnail, in pixels.
pub const THUMB_MAX_EDGE: u32 = 256;

/// What a thumbnail's name is made from.
pub open spec fn thumb_parts(path: Seq<char>, size: u64, mtime: i64) -> Seq<Seq<char>> {
    seq![path, text::decimal(size as nat), text::decimal_int(mtime as int)]
}

/// The key of a thumbnail.
pub open spec fn thumb_key(path: Seq<char>, size: u64, mtime: i64) -> Seq<char> {
    hashing::blake3_hex(hashing::key_bytes(thumb_parts(path, size, mtime))).take(32)
}

/// Where the thumbnail with a key is: in a folder named by the key's first two
/// digits, so that no folder holds too many.
pub open spec fn thumb_place(dir: Seq<char>, key: Seq<char>) -> Seq<char> {
    pathname::joined(pathname::joined(dir, key.take(2)), key + ".jpg"@)
}

/// Where a file's thumbnail is, below the folder of thumbnails.
pub fn thumb_path(dir: &str, path: &str, size: u64, mtime: i64) -> (r: String)
    ensures
        r@ == thumb_place(dir@, thumb_key(path@, size, mtime)),
        hashing::is_key(thumb_key(path@, size, mtime)),
{
    let size_text: String = decimal_of(size);
    let mut mtime_text: String = String::new();
    push_signed(&mut mtime_text, mtime);
    assert(mtime_text@ =~= text::decimal_int(mtime as int));
    let parts: [&str; 3] = [path, size_text.as_str(), mtime_text.as_str()];
    assert(hashing::slices(parts@) =~= thumb_parts(path@, size, mtime));
    let key: String = key_hash(parts.as_slice());
    let digits: Vec<char> = chars_of(key.as_str());
    let shard: String = string_of(&digits.as_slice()[0..2]);
    assert(shard@ =~= key@.take(2));
    let mut name: String = key.clone();
    push_text(&mut name, ".jpg");
    join(join(dir, shard.as_str()).as_str(), name.as_str())
}

/// The JPEG file of an image scaled to fit a box of the given edge, or why there is
/// none.
pub uninterp spec fn jpeg_fitting(img: image::DynamicImage, edge: u32) -> Result<
    Seq<u8>,
    Seq<char>,
>;

/// `image::DynamicImage::thumbnail` with `to_rgb8`, which drops the alpha channel
/// that JPEG has no place for, and `write_to` in `ImageFormat::Jpeg`: the bytes of
/// the file, or the encoder's error in words.
///
/// Each pixel of the result is the mean of a block of pixels, whose integer samples are
/// added up in 32 bits. Of an image that can be fitted no block holds more samples than
/// that takes.
#[verifier::external_body]
pub(crate) fn fitted_jpeg(img: &image::DynamicImage, edge: u32) -> (r: Result<Vec<u8>, String>)
    requires
        0 < edge <= 1024,
        picture::is_fittable(*img, edge),
    ensures
        match r {
            Ok(bytes) => jpeg_fitting(*img, edge) == Ok::<Seq<u8>, Seq<char>>(bytes@),
            Err(e) => jpeg_fitting(*img, edge) == Err::<Seq<u8>, Seq<char>>(e@),
        },
{
    let small = image::DynamicImage::ImageRgb8(img.thumbnail(edge, edge).to_rgb8());
    let mut out = std::io::Cursor::new(Vec::new());
    match small.write_to(&mut out, image::ImageFormat::Jpeg) {
        Ok(()) => Ok(out.into_inner()),
        Err(e) => Err(e.to_string()),
    }
}

/// The thumbnail of an image, or why there is none.
pub open spec fn thumb_of(img: image::DynamicImage) -> Result<Seq<u8>, Seq<char>> {
    if picture::is_fittable(img, THUMB_MAX_EDGE) {
        jpeg_fitting(img, THUMB_MAX_EDGE)
    } else {
        Err("image cannot be scaled down to a thumbnail"@)
    }
}

/// The thumbnail of a decoded image, as the bytes of a JPEG file.
pub fn render_thumb(img: &image::DynamicImage) -> (r: Result<Vec<u8>, String>)
    ensures
        match r {
            Ok(bytes) => thumb_of(*img) == Ok::<Seq<u8>, Seq<char>>(bytes@),
            Err(e) => thumb_of(*img) == Err::<Seq<u8>, Seq<char>>(e@),
        },
{
    if fittable(img, THUMB_MAX_EDGE) {
        fitted_jpeg(img, THUMB_MAX_EDGE)
    } else {
        Err("image cannot be scaled down to a thumbnail".to_string())
    }
}

/// Total bytes of some files.
pub open spec fn total(sizes: Seq<u64>) -> nat
    decreases sizes.len(),
{
    if sizes.len() == 0 {
        0
    } else {
        total(sizes.drop_last()) + sizes.last() as nat
    }
}

proof fn lemma_total_take(sizes: Seq<u64>, n: int)
    requires
        0 <= n <= sizes.len(),
    ensures
        total(sizes.take(n)) <= total(sizes),
    decreases sizes.len(),
{
    if n == sizes.len() {
        assert(sizes.take(n) =~= sizes);
    } else {
        lemma_total_take(sizes.drop_last(), n);
        assert(sizes.drop_last().take(n) =~= sizes.take(n));
    }
}

/// How many bytes the files of the cache take up.
pub fn cache_size(sizes: &[u64]) -> (r: u64)
    requires
        total(sizes@) <= u64::MAX,
    ensures
        r == total(sizes@),
{
    let mut sum: u64 = 0;
    let mut i: usize = 0;
    assert(sizes@.take(0) =~= Seq::<u64>::empty());
    while i < sizes.len()
        invariant
            total(sizes@) <= u64::MAX,
            i <= sizes@.len(),
            sum == total(sizes@.take(i as int)),
        decreases sizes@.len() - i,
    {
        proof {
            lemma_total_take(sizes@, i + 1);
            assert(sizes@.take(i + 1).drop_last() =~= sizes@.take(i as int));
        }
        sum += sizes[i];
        i += 1;
    }
    assert(sizes@.take(i as int) =~= sizes@);
    sum
}

/// A thumbnail's name begins with its folder's, which begins with that of the folder
/// of thumbnails: none is ever put next to an original.
pub proof fn thumbnails_stay_in_their_folder(dir: Seq<char>, key: Seq<char>)
    requires
        hashing::is_key(key),
    ensures
        dir.is_prefix_of(thumb_place(dir, key)),
        thumb_place(dir, key).len() > dir.len(),
{
    let shard = key.take(2);
    let name = key + ".jpg"@;
    assert(hashing::is_hex_digit(key[0]));
    assert(shard[0] == key[0] && name[0] == key[0]);
    let inner = pathname::joined(dir, shard);
    assert(dir.is_prefix_of(inner));
    assert(inner.is_prefix_of(thumb_place(dir, key)));
    assert(dir.is_prefix_of(thumb_place(dir, key)));
}

proof fn lemma_decimal_is_unseparated(i: int)
    ensures
        hashing::unseparated(text::decimal_int(i)),
{
    let n = if i < 0 {
        (-i) as nat
    } else {
        i as nat
    };
    text::lemma_decimal(n);
    let s = text::decimal_int(i);
    assert forall|k: int| 0 <= k < s.len() implies #[trigger] s[k] != '\u{1f}' by {
        if i < 0 {
            if k > 0 {
                assert(s[k] == text::decimal(n)[k - 1]);
            }
        } else {
            assert(s[k] == text::decimal(n)[k]);
        }
    }
}

/// Files that differ in path, size or modification time have thumbnails named from
/// different bytes, so that an edited file is never shown as it was.
pub proof fn edited_files_miss_the_cache(
    a: Seq<char>,
    b: Seq<char>,
    size_a: u64,
    size_b: u64,
    mtime_a: i64,
    mtime_b: i64,
)
    requires
        hashing::key_bytes(thumb_parts(a, size_a, mtime_a)) == hashing::key_bytes(
            thumb_parts(b, size_b, mtime_b),
        ),
    ensures
        a == b,
        size_a == size_b,
        mtime_a == mtime_b,
{
    let x = thumb_parts(a, size_a, mtime_a);
    let y = thumb_parts(b, size_b, mtime_b);
    lemma_decimal_is_unseparated(size_a as int);
    lemma_decimal_is_unseparated(size_b as int);
    lemma_decimal_is_unseparated(mtime_a as int);
    lemma_decimal_is_unseparated(mtime_b as int);
    assert forall|i: int| 1 <= i < x.len() implies hashing::unseparated(#[trigger] x[i]) by {}
    assert forall|i: int| 1 <= i < y.len() implies hashing::unseparated(#[trigger] y[i]) by {}
    hashing::key_bytes_tell_later_parts_apart(x, y);
    assert(x[0] == y[0] && x[1] == y[1] && x[2] == y[2]);
    text::lemma_decimal_int_is_injective(size_a as int, size_b as int);
    text::lemma_decimal_int_is_injective(mtime_a as int, mtime_b as int);
}

/// A thumbnail lies in a folder named by the first two characters of its key, under the
/// whole key.
pub proof fn thumbnails_are_found_by_key(dir: Seq<char>, key: Seq<char>)
    requires
        dir.len() > 0 && dir.last() != '/',
        key.len() >= 2,
        key[0] != '/' && key[1] != '/',
    ensures
        thumb_place(dir, key) == dir + seq!['/'] + key.take(2) + seq!['/'] + key + ".jpg"@,
{
    let shard = key.take(2);
    let name = key + ".jpg"@;
    assert(shard[0] == key[0] && shard[1] == key[1] && name[0] == key[0]);
    pathname::joining_puts_one_slash_between(dir, shard);
    let inner = dir + seq!['/'] + shard;
    assert(inner.last() == shard[1]);
    pathname::joining_puts_one_slash_between(inner, name);
    assert(inner + seq!['/'] + name =~= dir + seq!['/'] + shard + seq!['/'] + key + ".jpg"@);
}

/// The key of a thumbnail is made of the path, the size and the time of its file, and of
/// nothing else: the front half of the hash of the three, each closed by a separator.
pub proof fn thumbnails_go_by_path_size_and_time(path: Seq<char>, size: u64, mtime: i64)
    ensures
        thumb_key(path, size, mtime) == hashing::blake3_hex(
            vstd::utf8::encode_utf8(path).push(0x1f) + vstd::utf8::encode_utf8(text::decimal(size as nat)).push(0x1f)
                + vstd::utf8::encode_utf8(text::decimal_int(mtime as int)).push(0x1f),
        ).take(32),
{
    let (a, b, c) = (path, text::decimal(size as nat), text::decimal_int(mtime as int));
    let none = Seq::<Seq<char>>::empty();
    hashing::key_bytes_are_the_parts_in_turn(seq![a], seq![b], a);
    hashing::key_bytes_are_the_parts_in_turn(none, none, b);
    hashing::key_bytes_are_the_parts_in_turn(none, none, c);
    hashing::key_bytes_are_the_parts_in_turn(seq![a] + seq![b], seq![c], c);
    assert(thumb_parts(path, size, mtime) =~= seq![a] + seq![b] + seq![c]);
}

/// What the thumbnails take up is the sum of what each does.
pub proof fn sizes_add_up(sizes: Seq<u64>)
    ensures
        total(sizes) == sizes.fold_left(0, |n: int, size: u64| n + size),
    decreases sizes.len(),
{
    if sizes.len() > 0 {
        sizes_add_up(sizes.drop_last());
    }
}

/// A thumbnail is the picture fitted into a square of 256 pixels; a picture that cannot be
/// fitted has none.
pub proof fn thumbnails_fit_a_square(img: image::DynamicImage)
    ensures
        picture::is_fittable(img, 256) ==> thumb_of(img) == jpeg_fitting(img, 256),
        !picture::is_fittable(img, 256) ==> thumb_of(img) is Err,
{
}

} // verus!
