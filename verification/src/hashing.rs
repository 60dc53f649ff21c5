//! Hashes used for duplicate detection.
//!
//! Two independent signals, because they answer different questions:
//!
//! * [`content_hash`] is BLAKE3 over the file bytes. It answers "are these the
//!   same file?".
//! * [`perceptual_hash_from_image`] is a 64-bit difference hash over a downscaled
//!   greyscale image. It answers "are these the same picture?", so it survives
//!   resizing, recompression and format changes. Such hashes are compared by
//!   Hamming distance, which takes a radius search: hence [`BkTree`].
use vstd::arithmetic::power2::*;
use vstd::prelude::*;
use vstd::utf8::*;

use crate::picture;
use crate::text::{chars_of, string_of};

verus! {

/// `blake3::Hasher`.
#[verifier::external_type_specification]
#[verifier::external_body]
pub struct ExHasher(blake3::Hasher);

/// The bytes a hasher has been fed since it was made, in order.
pub uninterp spec fn fed(hasher: blake3::Hasher) -> Seq<u8>;

/// The BLAKE3 hash of some bytes, written in hexadecimal.
pub uninterp spec fn blake3_hex(bytes: Seq<u8>) -> Seq<char>;

/// Whether `c` is a lowercase hexadecimal digit.
pub open spec fn is_hex_digit(c: char) -> bool {
    '0' <= c <= '9' || 'a' <= c <= 'f'
}

/// `blake3::Hasher::new`: a hasher that has been fed nothing.
#[verifier::external_body]
pub(crate) fn hasher_new() -> (r: blake3::Hasher)
    ensures
        fed(r) == Seq::<u8>::empty(),
{
    blake3::Hasher::new()
}

/// `blake3::Hasher::update`: the bytes are appended to what the hasher has been
/// fed so far.
#[verifier::external_body]
pub(crate) fn hasher_update(hasher: &mut blake3::Hasher, bytes: &[u8])
    ensures
        fed(*final(hasher)) == fed(*old(hasher)) + bytes@,
{
    hasher.update(bytes);
}

/// `blake3::Hasher::finalize` with `blake3::Hash::to_hex`: the hash of all the
/// bytes the hasher has been fed, as sixty-four lowercase hexadecimal digits.
#[verifier::external_body]
pub(crate) fn hasher_hex(hasher: &blake3::Hasher) -> (r: String)
    ensures
        r@ == blake3_hex(fed(*hasher)),
        r@.len() == 64,
        forall|i: int| 0 <= i < r@.len() ==> is_hex_digit(#[trigger] r@[i]),
{
    hasher.finalize().to_hex().to_string()
}

/// A content hash that is computed chunk by chunk, so that a large file never
/// has to be in memory at once.
pub struct ContentHasher {
    hasher: blake3::Hasher,
}

impl View for ContentHasher {
    type V = Seq<u8>;

    /// The bytes taken in so far.
    closed spec fn view(&self) -> Seq<u8> {
        fed(self.hasher)
    }
}

impl ContentHasher {
    /// A hasher that has taken in nothing.
    pub fn new() -> (r: Self)
        ensures
            r@ == Seq::<u8>::empty(),
    {
        ContentHasher { hasher: hasher_new() }
    }

    /// Takes in the next chunk.
    pub fn update(&mut self, chunk: &[u8])
        ensures
            final(self)@ == old(self)@ + chunk@,
    {
        hasher_update(&mut self.hasher, chunk);
    }

    /// The hash of everything taken in so far.
    pub fn finish(&self) -> (r: String)
        ensures
            r@ == blake3_hex(self@),
            r@.len() == 64,
            forall|i: int| 0 <= i < r@.len() ==> is_hex_digit(#[trigger] r@[i]),
    {
        hasher_hex(&self.hasher)
    }
}

/// The hash of a file's contents.
pub fn content_hash(bytes: &[u8]) -> (r: String)
    ensures
        r@ == blake3_hex(bytes@),
        r@.len() == 64,
        forall|i: int| 0 <= i < r@.len() ==> is_hex_digit(#[trigger] r@[i]),
{
    let mut hasher: ContentHasher = ContentHasher::new();
    hasher.update(bytes);
    assert(Seq::<u8>::empty() + bytes@ =~= bytes@);
    hasher.finish()
}

/// The bytes of all chunks, one after the other.
pub open spec fn joined_chunks(chunks: Seq<Vec<u8>>) -> Seq<u8>
    decreases chunks.len(),
{
    if chunks.len() == 0 {
        Seq::empty()
    } else {
        joined_chunks(chunks.drop_last()) + chunks.last()@
    }
}

/// The hash of a file's contents, read in chunks. How the file is cut into
/// chunks makes no difference: the hash is that of the whole.
pub fn content_hash_of_chunks(chunks: &[Vec<u8>]) -> (r: String)
    ensures
        r@ == blake3_hex(joined_chunks(chunks@)),
        r@.len() == 64,
        forall|i: int| 0 <= i < r@.len() ==> is_hex_digit(#[trigger] r@[i]),
{
    let mut hasher: ContentHasher = ContentHasher::new();
    let mut i: usize = 0;
    assert(chunks@.take(0) =~= Seq::<Vec<u8>>::empty());
    while i < chunks.len()
        invariant
            i <= chunks@.len(),
            hasher@ == joined_chunks(chunks@.take(i as int)),
        decreases chunks@.len() - i,
    {
        hasher.update(chunks[i].as_slice());
        assert(chunks@.take(i + 1).drop_last() =~= chunks@.take(i as int));
        i += 1;
    }
    assert(chunks@.take(i as int) =~= chunks@);
    hasher.finish()
}

/// The texts of a list of string slices.
pub open spec fn slices(parts: Seq<&str>) -> Seq<Seq<char>> {
    parts.map_values(|p: &str| p@)
}

/// The bytes a key is hashed from: each part in UTF-8, followed by a separator.
pub open spec fn key_bytes(parts: Seq<Seq<char>>) -> Seq<u8>
    decreases parts.len(),
{
    if parts.len() == 0 {
        Seq::empty()
    } else {
        encode_utf8(parts[0]) + seq![0x1fu8] + key_bytes(parts.drop_first())
    }
}

proof fn lemma_key_bytes_push(parts: Seq<Seq<char>>, part: Seq<char>)
    ensures
        key_bytes(parts.push(part)) == key_bytes(parts) + encode_utf8(part) + seq![0x1fu8],
    decreases parts.len(),
{
    let whole = parts.push(part);
    if parts.len() == 0 {
        assert(whole.drop_first() =~= Seq::<Seq<char>>::empty());
        assert(key_bytes(whole.drop_first()) =~= Seq::<u8>::empty());
        assert(key_bytes(whole) =~= key_bytes(parts) + encode_utf8(part) + seq![0x1fu8]);
    } else {
        assert(whole.drop_first() =~= parts.drop_first().push(part));
        lemma_key_bytes_push(parts.drop_first(), part);
        assert(key_bytes(whole) =~= key_bytes(parts) + encode_utf8(part) + seq![0x1fu8]);
    }
}

/// Whether a text is thirty-two lowercase hexadecimal digits.
pub open spec fn is_key(key: Seq<char>) -> bool {
    key.len() == 32 && forall|i: int| 0 <= i < key.len() ==> is_hex_digit(#[trigger] key[i])
}

/// A short stable key derived from a few texts.
pub fn key_hash(parts: &[&str]) -> (r: String)
    ensures
        r@ == blake3_hex(key_bytes(slices(parts@))).take(32),
        is_key(r@),
{
    let ghost all = slices(parts@);
    let mut hasher: blake3::Hasher = hasher_new();
    let separator: [u8; 1] = [0x1f];
    let mut i: usize = 0;
    assert(all.take(0) =~= Seq::<Seq<char>>::empty());
    while i < parts.len()
        invariant
            i <= parts@.len(),
            all == slices(parts@),
            separator@ == seq![0x1fu8],
            fed(hasher) == key_bytes(all.take(i as int)),
        decreases parts@.len() - i,
    {
        let part: &str = parts[i];
        hasher_update(&mut hasher, part.as_bytes());
        hasher_update(&mut hasher, separator.as_slice());
        proof {
            assert(all.take(i + 1) =~= all.take(i as int).push(part@));
            lemma_key_bytes_push(all.take(i as int), part@);
        }
        i += 1;
    }
    assert(all.take(i as int) =~= all);
    let hex: String = hasher_hex(&hasher);
    let digits: Vec<char> = chars_of(hex.as_str());
    string_of(&digits.as_slice()[0..32])
}

/// Whether a text is free of the character that separates a key's parts.
pub open spec fn unseparated(part: Seq<char>) -> bool {
    forall|i: int| 0 <= i < part.len() ==> #[trigger] part[i] != '\u{1f}'
}

proof fn lemma_scalar_bytes(c: u32)
    by (bit_vector)
    ensures
        (0xC0u8 | ((c >> 6) & 0x1F) as u8) != 0x1f,
        (0xE0u8 | ((c >> 12) & 0x0F) as u8) != 0x1f,
        (0xF0u8 | ((c >> 18) & 0x7) as u8) != 0x1f,
        (0x80u8 | (c & 0x3F) as u8) != 0x1f,
        (0x80u8 | ((c >> 6) & 0x3F) as u8) != 0x1f,
        (0x80u8 | ((c >> 12) & 0x3F) as u8) != 0x1f,
        (c & 0x7F) as u8 == 0x1f && c <= 0x7f ==> c == 0x1f,
{
}

proof fn lemma_no_separator_byte(part: Seq<char>)
    requires
        unseparated(part),
    ensures
        forall|i: int| 0 <= i < encode_utf8(part).len() ==> #[trigger] encode_utf8(part)[i] != 0x1f,
    decreases part.len(),
{
    if part.len() > 0 {
        let c = part[0] as u32;
        lemma_scalar_bytes(c);
        let first: char = part[0];
        char_is_scalar(first);
        char_u32_cast(first, c);
        assert(first != '\u{1f}');
        assert(c != 0x1f);
        let rest = part.drop_first();
        assert forall|i: int| 0 <= i < rest.len() implies #[trigger] rest[i] != '\u{1f}' by {
            assert(rest[i] == part[i + 1]);
        }
        lemma_no_separator_byte(rest);
        let head = encode_scalar(c);
        assert(forall|i: int| 0 <= i < head.len() ==> #[trigger] head[i] != 0x1f);
        assert forall|i: int| 0 <= i < encode_utf8(part).len() implies
            #[trigger] encode_utf8(part)[i] != 0x1f by {
            if i < head.len() {
                assert(encode_utf8(part)[i] == head[i]);
            } else {
                assert(encode_utf8(part)[i] == encode_utf8(rest)[i - head.len()]);
            }
        }
    }
}

/// The separator keeps part boundaries apart, so that `("a", "bc")` and
/// `("ab", "c")` are hashed from different bytes: lists of texts that are free of
/// the separator are hashed from the same bytes only if they are the same list.
pub proof fn key_bytes_tell_parts_apart(a: Seq<Seq<char>>, b: Seq<Seq<char>>)
    requires
        forall|i: int| 0 <= i < a.len() ==> unseparated(#[trigger] a[i]),
        forall|i: int| 0 <= i < b.len() ==> unseparated(#[trigger] b[i]),
        key_bytes(a) == key_bytes(b),
    ensures
        a == b,
    decreases a.len(),
{
    if a.len() == 0 || b.len() == 0 {
        if a.len() > 0 {
            assert(key_bytes(a).len() > 0);
        }
        if b.len() > 0 {
            assert(key_bytes(b).len() > 0);
        }
        assert(a =~= b);
    } else {
        let x = encode_utf8(a[0]);
        let y = encode_utf8(b[0]);
        lemma_no_separator_byte(a[0]);
        lemma_no_separator_byte(b[0]);
        assert(key_bytes(a)[x.len() as int] == 0x1f);
        assert(key_bytes(b)[y.len() as int] == 0x1f);
        if x.len() < y.len() {
            assert(key_bytes(b)[x.len() as int] == y[x.len() as int]);
            assert(false);
        }
        if y.len() < x.len() {
            assert(key_bytes(a)[y.len() as int] == x[y.len() as int]);
            assert(false);
        }
        assert(x =~= key_bytes(a).take(x.len() as int));
        assert(y =~= key_bytes(b).take(y.len() as int));
        encode_utf8_decode_utf8(a[0]);
        encode_utf8_decode_utf8(b[0]);
        assert(a[0] == b[0]);
        let n = (x.len() + 1) as int;
        assert(key_bytes(a.drop_first()) =~= key_bytes(a).skip(n));
        assert(key_bytes(b.drop_first()) =~= key_bytes(b).skip(n));
        key_bytes_tell_parts_apart(a.drop_first(), b.drop_first());
        assert(a =~= seq![a[0]] + a.drop_first());
        assert(b =~= seq![b[0]] + b.drop_first());
    }
}

proof fn lemma_last_part(x: Seq<u8>, u: Seq<u8>, y: Seq<u8>, v: Seq<u8>)
    requires
        x.len() > 0,
        x.last() == 0x1f,
        y.len() > 0,
        y.last() == 0x1f,
        forall|i: int| 0 <= i < u.len() ==> #[trigger] u[i] != 0x1f,
        forall|i: int| 0 <= i < v.len() ==> #[trigger] v[i] != 0x1f,
        x + u == y + v,
    ensures
        x == y,
        u == v,
{
    let z = x + u;
    assert(z.len() == x.len() + u.len() && z.len() == y.len() + v.len());
    assert(z[x.len() - 1] == 0x1f);
    assert((y + v)[y.len() - 1] == 0x1f);
    if x.len() < y.len() {
        assert(z[y.len() - 1] == u[y.len() - 1 - x.len()]);
    }
    if y.len() < x.len() {
        assert((y + v)[x.len() - 1] == v[x.len() - 1 - y.len()]);
    }
    assert(x =~= z.take(x.len() as int));
    assert(y =~= (y + v).take(x.len() as int));
    assert(u =~= z.skip(x.len() as int));
    assert(v =~= (y + v).skip(x.len() as int));
}

/// Part boundaries are kept apart even if the first part is any text at all: lists of
/// the same length whose other parts are free of the separator are hashed from the same
/// bytes only if they are the same list.
pub proof fn key_bytes_tell_later_parts_apart(a: Seq<Seq<char>>, b: Seq<Seq<char>>)
    requires
        a.len() == b.len(),
        forall|i: int| 1 <= i < a.len() ==> unseparated(#[trigger] a[i]),
        forall|i: int| 1 <= i < b.len() ==> unseparated(#[trigger] b[i]),
        key_bytes(a) == key_bytes(b),
    ensures
        a == b,
    decreases a.len(),
{
    if a.len() == 0 {
        assert(a =~= b);
    } else {
        let (p, q) = (a.drop_last(), b.drop_last());
        let (x, y) = (key_bytes(p), key_bytes(q));
        let (u, v) = (encode_utf8(a.last()), encode_utf8(b.last()));
        assert(a =~= p.push(a.last()));
        assert(b =~= q.push(b.last()));
        lemma_key_bytes_push(p, a.last());
        lemma_key_bytes_push(q, b.last());
        assert(x + u =~= key_bytes(a).drop_last());
        assert(y + v =~= key_bytes(b).drop_last());
        if a.len() == 1 {
            assert(x =~= Seq::<u8>::empty() && y =~= Seq::<u8>::empty());
            assert(u =~= x + u && v =~= y + v);
            assert(p =~= q);
        } else {
            assert(p =~= p.drop_last().push(p.last()));
            assert(q =~= q.drop_last().push(q.last()));
            lemma_key_bytes_push(p.drop_last(), p.last());
            lemma_key_bytes_push(q.drop_last(), q.last());
            assert(unseparated(a[a.len() - 1]) && unseparated(b[b.len() - 1]));
            lemma_no_separator_byte(a.last());
            lemma_no_separator_byte(b.last());
            lemma_last_part(x, u, y, v);
            assert forall|i: int| 1 <= i < p.len() implies unseparated(#[trigger] p[i]) by {
                assert(unseparated(a[i]));
            }
            assert forall|i: int| 1 <= i < q.len() implies unseparated(#[trigger] q[i]) by {
                assert(unseparated(b[i]));
            }
            key_bytes_tell_later_parts_apart(p, q);
        }
        encode_utf8_decode_utf8(a.last());
        encode_utf8_decode_utf8(b.last());
        assert(a.last() == b.last());
    }
}

/// Width of the greyscale grid the difference hash is computed over.
pub const DHASH_W: u32 = 9;

/// Height of the greyscale grid the difference hash is computed over.
pub const DHASH_H: u32 = 8;

/// The grey levels of an image's pixels, row by row, once it has been resized to
/// the given width and height with a triangle filter.
pub uninterp spec fn grey_levels(img: image::DynamicImage, width: u32, height: u32) -> Seq<u8>;

/// `image::DynamicImage::resize_exact` with `FilterType::Triangle`, the result
/// turned into bytes by `to_luma8`: one grey level for each pixel of the resized
/// image. A sample that is no number, or that stops being one on the way, has no
/// byte.
#[verifier::external_body]
pub(crate) fn resized_grey(img: &image::DynamicImage, width: u32, height: u32) -> (r: Vec<u8>)
    requires
        picture::is_measurable(*img),
        0 < width <= 1024,
        0 < height <= 1024,
    ensures
        r@ == grey_levels(*img, width, height),
        r@.len() == width * height,
{
    img.resize_exact(width, height, image::imageops::FilterType::Triangle).to_luma8().into_raw()
}

/// Bit `k` of a hash.
pub open spec fn bit(hash: u64, k: int) -> bool {
    (hash >> (k as u64)) & 1 == 1
}

/// Whether the grid darkens from the `k`th pair's left pixel to its right one.
/// Each row of nine pixels has eight pairs.
pub open spec fn darkens(grid: Seq<u8>, k: int) -> bool {
    grid[(k / 8) * 9 + k % 8] > grid[(k / 8) * 9 + k % 8 + 1]
}

/// Whether `hash` is the difference hash of a grid of grey levels.
pub open spec fn is_dhash(hash: u64, grid: Seq<u8>) -> bool {
    forall|k: int| 0 <= k < 64 ==> #[trigger] bit(hash, k) == darkens(grid, k)
}

proof fn lemma_set_bit(hash: u64, k: u64, j: u64)
    by (bit_vector)
    requires
        k < 64,
        j < 64,
    ensures
        ((hash | (1u64 << k)) >> j) & 1 == (if j == k {
            1u64
        } else {
            (hash >> j) & 1
        }),
{
}

proof fn lemma_no_bits(j: u64)
    by (bit_vector)
    requires
        j < 64,
    ensures
        (0u64 >> j) & 1 == 0,
{
}

/// The difference hash of a grid of nine by eight grey levels. It encodes the
/// gradient between horizontally adjacent pixels rather than absolute
/// brightness.
pub fn dhash(grid: &[u8]) -> (r: u64)
    requires
        grid@.len() == 72,
    ensures
        is_dhash(r, grid@),
{
    let mut hash: u64 = 0;
    let mut k: u64 = 0;
    proof {
        assert forall|j: int| 0 <= j < 64 implies !bit(0, j) by {
            lemma_no_bits(j as u64);
        }
    }
    while k < 64
        invariant
            k <= 64,
            grid@.len() == 72,
            forall|j: int|
                0 <= j < 64 ==> #[trigger] bit(hash, j) == (j < k && darkens(grid@, j)),
        decreases 64 - k,
    {
        let at: usize = ((k / 8) * 9 + k % 8) as usize;
        let ghost before = hash;
        if grid[at] > grid[at + 1] {
            hash = hash | (1u64 << k);
            proof {
                assert forall|j: int| 0 <= j < 64 implies #[trigger] bit(hash, j) == (j < k + 1
                    && darkens(grid@, j)) by {
                    lemma_set_bit(before, k, j as u64);
                    assert(bit(before, j) == (j < k && darkens(grid@, j)));
                }
            }
        }
        k += 1;
    }
    hash
}

/// The difference hash of a decoded image.
pub fn perceptual_hash_from_image(img: &image::DynamicImage) -> (r: u64)
    requires
        picture::is_measurable(*img),
    ensures
        is_dhash(r, grey_levels(*img, DHASH_W, DHASH_H)),
{
    let grid: Vec<u8> = resized_grey(img, DHASH_W, DHASH_H);
    dhash(grid.as_slice())
}

/// How many ones the binary form of `x` has.
pub open spec fn ones(x: u64) -> nat
    decreases x,
{
    if x == 0 {
        0
    } else {
        (x % 2) as nat + ones(x / 2)
    }
}

/// `u64::count_ones`: the number of ones in the binary form.
pub assume_specification[ u64::count_ones ](x: u64) -> (r: u32)
    ensures
        r == ones(x),
;

/// The number of bits in which two hashes differ.
pub open spec fn distance(a: u64, b: u64) -> nat {
    ones(a ^ b)
}

/// The number of differing bits of two perceptual hashes. 0 means that the
/// downscaled images are identical; in practice up to 6 is the same picture, and
/// 16 or more is unrelated.
pub fn hamming(a: u64, b: u64) -> (r: u32)
    ensures
        r == distance(a, b),
        r <= 64,
{
    proof {
        distance_is_at_most_64(a, b);
    }
    (a ^ b).count_ones()
}

proof fn lemma_ones_bound(x: u64, k: nat)
    requires
        x < pow2(k),
    ensures
        ones(x) <= k,
    decreases k,
{
    if k == 0 {
        lemma2_to64();
    } else {
        lemma_pow2_unfold(k);
        lemma_ones_bound(x / 2, (k - 1) as nat);
    }
}

proof fn lemma_no_ones(x: u64)
    ensures
        ones(x) == 0 <==> x == 0,
    decreases x,
{
    if x > 0 {
        lemma_no_ones(x / 2);
    }
}

/// No two hashes differ in more than 64 bits.
pub proof fn distance_is_at_most_64(a: u64, b: u64)
    ensures
        distance(a, b) <= 64,
{
    lemma2_to64();
    lemma_ones_bound(a ^ b, 64);
}

/// A hash is at distance zero from itself and from no other.
pub proof fn distance_zero_is_equality(a: u64, b: u64)
    ensures
        distance(a, b) == 0 <==> a == b,
{
    assert(a ^ b == 0 <==> a == b) by (bit_vector);
    lemma_no_ones(a ^ b);
}

/// The distance of two hashes does not depend on their order.
pub proof fn distance_is_symmetric(a: u64, b: u64)
    ensures
        distance(a, b) == distance(b, a),
{
    assert(a ^ b == b ^ a) by (bit_vector);
}

proof fn lemma_xor_halves(a: u64, b: u64)
    by (bit_vector)
    ensures
        (a ^ b) / 2 == (a / 2) ^ (b / 2),
        (a ^ b) % 2 == (if a % 2 == b % 2 {
            0u64
        } else {
            1u64
        }),
{
}

/// The triangle inequality: going by way of a third hash is never shorter.
pub proof fn distance_obeys_the_triangle_inequality(a: u64, b: u64, c: u64)
    ensures
        distance(a, c) <= distance(a, b) + distance(b, c),
    decreases a + b + c,
{
    lemma_xor_halves(a, b);
    lemma_xor_halves(b, c);
    lemma_xor_halves(a, c);
    if a == 0 && b == 0 && c == 0 {
        distance_zero_is_equality(a, c);
    } else {
        distance_obeys_the_triangle_inequality(a / 2, b / 2, c / 2);
        lemma_halving(a ^ b);
        lemma_halving(b ^ c);
        lemma_halving(a ^ c);
    }
}

proof fn lemma_halving(x: u64)
    ensures
        ones(x) == (x % 2) as nat + ones(x / 2),
{
}

/// Whether `ids` holds the id of each entry whose hash is within `radius` bits of
/// `hash`, once for each such entry, and nothing else.
pub open spec fn lists_within(
    ids: Seq<usize>,
    entries: Seq<(u64, usize)>,
    hash: u64,
    radius: nat,
) -> bool {
    exists|at: Seq<int>| #[trigger]
        picks_within(at, entries, hash, radius) && ids == at.map_values(|i: int| entries[i].1)
}

/// Whether `at` lists the positions of the entries within `radius` bits of
/// `hash`, each once.
pub open spec fn picks_within(
    at: Seq<int>,
    entries: Seq<(u64, usize)>,
    hash: u64,
    radius: nat,
) -> bool {
    &&& at.no_duplicates()
    &&& forall|k: int|
        0 <= k < at.len() ==> 0 <= #[trigger] at[k] < entries.len() && distance(
            entries[at[k]].0,
            hash,
        ) <= radius
    &&& forall|i: int|
        0 <= i < entries.len() && distance(#[trigger] entries[i].0, hash) <= radius
            ==> at.contains(i)
}

struct Node {
    hash: u64,
    id: usize,
    children: Vec<(u32, usize)>,
}

/// Whether node `w` is `u` or below it, going by each node's parent.
spec fn descends(parents: Seq<int>, u: int, w: int) -> bool
    decreases w,
{
    w == u || (u < w && 0 <= parents[w] < w && descends(parents, u, parents[w]))
}

proof fn lemma_descends_up(parents: Seq<int>, u: int, w: int)
    requires
        0 < u,
        0 <= parents[u] < u,
        descends(parents, u, w),
    ensures
        descends(parents, parents[u], w),
    decreases w,
{
    if w != u {
        lemma_descends_up(parents, u, parents[w]);
    } else {
        assert(descends(parents, parents[u], parents[u]));
    }
}

proof fn lemma_descends_push(parents: Seq<int>, p: int, u: int, w: int)
    requires
        0 <= w < parents.len(),
    ensures
        descends(parents.push(p), u, w) == descends(parents, u, w),
    decreases w,
{
    if u < w && 0 <= parents[w] < w {
        lemma_descends_push(parents, p, u, parents[w]);
    }
}

/// What holds during a search of the nodes `0..n`: `seen` have been visited and
/// `stack` are to be, each node comes after its parent, and whatever is in reach
/// below a visited node has been or will be visited.
spec fn frontier(
    parents: Seq<int>,
    n: int,
    reach: spec_fn(int) -> bool,
    seen: Set<int>,
    stack: Seq<usize>,
) -> bool {
    &&& seen.finite()
    &&& forall|x: int| #[trigger] seen.contains(x) ==> 0 <= x < n
    &&& forall|x: int| x > 0 && #[trigger] seen.contains(x) ==> seen.contains(parents[x])
    &&& forall|k: int|
        0 <= k < stack.len() ==> (#[trigger] stack[k]) < n && !seen.contains(stack[k] as int)
    &&& forall|k: int|
        0 <= k < stack.len() && (#[trigger] stack[k]) > 0 ==> seen.contains(parents[stack[k] as int])
    &&& forall|j: int, k: int|
        0 <= j < k < stack.len() ==> #[trigger] stack[j] != #[trigger] stack[k]
    &&& seen.contains(0) || stack.contains(0usize)
    &&& forall|x: int|
        0 < x < n && seen.contains(#[trigger] parents[x]) && reach(x) ==> seen.contains(x)
            || stack.contains(x as usize)
}

proof fn lemma_frontier_step(
    parents: Seq<int>,
    n: int,
    reach: spec_fn(int) -> bool,
    seen: Set<int>,
    stack: Seq<usize>,
    added: Seq<usize>,
)
    requires
        frontier(parents, n, reach, seen, stack),
        n <= usize::MAX,
        stack.len() > 0,
        forall|k: int|
            0 <= k < added.len() ==> {
                let v = #[trigger] added[k];
                0 < v < n && parents[v as int] == stack.last()
            },
        forall|j: int, k: int|
            0 <= j < k < added.len() ==> #[trigger] added[j] != #[trigger] added[k],
        forall|x: int|
            0 < x < n && #[trigger] parents[x] == stack.last() && reach(x) ==> added.contains(
                x as usize,
            ),
    ensures
        frontier(parents, n, reach, seen.insert(stack.last() as int), stack.drop_last() + added),
{
    let here = stack.last() as int;
    let rest = stack.drop_last();
    let m = rest.len() as int;
    let grown = rest + added;
    let seen1 = seen.insert(here);
    assert forall|k: int| 0 <= k < grown.len() implies (#[trigger] grown[k]) < n && !seen1.contains(
        grown[k] as int,
    ) by {
        if k < m {
            assert(grown[k] == stack[k]);
            assert(stack[k] != stack[stack.len() - 1]);
        } else {
            let v = added[k - m];
            assert(grown[k] == v);
            if seen.contains(v as int) {
                assert(seen.contains(parents[v as int]));
            }
            if v == here {
                assert(seen.contains(parents[here]));
            }
        }
    }
    assert forall|k: int| 0 <= k < grown.len() && (#[trigger] grown[k]) > 0 implies seen1.contains(
        parents[grown[k] as int],
    ) by {
        if k < m {
            assert(grown[k] == stack[k]);
        } else {
            assert(grown[k] == added[k - m]);
        }
    }
    assert forall|j: int, k: int| 0 <= j < k < grown.len() implies #[trigger] grown[j]
        != #[trigger] grown[k] by {
        if j < m {
            assert(grown[j] == stack[j]);
        } else {
            assert(grown[j] == added[j - m]);
        }
        if k < m {
            assert(grown[k] == stack[k]);
        } else {
            assert(grown[k] == added[k - m]);
            if j < m && stack[j] > 0 {
                assert(seen.contains(parents[stack[j] as int]));
            }
        }
    }
    assert forall|x: usize| stack.contains(x) && x != here implies #[trigger] grown.contains(x) by {
        let k = choose|k: int| 0 <= k < stack.len() && stack[k] == x;
        assert(grown[k] == x);
    }
    assert forall|x: int|
        0 < x < n && seen1.contains(#[trigger] parents[x]) && reach(x) implies seen1.contains(x)
        || grown.contains(x as usize) by {
        if parents[x] == here {
            let k = choose|k: int| 0 <= k < added.len() && added[k] == x as usize;
            assert(grown[m + k] == x as usize);
        } else if x != here {
            assert(seen.contains(parents[x]));
        }
    }
}

/// Burkhard-Keller tree over 64-bit hashes under the Hamming metric. Finding
/// hashes close to a given one is a radius query, which a hash map cannot answer
/// and which takes all pairs by brute force. The Hamming distance is a metric, so
/// the tree prunes by the triangle inequality and still returns exact results.
pub struct BkTree {
    nodes: Vec<Node>,
    root: Option<usize>,
    parents: Ghost<Seq<int>>,
}

impl View for BkTree {
    type V = Seq<(u64, usize)>;

    /// The hashes and ids inserted so far, in order.
    closed spec fn view(&self) -> Seq<(u64, usize)> {
        self.nodes@.map_values(|n: Node| (n.hash, n.id))
    }
}

impl BkTree {
    spec fn hash_of(&self, i: int) -> u64 {
        self.nodes@[i].hash
    }

    /// Every node but the first hangs below an earlier one, under its distance
    /// from it, and so does everything below it.
    pub closed spec fn wf(&self) -> bool {
        let n = self.nodes@.len();
        let parents = self.parents@;
        &&& parents.len() == n
        &&& (self.root is None <==> n == 0)
        &&& (self.root is Some ==> self.root == Some(0usize))
        &&& forall|v: int| 0 < v < n ==> 0 <= #[trigger] parents[v] < v
        &&& forall|u: int, k: int|
            0 <= u < n && 0 <= k < self.nodes@[u].children@.len() ==> {
                let c = #[trigger] self.nodes@[u].children@[k];
                &&& u < c.1 < n
                &&& parents[c.1 as int] == u
                &&& c.0 == distance(self.hash_of(u), self.hash_of(c.1 as int))
            }
        &&& forall|v: int|
            0 < v < n ==> self.has_child(#[trigger] parents[v], v)
        &&& forall|u: int, j: int, k: int|
            0 <= u < n && 0 <= j < k < self.nodes@[u].children@.len() ==> (
            #[trigger] self.nodes@[u].children@[j]).1 != (#[trigger] self.nodes@[u].children@[k]).1
        &&& forall|v: int, w: int|
            0 < v < n && 0 <= w < n && #[trigger] descends(parents, v, w) ==> distance(
                self.hash_of(parents[v]),
                self.hash_of(w),
            ) == distance(self.hash_of(parents[v]), self.hash_of(v))
    }

    spec fn has_child(&self, u: int, v: int) -> bool {
        exists|k: int|
            0 <= k < self.nodes@[u].children@.len() && (#[trigger] self.nodes@[u].children@[k]).1
                == v
    }

    /// A tree with nothing in it.
    pub fn new() -> (r: Self)
        ensures
            r.wf(),
            r@ == Seq::<(u64, usize)>::empty(),
    {
        let r: BkTree = BkTree { nodes: Vec::new(), root: None, parents: Ghost(Seq::empty()) };
        assert(r@ =~= Seq::<(u64, usize)>::empty());
        r
    }

    /// Whether nothing has been inserted.
    pub fn is_empty(&self) -> (r: bool)
        requires
            self.wf(),
        ensures
            r == (self@.len() == 0),
    {
        self.root.is_none()
    }

    /// How many hashes have been inserted.
    pub fn len(&self) -> (r: usize)
        ensures
            r == self@.len(),
    {
        self.nodes.len()
    }

    /// The child of node `u` at distance `d`, if it has one.
    fn child_at(&self, u: usize, d: u32) -> (r: Option<usize>)
        requires
            u < self.nodes@.len(),
        ensures
            match r {
                Some(v) => exists|k: int|
                    0 <= k < self.nodes@[u as int].children@.len()
                        && #[trigger] self.nodes@[u as int].children@[k] == (d, v),
                None => forall|k: int|
                    0 <= k < self.nodes@[u as int].children@.len() ==> (
                    #[trigger] self.nodes@[u as int].children@[k]).0 != d,
            },
    {
        let mut k: usize = 0;
        while k < self.nodes[u].children.len()
            invariant
                u < self.nodes@.len(),
                k <= self.nodes@[u as int].children@.len(),
                forall|j: int|
                    0 <= j < k ==> (#[trigger] self.nodes@[u as int].children@[j]).0 != d,
            decreases self.nodes@[u as int].children@.len() - k,
        {
            let c: (u32, usize) = self.nodes[u].children[k];
            if c.0 == d {
                assert(self.nodes@[u as int].children@[k as int] == (d, c.1));
                return Some(c.1);
            }
            k += 1;
        }
        None
    }

    /// Inserts `hash` carrying an id. Equal hashes are kept apart, so that every
    /// one of them is found again.
    pub fn insert(&mut self, hash: u64, id: usize)
        requires
            old(self).wf(),
        ensures
            final(self).wf(),
            final(self)@ == old(self)@.push((hash, id)),
    {
        let new_idx: usize = self.nodes.len();
        let ghost parents = self.parents@;
        let root: usize = match self.root {
            Some(root) => root,
            None => {
                self.nodes.push(Node { hash, id, children: Vec::new() });
                self.root = Some(new_idx);
                proof {
                    self.parents@ = seq![-1int];
                }
                assert(self@ =~= old(self)@.push((hash, id)));
                return;
            },
        };
        let mut cur: usize = root;
        let mut d: u32 = hamming(self.nodes[cur].hash, hash);
        let mut next: Option<usize> = self.child_at(cur, d);
        assert(forall|v: int| 0 < v < new_idx ==> !descends(parents, v, 0));
        while next.is_some()
            invariant
                self.wf(),
                *self == *old(self),
                parents == self.parents@,
                new_idx == self.nodes@.len(),
                cur < new_idx,
                d == distance(self.hash_of(cur as int), hash),
                match next {
                    Some(v) => exists|k: int|
                        0 <= k < self.nodes@[cur as int].children@.len()
                            && #[trigger] self.nodes@[cur as int].children@[k] == (d, v),
                    None => forall|k: int|
                        0 <= k < self.nodes@[cur as int].children@.len() ==> (
                        #[trigger] self.nodes@[cur as int].children@[k]).0 != d,
                },
                forall|v: int|
                    0 < v < new_idx && #[trigger] descends(parents, v, cur as int) ==> distance(
                        self.hash_of(parents[v]),
                        hash,
                    ) == distance(self.hash_of(parents[v]), self.hash_of(v)),
            decreases new_idx - cur,
        {
            let ghost above = cur as int;
            if let Some(v) = next {
                cur = v;
            }
            assert(parents[cur as int] == above);
            assert forall|v: int|
                0 < v < new_idx && #[trigger] descends(parents, v, cur as int) implies distance(
                self.hash_of(parents[v]),
                hash,
            ) == distance(self.hash_of(parents[v]), self.hash_of(v)) by {
                if v != cur {
                    assert(descends(parents, v, above));
                }
            }
            d = hamming(self.nodes[cur].hash, hash);
            next = self.child_at(cur, d);
        }
        let ghost before = self.nodes@;
        self.nodes.push(Node { hash, id, children: Vec::new() });
        self.nodes[cur].children.push((d, new_idx));
        proof {
            let grown = parents.push(cur as int);
            self.parents@ = grown;
            assert(self@ =~= old(self)@.push((hash, id)));
            assert forall|v: int, w: int|
                0 < v < self.nodes@.len() && 0 <= w < self.nodes@.len() && #[trigger] descends(
                    grown,
                    v,
                    w,
                ) implies distance(self.hash_of(grown[v]), self.hash_of(w)) == distance(
                self.hash_of(grown[v]),
                self.hash_of(v),
            ) by {
                if w < new_idx {
                    lemma_descends_push(parents, cur as int, v, w);
                } else if v < new_idx {
                    lemma_descends_push(parents, cur as int, v, cur as int);
                    assert(descends(parents, v, cur as int));
                }
            }
            assert forall|v: int| 0 < v < self.nodes@.len() implies self.has_child(
                #[trigger] grown[v],
                v,
            ) by {
                if v < new_idx {
                    assert(old(self).has_child(parents[v], v));
                    let k = choose|k: int|
                        0 <= k < before[parents[v]].children@.len() && (
                        #[trigger] before[parents[v]].children@[k]).1 == v;
                    assert(self.nodes@[grown[v]].children@[k].1 == v);
                } else {
                    let k = before[cur as int].children@.len() as int;
                    assert(self.nodes@[cur as int].children@[k].1 == v);
                }
            }
        }
    }

    proof fn lemma_all_seen(&self, hash: u64, radius: nat, seen: Set<int>, w: int, u: int)
        requires
            self.wf(),
            0 <= u < self.nodes@.len(),
            0 <= w < self.nodes@.len(),
            distance(self.hash_of(w), hash) <= radius,
            seen.contains(0),
            forall|x: int|
                0 < x < self.nodes@.len() && seen.contains(#[trigger] self.parents@[x])
                    && self.in_reach(x, hash, radius) ==> seen.contains(x),
            descends(self.parents@, u, w),
        ensures
            seen.contains(u),
        decreases u,
    {
        if u > 0 {
            let p = self.parents@[u];
            lemma_descends_up(self.parents@, u, w);
            self.lemma_all_seen(hash, radius, seen, w, p);
            let hp = self.hash_of(p);
            let hw = self.hash_of(w);
            distance_obeys_the_triangle_inequality(hp, hw, hash);
            distance_obeys_the_triangle_inequality(hp, hash, hw);
            distance_is_symmetric(hash, hw);
        }
    }

    /// Whether the distance of node `x` from its parent leaves room for a match
    /// below it.
    spec fn in_reach(&self, x: int, hash: u64, radius: nat) -> bool {
        let up = self.hash_of(self.parents@[x]);
        let edge = distance(up, self.hash_of(x)) as int;
        let d = distance(up, hash) as int;
        d - radius <= edge <= d + radius
    }

    /// Puts those children of node `u` on the stack whose distance from it is
    /// between `lo` and `hi`.
    fn push_children(&self, u: usize, lo: u32, hi: u32, stack: &mut Vec<usize>)
        requires
            self.wf(),
            u < self.nodes@.len(),
        ensures
            final(stack)@.len() >= old(stack)@.len(),
            final(stack)@.take(old(stack)@.len() as int) == old(stack)@,
            forall|k: int|
                old(stack)@.len() <= k < final(stack)@.len() ==> {
                    let v = #[trigger] final(stack)@[k];
                    0 < v < self.nodes@.len() && self.parents@[v as int] == u
                },
            forall|j: int, k: int|
                old(stack)@.len() <= j < k < final(stack)@.len() ==> #[trigger] final(stack)@[j]
                    != #[trigger] final(stack)@[k],
            forall|v: int|
                #[trigger] self.has_child(u as int, v) && lo <= distance(
                    self.hash_of(u as int),
                    self.hash_of(v),
                ) <= hi ==> final(stack)@.skip(old(stack)@.len() as int).contains(v as usize),
    {
        let ghost base = stack@;
        let ghost m = stack@.len() as int;
        let children: &Vec<(u32, usize)> = &self.nodes[u].children;
        let mut c: usize = 0;
        assert(stack@.take(m) =~= base);
        while c < children.len()
            invariant
                self.wf(),
                u < self.nodes@.len(),
                children@ == self.nodes@[u as int].children@,
                c <= children@.len(),
                m == base.len(),
                m <= stack@.len(),
                stack@.take(m) == base,
                forall|k: int|
                    m <= k < stack@.len() ==> {
                        let v = #[trigger] stack@[k];
                        0 < v < self.nodes@.len() && self.parents@[v as int] == u
                    },
                forall|k: int, j: int|
                    m <= k < stack@.len() && c <= j < children@.len() ==> (#[trigger] stack@[k])
                        != (#[trigger] children@[j]).1,
                forall|j: int, k: int|
                    m <= j < k < stack@.len() ==> #[trigger] stack@[j] != #[trigger] stack@[k],
                forall|j: int|
                    0 <= j < c && lo <= (#[trigger] children@[j]).0 <= hi ==> stack@.skip(
                        m,
                    ).contains(children@[j].1),
            decreases children@.len() - c,
        {
            let (cd, child) = children[c];
            let ghost before = stack@;
            assert(self.nodes@[u as int].children@[c as int] == (cd, child));
            if cd >= lo && cd <= hi {
                stack.push(child);
                proof {
                    assert(stack@.take(m) =~= before.take(m));
                    let old_part = before.skip(m);
                    let new_part = stack@.skip(m);
                    assert forall|x: usize| #[trigger] old_part.contains(
                        x,
                    ) implies new_part.contains(x) by {
                        let k = choose|k: int| 0 <= k < old_part.len() && old_part[k] == x;
                        assert(new_part[k] == x);
                    }
                    assert(new_part[new_part.len() - 1] == child);
                    assert forall|k: int, j: int|
                        m <= k < stack@.len() && c + 1 <= j < children@.len() implies (
                    #[trigger] stack@[k]) != (#[trigger] children@[j]).1 by {
                        assert(self.nodes@[u as int].children@[j].1
                            != self.nodes@[u as int].children@[c as int].1);
                    }
                }
            }
            c += 1;
        }
        proof {
            assert forall|v: int|
                #[trigger] self.has_child(u as int, v) && lo <= distance(
                    self.hash_of(u as int),
                    self.hash_of(v),
                ) <= hi implies stack@.skip(m).contains(v as usize) by {
                let k = choose|k: int|
                    0 <= k < self.nodes@[u as int].children@.len() && (
                    #[trigger] self.nodes@[u as int].children@[k]).1 == v;
                assert(children@[k].1 == v);
            }
        }
    }

    /// The ids of all entries whose hash is within `radius` bits of `hash`.
    pub fn within(&self, hash: u64, radius: u32) -> (r: Vec<usize>)
        requires
            self.wf(),
        ensures
            lists_within(r@, self@, hash, radius as nat),
    {
        let mut out: Vec<usize> = Vec::new();
        let root: usize = match self.root {
            Some(root) => root,
            None => {
                proof {
                    let at = Seq::<int>::empty();
                    assert(picks_within(at, self@, hash, radius as nat));
                    assert(out@ =~= at.map_values(|i: int| self@[i].1));
                }
                return out;
            },
        };
        let count: usize = self.nodes.len();
        let ghost n = count as int;
        let ghost parents = self.parents@;
        let mut stack: Vec<usize> = Vec::new();
        stack.push(root);
        assert(stack@[0] == 0usize);
        let ghost mut seen: Set<int> = Set::empty();
        let ghost mut at: Seq<int> = Seq::empty();
        assert(out@ =~= at.map_values(|i: int| self@[i].1));
        let ghost reach = |x: int| self.in_reach(x, hash, radius as nat);
        while stack.len() > 0
            invariant
                self.wf(),
                n == self.nodes@.len(),
                n == count,
                n > 0,
                parents == self.parents@,
                reach == (|x: int| self.in_reach(x, hash, radius as nat)),
                frontier(parents, n, reach, seen, stack@),
                at.no_duplicates(),
                forall|k: int|
                    0 <= k < at.len() ==> seen.contains(#[trigger] at[k]) && distance(
                        self@[at[k]].0,
                        hash,
                    ) <= radius,
                forall|x: int|
                    #[trigger] seen.contains(x) && distance(self@[x].0, hash) <= radius
                        ==> at.contains(x),
                out@ == at.map_values(|i: int| self@[i].1),
            decreases n - seen.len(),
        {
            let ghost stack0 = stack@;
            let idx: usize = stack.pop().unwrap();
            let ghost here = idx as int;
            let ghost seen0 = seen;
            let ghost at0 = at;
            let node: &Node = &self.nodes[idx];
            let d: u32 = hamming(node.hash, hash);
            proof {
                assert(stack0[stack0.len() - 1] == idx);
                seen = seen.insert(here);
                lemma_seen_bound(seen, n);
            }
            if d <= radius {
                out.push(node.id);
                proof {
                    at = at.push(here);
                    assert(out@ =~= at.map_values(|i: int| self@[i].1));
                    assert forall|x: int|
                        #[trigger] seen.contains(x) && distance(self@[x].0, hash)
                            <= radius implies at.contains(x) by {
                        if x == here {
                            assert(at[at.len() - 1] == here);
                        } else {
                            assert(at0.contains(x));
                            let k = choose|k: int| 0 <= k < at0.len() && at0[k] == x;
                            assert(at[k] == x);
                        }
                    }
                }
            }
            let lo: u32 = d.saturating_sub(radius);
            let hi: u32 = d.saturating_add(radius);
            let ghost stack1 = stack@;
            self.push_children(idx, lo, hi, &mut stack);
            proof {
                let added = stack@.skip(stack1.len() as int);
                assert(stack@ =~= stack1 + added);
                assert forall|x: int| 0 < x < n && #[trigger] parents[x] == here && reach(
                    x,
                ) implies added.contains(x as usize) by {
                    assert(self.has_child(parents[x], x));
                    distance_is_at_most_64(self.hash_of(here), self.hash_of(x));
                    assert(lo <= distance(self.hash_of(here), self.hash_of(x)) <= hi);
                }
                lemma_frontier_step(parents, n, reach, seen0, stack0, added);
            }
        }
        proof {
            assert forall|i: int|
                0 <= i < self@.len() && distance(#[trigger] self@[i].0, hash)
                    <= radius implies at.contains(i) by {
                assert(descends(parents, i, i));
                self.lemma_all_seen(hash, radius as nat, seen, i, i);
            }
            assert(picks_within(at, self@, hash, radius as nat));
        }
        out
    }
}

proof fn lemma_seen_bound(seen: Set<int>, n: int)
    requires
        seen.finite(),
        n >= 0,
        forall|x: int| #[trigger] seen.contains(x) ==> 0 <= x < n,
    ensures
        seen.len() <= n,
{
    vstd::set_lib::lemma_int_range(0, n);
    let all = vstd::set_lib::set_int_range(0, n);
    assert(seen.subset_of(all));
    vstd::set_lib::lemma_len_subset(seen, all);
}

impl Default for BkTree {
    fn default() -> (r: Self)
        ensures
            r.wf(),
            r@ == Seq::<(u64, usize)>::empty(),
    {
        Self::new()
    }
}

/// A difference hash has a bit for each pair of neighbours in a row of nine pixels, row by
/// row from the lowest bit on: it is set exactly if the left one is the lighter.
pub proof fn hash_bits_are_falls_in_lightness(hash: u64, grid: Seq<u8>, row: int, col: int)
    requires
        grid.len() == 72,
        is_dhash(hash, grid),
        0 <= row < 8,
        0 <= col < 8,
    ensures
        (hash >> ((8 * row + col) as u64)) & 1 == 1 <==> grid[9 * row + col] > grid[9 * row + col
            + 1],
{
    let k = 8 * row + col;
    assert(k / 8 == row && k % 8 == col);
    assert(bit(hash, k) == darkens(grid, k));
}

proof fn lemma_flip_lowest(x: u64)
    by (bit_vector)
    ensures
        (x ^ 1) / 2 == x / 2,
        (x ^ 1) % 2 == 1 - x % 2,
        x & 1 == x % 2,
        x >> 0 == x,
        1u64 << 0u64 == 1,
{
}

proof fn lemma_flip_higher(x: u64, k: u64, j: u64)
    by (bit_vector)
    requires
        0 < k < 64,
        k == j + 1,
    ensures
        (x ^ (1u64 << k)) / 2 == (x / 2) ^ (1u64 << j),
        (x ^ (1u64 << k)) % 2 == x % 2,
        (x >> k) & 1 == ((x / 2) >> j) & 1,
        (x >> k) & 1 == 0 || (x >> k) & 1 == 1,
{
}

proof fn lemma_flip(x: u64, k: u64)
    requires
        k < 64,
    ensures
        (x >> k) & 1 == 0 ==> ones(x ^ (1u64 << k)) == ones(x) + 1,
        (x >> k) & 1 == 1 ==> ones(x ^ (1u64 << k)) == ones(x) - 1,
    decreases k,
{
    lemma_halving(x);
    lemma_halving(x ^ (1u64 << k));
    if k == 0 {
        lemma_flip_lowest(x);
    } else {
        lemma_flip_higher(x, k, (k - 1) as u64);
        lemma_flip(x / 2, (k - 1) as u64);
    }
}

proof fn lemma_flip_of_two(a: u64, b: u64, k: u64)
    by (bit_vector)
    requires
        k < 64,
    ensures
        a ^ (b ^ (1u64 << k)) == (a ^ b) ^ (1u64 << k),
        ((a ^ b) >> k) & 1 == (if (a >> k) & 1 == (b >> k) & 1 {
            0u64
        } else {
            1u64
        }),
{
}

/// Each bit counts for one: changing a bit in which two hashes agree puts them one further
/// apart, and changing one in which they differ brings them one closer.
pub proof fn every_bit_counts_for_one(a: u64, b: u64, k: u64)
    requires
        k < 64,
    ensures
        (a >> k) & 1 == (b >> k) & 1 ==> distance(a, b ^ (1u64 << k)) == distance(a, b) + 1,
        (a >> k) & 1 != (b >> k) & 1 ==> distance(a, b ^ (1u64 << k)) == distance(a, b) - 1,
        distance(a, a) == 0,
{
    lemma_flip_of_two(a, b, k);
    lemma_flip(a ^ b, k);
    distance_zero_is_equality(a, a);
}

/// A search lists every entry within the radius, once each, and no other.
pub proof fn searches_list_what_is_within(
    ids: Seq<usize>,
    entries: Seq<(u64, usize)>,
    hash: u64,
    radius: nat,
) -> (at: Seq<int>)
    requires
        lists_within(ids, entries, hash, radius),
    ensures
        at.len() == ids.len(),
        at.no_duplicates(),
        forall|k: int|
            0 <= k < at.len() ==> 0 <= #[trigger] at[k] < entries.len() && ids[k]
                == entries[at[k]].1 && distance(entries[at[k]].0, hash) <= radius,
        forall|i: int|
            0 <= i < entries.len() && distance((#[trigger] entries[i]).0, hash) <= radius
                ==> at.contains(i) && ids.contains(entries[i].1),
{
    let at = choose|at: Seq<int>| #[trigger]
        picks_within(at, entries, hash, radius) && ids == at.map_values(|i: int| entries[i].1);
    assert forall|i: int|
        0 <= i < entries.len() && distance(
            (#[trigger] entries[i]).0,
            hash,
        ) <= radius implies at.contains(i) && ids.contains(entries[i].1) by {
        assert(at.contains(i));
        let k = choose|k: int| 0 <= k < at.len() && at[k] == i;
        assert(ids[k] == entries[i].1);
    }
    at
}

/// The bytes that a key is made of are the parts one by one, each closed by the same
/// separator; and the bytes of chunks are the chunks one after the other.
pub proof fn key_bytes_are_the_parts_in_turn(parts: Seq<Seq<char>>, more: Seq<Seq<char>>, part: Seq<char>)
    ensures
        key_bytes(Seq::empty()) == Seq::<u8>::empty(),
        key_bytes(seq![part]) == encode_utf8(part).push(0x1f),
        key_bytes(parts + more) == key_bytes(parts) + key_bytes(more),
    decreases parts.len(),
{
    reveal_with_fuel(key_bytes, 2);
    assert(seq![part].drop_first() =~= Seq::empty());
    assert(key_bytes(seq![part]) =~= encode_utf8(part).push(0x1f));
    if parts.len() == 0 {
        assert(parts + more =~= more);
        assert(key_bytes(parts) + key_bytes(more) =~= key_bytes(more));
    } else {
        key_bytes_are_the_parts_in_turn(parts.drop_first(), more, part);
        assert((parts + more).drop_first() =~= parts.drop_first() + more);
        assert(key_bytes(parts + more) =~= key_bytes(parts) + key_bytes(more));
    }
}

/// What is read in chunks is read as their bytes one after the other.
pub proof fn chunks_are_put_together_in_order(chunks: Seq<Vec<u8>>, chunk: Vec<u8>)
    ensures
        joined_chunks(Seq::empty()) == Seq::<u8>::empty(),
        joined_chunks(seq![chunk]) == chunk@,
        joined_chunks(chunks.push(chunk)) == joined_chunks(chunks) + chunk@,
{
    reveal_with_fuel(joined_chunks, 2);
    assert(seq![chunk].drop_last() =~= Seq::empty());
    assert(Seq::<u8>::empty() + chunk@ =~= chunk@);
    assert(chunks.push(chunk).drop_last() =~= chunks);
}

/// A difference hash is taken of nine by eight pixels.
pub proof fn hashes_are_taken_of_nine_by_eight()
    ensures
        DHASH_W == 9,
        DHASH_H == 8,
{
}

} // verus!
