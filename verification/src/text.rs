//! Text as sequences of characters: conversion, comparison, trimming, splitting
//! and decimal numbers.
use vstd::prelude::*;
use vstd::string::StringExecFns;
use vstd::utf8::*;

verus! {

/// `String::push` appends one character to the end.
pub assume_specification[ String::push ](s: &mut String, c: char)
    ensures
        final(s)@ == old(s)@.push(c),
;

/// Whether a text is all ASCII.
pub open spec fn is_ascii(s: Seq<char>) -> bool {
    forall|i: int| 0 <= i < s.len() ==> (#[trigger] s[i]) as u32 <= 0x7f
}

/// An ASCII text with its letters in lowercase.
pub open spec fn ascii_lowercase(s: Seq<char>) -> Seq<char> {
    s.map_values(
        |c: char|
            if 'A' <= c <= 'Z' {
                (c as u32 + 32) as char
            } else {
                c
            },
    )
}

/// An ASCII text with its letters in uppercase.
pub open spec fn ascii_uppercase(s: Seq<char>) -> Seq<char> {
    s.map_values(
        |c: char|
            if 'a' <= c <= 'z' {
                (c as u32 - 32) as char
            } else {
                c
            },
    )
}

/// What `str::to_lowercase` makes of a text.
pub uninterp spec fn lowercase(s: Seq<char>) -> Seq<char>;

/// `str::to_lowercase`: the Unicode lowercase of the whole text, which is a
/// function of the text alone.
#[verifier::external_body]
pub(crate) fn to_lower(s: &str) -> (r: String)
    ensures
        r@ == lowercase(s@),
        is_ascii(s@) ==> r@ == ascii_lowercase(s@),
{
    s.to_lowercase()
}

/// What `str::to_uppercase` makes of a text.
pub uninterp spec fn uppercase(s: Seq<char>) -> Seq<char>;

/// `str::to_uppercase`: the Unicode uppercase of the whole text, which is a
/// function of the text alone.
#[verifier::external_body]
pub(crate) fn to_upper(s: &str) -> (r: String)
    ensures
        r@ == uppercase(s@),
        is_ascii(s@) ==> r@ == ascii_uppercase(s@),
{
    s.to_uppercase()
}

/// `std::str::from_utf8`: the text that some bytes encode in UTF-8, or nothing
/// if they are not valid UTF-8.
#[verifier::external_body]
pub(crate) fn utf8_text(bytes: &[u8]) -> (r: Option<String>)
    ensures
        r is Some <==> valid_utf8(bytes@),
        r is Some ==> r->0@ == decode_utf8(bytes@),
{
    std::str::from_utf8(bytes).ok().map(|s| s.to_string())
}

/// An optional text as a mathematical value.
pub open spec fn opt_view(s: Option<String>) -> Option<Seq<char>> {
    match s {
        Some(t) => Some(t@),
        None => None,
    }
}

/// An optional string slice as a mathematical value.
pub open spec fn opt_str(s: Option<&str>) -> Option<Seq<char>> {
    match s {
        Some(t) => Some(t@),
        None => None,
    }
}

/// A copy of an optional text.
pub fn clone_opt(s: &Option<String>) -> (r: Option<String>)
    ensures
        opt_view(r) == opt_view(*s),
{
    match s {
        Some(t) => Some(t.clone()),
        None => None,
    }
}

/// Whether a text is one of a list.
pub open spec fn listed(list: Seq<&str>, s: Seq<char>) -> bool {
    exists|j: int| 0 <= j < list.len() && (#[trigger] list[j])@ == s
}

/// Whether a text is one of a list.
pub fn is_listed(list: &[&str], s: &str) -> (r: bool)
    ensures
        r == listed(list@, s@),
{
    let mut i: usize = 0;
    while i < list.len()
        invariant
            i <= list@.len(),
            forall|j: int| 0 <= j < i ==> (#[trigger] list@[j])@ != s@,
        decreases list@.len() - i,
    {
        if str_eq(list[i], s) {
            assert(list@[i as int]@ == s@);
            return true;
        }
        i += 1;
    }
    false
}

/// Whether a character has the Unicode property `White_Space`.
pub open spec fn whitespace(c: char) -> bool {
    let code = c as u32;
    ||| 0x09 <= code <= 0x0d
    ||| code == 0x20
    ||| code == 0x85
    ||| code == 0xa0
    ||| code == 0x1680
    ||| 0x2000 <= code <= 0x200a
    ||| code == 0x2028
    ||| code == 0x2029
    ||| code == 0x202f
    ||| code == 0x205f
    ||| code == 0x3000
}

/// `char::is_whitespace`: the Unicode property `White_Space` of a character.
#[verifier::external_body]
pub(crate) fn is_white(c: char) -> (r: bool)
    ensures
        r == whitespace(c),
{
    c.is_whitespace()
}

/// How many bytes a text takes in UTF-8.
pub fn byte_len(s: &str) -> (r: usize)
    ensures
        r == encode_utf8(s@).len(),
{
    s.as_bytes().len()
}

/// The characters of a text.
pub fn chars_of(s: &str) -> (r: Vec<char>)
    ensures
        r@ == s@,
{
    let mut out: Vec<char> = Vec::new();
    for c in it: s.chars()
        invariant
            it.seq() == s@,
            out@ == s@.take(it.index() as int),
    {
        out.push(c);
    }
    out
}

/// The text made of the given characters.
pub fn string_of(v: &[char]) -> (r: String)
    ensures
        r@ == v@,
{
    let mut out: String = String::new();
    let mut i: usize = 0;
    while i < v.len()
        invariant
            i <= v@.len(),
            out@ == v@.take(i as int),
        decreases v@.len() - i,
    {
        out.push(v[i]);
        i += 1;
    }
    out
}

/// Whether two texts have the same characters.
pub fn str_eq(a: &str, b: &str) -> (r: bool)
    ensures
        r == (a@ == b@),
{
    let x: Vec<char> = chars_of(a);
    let y: Vec<char> = chars_of(b);
    chars_eq(x.as_slice(), y.as_slice())
}

/// Whether two runs of characters are the same.
pub fn chars_eq(x: &[char], y: &[char]) -> (r: bool)
    ensures
        r == (x@ == y@),
{
    if x.len() != y.len() {
        return false;
    }
    let mut i: usize = 0;
    while i < x.len()
        invariant
            x@.len() == y@.len(),
            i <= x@.len(),
            forall|k: int| 0 <= k < i ==> x@[k] == y@[k],
        decreases x@.len() - i,
    {
        if x[i] != y[i] {
            assert(x@[i as int] != y@[i as int]);
            return false;
        }
        i += 1;
    }
    assert(x@ =~= y@);
    true
}

/// The decimal digit that stands for a number below ten.
pub open spec fn digit(n: int) -> char {
    (48 + n) as char
}

fn digit_char(n: u64) -> (r: char)
    requires
        n < 10,
    ensures
        r == digit(n as int),
{
    (48u8 + n as u8) as char
}

/// A natural number in decimal, without leading zeros.
pub open spec fn decimal(n: nat) -> Seq<char>
    decreases n,
{
    if n < 10 {
        seq![digit(n as int)]
    } else {
        decimal(n / 10).push(digit((n % 10) as int))
    }
}

/// A whole number in decimal, with a leading minus where it is negative.
pub open spec fn decimal_int(i: int) -> Seq<char> {
    if i < 0 {
        seq!['-'] + decimal((-i) as nat)
    } else {
        decimal(i as nat)
    }
}

/// Appends a number in decimal.
pub fn push_decimal(out: &mut String, n: u64)
    ensures
        final(out)@ == old(out)@ + decimal(n as nat),
    decreases n,
{
    if n >= 10 {
        push_decimal(out, n / 10);
    }
    out.push(digit_char(n % 10));
}

/// Appends a text.
pub fn push_text(out: &mut String, s: &str)
    ensures
        final(out)@ == old(out)@ + s@,
{
    out.append(s);
}

/// Appends a whole number in decimal, with a leading minus where it is negative.
pub fn push_signed(out: &mut String, n: i64)
    ensures
        final(out)@ == old(out)@ + decimal_int(n as int),
{
    let ghost base = out@;
    if n < 0 {
        out.push('-');
        push_decimal(out, (-(n as i128)) as u64);
        assert(out@ =~= base + decimal_int(n as int));
    } else {
        push_decimal(out, n as u64);
    }
}

/// A number in decimal.
pub fn decimal_of(n: u64) -> (r: String)
    ensures
        r@ == decimal(n as nat),
{
    let mut out: String = String::new();
    push_decimal(&mut out, n);
    assert(out@ =~= decimal(n as nat));
    out
}

/// The predicate that holds of one character only.
pub open spec fn same_as(c: char) -> spec_fn(char) -> bool {
    |x: char| x == c
}

/// The predicate that holds of white space.
pub open spec fn blank() -> spec_fn(char) -> bool {
    |x: char| whitespace(x)
}

/// What is left of a text after the longest run at its start of characters that
/// satisfy `p`.
pub open spec fn skip_while(s: Seq<char>, p: spec_fn(char) -> bool) -> Seq<char>
    decreases s.len(),
{
    if s.len() > 0 && p(s[0]) {
        skip_while(s.drop_first(), p)
    } else {
        s
    }
}

/// What is left of a text before the longest run at its end of characters that
/// satisfy `p`.
pub open spec fn cut_while(s: Seq<char>, p: spec_fn(char) -> bool) -> Seq<char>
    decreases s.len(),
{
    if s.len() > 0 && p(s.last()) {
        cut_while(s.drop_last(), p)
    } else {
        s
    }
}

/// A text without white space at its two ends.
pub open spec fn trimmed(s: Seq<char>) -> Seq<char> {
    cut_while(skip_while(s, blank()), blank())
}

/// A text without the character `c` at its two ends.
pub open spec fn trimmed_of(s: Seq<char>, c: char) -> Seq<char> {
    cut_while(skip_while(s, same_as(c)), same_as(c))
}

pub proof fn lemma_skip_while(s: Seq<char>, p: spec_fn(char) -> bool, k: int)
    requires
        0 <= k <= s.len(),
        forall|i: int| 0 <= i < k ==> p(s[i]),
        k < s.len() ==> !p(s[k]),
    ensures
        skip_while(s, p) == s.skip(k),
    decreases s.len(),
{
    if k > 0 {
        let t = s.drop_first();
        assert forall|i: int| 0 <= i < k - 1 implies p(t[i]) by {
            assert(t[i] == s[i + 1]);
        }
        lemma_skip_while(t, p, k - 1);
        assert(t.skip(k - 1) =~= s.skip(k));
    } else {
        assert(s.skip(0) =~= s);
    }
}

pub proof fn lemma_cut_while(s: Seq<char>, p: spec_fn(char) -> bool, k: int)
    requires
        0 <= k <= s.len(),
        forall|i: int| k <= i < s.len() ==> p(s[i]),
        k > 0 ==> !p(s[k - 1]),
    ensures
        cut_while(s, p) == s.take(k),
    decreases s.len(),
{
    if k < s.len() {
        let t = s.drop_last();
        assert forall|i: int| k <= i < t.len() implies p(t[i]) by {
            assert(t[i] == s[i]);
        }
        lemma_cut_while(t, p, k);
        assert(t.take(k) =~= s.take(k));
    } else {
        assert(s.take(k) =~= s);
    }
}

/// A text without white space at its two ends.
pub fn trim(s: &str) -> (r: String)
    ensures
        r@ == trimmed(s@),
{
    let v: Vec<char> = chars_of(s);
    let mut lo: usize = 0;
    while lo < v.len() && is_white(v[lo])
        invariant
            lo <= v@.len(),
            forall|i: int| 0 <= i < lo ==> whitespace(#[trigger] v@[i]),
        ensures
            lo <= v@.len(),
            forall|i: int| 0 <= i < lo ==> whitespace(#[trigger] v@[i]),
            lo < v@.len() ==> !whitespace(v@[lo as int]),
        decreases v@.len() - lo,
    {
        lo += 1;
    }
    let mut hi: usize = v.len();
    while hi > lo && is_white(v[hi - 1])
        invariant
            lo <= hi <= v@.len(),
            forall|i: int| hi <= i < v@.len() ==> whitespace(#[trigger] v@[i]),
        ensures
            lo <= hi <= v@.len(),
            forall|i: int| hi <= i < v@.len() ==> whitespace(#[trigger] v@[i]),
            hi > lo ==> !whitespace(v@[hi - 1]),
        decreases hi,
    {
        hi -= 1;
    }
    proof {
        lemma_skip_while(v@, blank(), lo as int);
        let t = v@.skip(lo as int);
        assert forall|i: int| hi - lo <= i < t.len() implies #[trigger] blank()(t[i]) by {
            assert(t[i] == v@[i + lo]);
        }
        if hi > lo {
            assert(t[hi - lo - 1] == v@[hi - 1]);
        }
        lemma_cut_while(t, blank(), hi - lo);
        assert(t.take(hi - lo) =~= v@.subrange(lo as int, hi as int));
    }
    string_of(&v[lo..hi])
}

/// A text without the character `c` at its two ends.
pub fn trim_of(s: &str, c: char) -> (r: String)
    ensures
        r@ == trimmed_of(s@, c),
{
    let v: Vec<char> = chars_of(s);
    let mut lo: usize = 0;
    while lo < v.len() && v[lo] == c
        invariant
            lo <= v@.len(),
            forall|i: int| 0 <= i < lo ==> v@[i] == c,
        ensures
            lo <= v@.len(),
            forall|i: int| 0 <= i < lo ==> v@[i] == c,
            lo < v@.len() ==> v@[lo as int] != c,
        decreases v@.len() - lo,
    {
        lo += 1;
    }
    let mut hi: usize = v.len();
    while hi > lo && v[hi - 1] == c
        invariant
            lo <= hi <= v@.len(),
            forall|i: int| hi <= i < v@.len() ==> v@[i] == c,
        ensures
            lo <= hi <= v@.len(),
            forall|i: int| hi <= i < v@.len() ==> v@[i] == c,
            hi > lo ==> v@[hi - 1] != c,
        decreases hi,
    {
        hi -= 1;
    }
    proof {
        lemma_skip_while(v@, same_as(c), lo as int);
        let t = v@.skip(lo as int);
        lemma_cut_while(t, same_as(c), hi - lo);
        assert(t.take(hi - lo) =~= v@.subrange(lo as int, hi as int));
    }
    string_of(&v[lo..hi])
}

/// A text without the character `c` at its start.
pub fn trim_start_of(s: &str, c: char) -> (r: String)
    ensures
        r@ == skip_while(s@, same_as(c)),
{
    let v: Vec<char> = chars_of(s);
    let mut lo: usize = 0;
    while lo < v.len() && v[lo] == c
        invariant
            lo <= v@.len(),
            forall|i: int| 0 <= i < lo ==> v@[i] == c,
        ensures
            lo <= v@.len(),
            forall|i: int| 0 <= i < lo ==> v@[i] == c,
            lo < v@.len() ==> v@[lo as int] != c,
        decreases v@.len() - lo,
    {
        lo += 1;
    }
    let n: usize = v.len();
    proof {
        lemma_skip_while(v@, same_as(c), lo as int);
        assert(v@.skip(lo as int) =~= v@.subrange(lo as int, n as int));
    }
    string_of(&v[lo..n])
}

/// A text without the character `c` at its end.
pub fn trim_end_of(s: &str, c: char) -> (r: String)
    ensures
        r@ == cut_while(s@, same_as(c)),
{
    let v: Vec<char> = chars_of(s);
    let mut hi: usize = v.len();
    while hi > 0 && v[hi - 1] == c
        invariant
            hi <= v@.len(),
            forall|i: int| hi <= i < v@.len() ==> v@[i] == c,
        ensures
            hi <= v@.len(),
            forall|i: int| hi <= i < v@.len() ==> v@[i] == c,
            hi > 0 ==> v@[hi - 1] != c,
        decreases hi,
    {
        hi -= 1;
    }
    proof {
        lemma_cut_while(v@, same_as(c), hi as int);
        assert(v@.take(hi as int) =~= v@.subrange(0, hi as int));
    }
    string_of(&v[0..hi])
}

/// The position of the first `c` in a text, or its length where there is none.
pub open spec fn first_index(s: Seq<char>, c: char) -> int
    decreases s.len(),
{
    if s.len() == 0 || s[0] == c {
        0
    } else {
        1 + first_index(s.drop_first(), c)
    }
}

/// The position of the last `c` in a text, or -1 where there is none.
pub open spec fn last_index(s: Seq<char>, c: char) -> int
    decreases s.len(),
{
    if s.len() == 0 {
        -1
    } else if s.last() == c {
        s.len() - 1
    } else {
        last_index(s.drop_last(), c)
    }
}

pub proof fn lemma_first_index(s: Seq<char>, c: char, k: int)
    requires
        0 <= k <= s.len(),
        forall|i: int| 0 <= i < k ==> s[i] != c,
        k < s.len() ==> s[k] == c,
    ensures
        first_index(s, c) == k,
    decreases s.len(),
{
    if k > 0 {
        lemma_first_index(s.drop_first(), c, k - 1);
    }
}

pub proof fn lemma_first_index_is(s: Seq<char>, c: char)
    ensures
        0 <= first_index(s, c) <= s.len(),
        forall|i: int| 0 <= i < first_index(s, c) ==> s[i] != c,
        first_index(s, c) < s.len() ==> s[first_index(s, c)] == c,
    decreases s.len(),
{
    if s.len() > 0 && s[0] != c {
        lemma_first_index_is(s.drop_first(), c);
        assert forall|i: int| 0 <= i < first_index(s, c) implies s[i] != c by {
            if i > 0 {
                assert(s[i] == s.drop_first()[i - 1]);
            }
        }
    }
}

pub proof fn lemma_last_index(s: Seq<char>, c: char, k: int)
    requires
        -1 <= k < s.len(),
        forall|i: int| k < i < s.len() ==> s[i] != c,
        k >= 0 ==> s[k] == c,
    ensures
        last_index(s, c) == k,
    decreases s.len(),
{
    if k < s.len() - 1 {
        lemma_last_index(s.drop_last(), c, k);
    }
}

/// The position of the first `c`, if there is one.
pub fn find_char(v: &[char], c: char) -> (r: Option<usize>)
    ensures
        r is Some <==> first_index(v@, c) < v@.len(),
        r is Some ==> r->0 == first_index(v@, c),
{
    let mut i: usize = 0;
    while i < v.len()
        invariant
            i <= v@.len(),
            forall|k: int| 0 <= k < i ==> v@[k] != c,
        decreases v@.len() - i,
    {
        if v[i] == c {
            proof {
                lemma_first_index(v@, c, i as int);
            }
            return Some(i);
        }
        i += 1;
    }
    proof {
        lemma_first_index(v@, c, i as int);
    }
    None
}

/// The position of the last `c`, if there is one.
pub fn rfind_char(v: &[char], c: char) -> (r: Option<usize>)
    ensures
        r is Some <==> last_index(v@, c) >= 0,
        r is None ==> last_index(v@, c) == -1,
        r is Some ==> r->0 == last_index(v@, c),
        r is Some ==> r->0 < v@.len(),
{
    let mut i: usize = v.len();
    while i > 0
        invariant
            i <= v@.len(),
            forall|k: int| i <= k < v@.len() ==> v@[k] != c,
        decreases i,
    {
        if v[i - 1] == c {
            proof {
                lemma_last_index(v@, c, i - 1);
            }
            return Some(i - 1);
        }
        i -= 1;
    }
    proof {
        lemma_last_index(v@, c, -1);
    }
    None
}

/// The pieces of a text between the occurrences of a separator.
pub open spec fn split(s: Seq<char>, sep: char) -> Seq<Seq<char>>
    decreases s.len(),
{
    let i = first_index(s, sep);
    if 0 <= i < s.len() {
        seq![s.take(i)] + split(s.skip(i + 1), sep)
    } else {
        seq![s]
    }
}

/// Character runs as sequences.
pub open spec fn texts(v: Seq<Vec<char>>) -> Seq<Seq<char>> {
    v.map_values(|x: Vec<char>| x@)
}

/// The pieces of a text between the occurrences of a separator.
pub fn split_of(v: &[char], sep: char) -> (r: Vec<Vec<char>>)
    ensures
        texts(r@) == split(v@, sep),
{
    let mut out: Vec<Vec<char>> = Vec::new();
    let mut cur: Vec<char> = Vec::new();
    let mut i: usize = 0;
    let ghost mut start: int = 0;
    assert(v@.skip(0) =~= v@);
    while i < v.len()
        invariant
            0 <= start <= i <= v@.len(),
            cur@ == v@.subrange(start, i as int),
            forall|k: int| start <= k < i ==> v@[k] != sep,
            texts(out@) + split(v@.skip(start), sep) == split(v@, sep),
        decreases v@.len() - i,
    {
        if v[i] == sep {
            proof {
                let rest = v@.skip(start);
                assert forall|k: int| 0 <= k < i - start implies rest[k] != sep by {
                    assert(rest[k] == v@[k + start]);
                }
                assert(rest[i - start] == v@[i as int]);
                lemma_first_index(rest, sep, i - start);
                assert(rest.take(i - start) =~= cur@);
                assert(rest.skip(i - start + 1) =~= v@.skip(i + 1));
                assert(texts(out@.push(cur)) =~= texts(out@).push(cur@));
                assert(texts(out@).push(cur@) + split(v@.skip(i + 1), sep) =~= texts(out@) + (seq![
                    cur@,
                ] + split(v@.skip(i + 1), sep)));
                start = i + 1;
            }
            out.push(cur);
            cur = Vec::new();
        } else {
            cur.push(v[i]);
        }
        i += 1;
        assert(cur@ =~= v@.subrange(start, i as int));
    }
    proof {
        let rest = v@.skip(start);
        assert forall|k: int| 0 <= k < rest.len() implies rest[k] != sep by {
            assert(rest[k] == v@[k + start]);
        }
        lemma_first_index(rest, sep, rest.len() as int);
        assert(rest =~= cur@);
        assert(texts(out@.push(cur)) =~= texts(out@) + seq![cur@]);
    }
    out.push(cur);
    out
}

/// Whether `needle` stands in `hay` from position `i` on.
pub open spec fn stands_at(hay: Seq<char>, needle: Seq<char>, i: int) -> bool {
    0 <= i && i + needle.len() <= hay.len() && hay.subrange(i, i + needle.len()) == needle
}

/// Whether `needle` occurs anywhere in `hay`.
pub open spec fn occurs_in(needle: Seq<char>, hay: Seq<char>) -> bool {
    exists|i: int| stands_at(hay, needle, i)
}

fn stands_here(hay: &[char], needle: &[char], i: usize) -> (r: bool)
    requires
        i + needle@.len() <= hay@.len(),
    ensures
        r == stands_at(hay@, needle@, i as int),
{
    let n: usize = hay.len();
    let mut k: usize = 0;
    while k < needle.len()
        invariant
            n == hay@.len(),
            i + needle@.len() <= n,
            k <= needle@.len(),
            forall|j: int| 0 <= j < k ==> hay@[i + j] == needle@[j],
        decreases needle@.len() - k,
    {
        if hay[i + k] != needle[k] {
            assert(hay@.subrange(i as int, i + needle@.len())[k as int] != needle@[k as int]);
            return false;
        }
        k += 1;
    }
    assert(hay@.subrange(i as int, i + needle@.len()) =~= needle@);
    true
}

/// Whether `needle` occurs anywhere in `hay`.
pub fn occurs(needle: &[char], hay: &[char]) -> (r: bool)
    ensures
        r == occurs_in(needle@, hay@),
{
    if needle.len() > hay.len() {
        return false;
    }
    let last: usize = hay.len() - needle.len();
    let mut i: usize = 0;
    while i <= last
        invariant
            last + needle@.len() == hay@.len(),
            i <= last + 1,
            forall|j: int| 0 <= j < i ==> !stands_at(hay@, needle@, j),
        decreases last + 1 - i,
    {
        if stands_here(hay, needle, i) {
            return true;
        }
        if i == last {
            assert forall|j: int| !stands_at(hay@, needle@, j) by {
                if j > last {
                    assert(j + needle@.len() > hay@.len());
                }
            }
            return false;
        }
        i += 1;
    }
    false
}

/// Whether a text begins with another.
pub open spec fn begins_with(s: Seq<char>, start: Seq<char>) -> bool {
    start.len() <= s.len() && s.take(start.len() as int) == start
}

/// Whether a text begins with another.
pub fn starts_with(s: &str, start: &[char]) -> (r: bool)
    ensures
        r == begins_with(s@, start@),
{
    let v: Vec<char> = chars_of(s);
    let n: usize = start.len();
    if v.len() < n {
        return false;
    }
    assert(v@.subrange(0, n as int) =~= s@.take(n as int));
    chars_eq(&v.as_slice()[0..n], start)
}

/// Whether a text ends in another.
pub open spec fn ends_in(s: Seq<char>, end: Seq<char>) -> bool {
    s.len() >= end.len() && s.skip(s.len() - end.len()) == end
}

/// Whether a text ends in another.
pub fn ends_with(s: &[char], end: &[char]) -> (r: bool)
    ensures
        r == ends_in(s@, end@),
{
    if s.len() < end.len() {
        return false;
    }
    let at: usize = s.len() - end.len();
    proof {
        assert(s@.subrange(at as int, at + end@.len()) =~= s@.skip(s@.len() - end@.len()));
    }
    stands_here(s, end, at)
}

/// Whether a character is one of the ten decimal digits.
pub open spec fn is_digit(c: char) -> bool {
    '0' <= c && c <= '9'
}

/// The number that a run of decimal digits stands for.
pub open spec fn digits_value(s: Seq<char>) -> nat
    decreases s.len(),
{
    if s.len() == 0 {
        0
    } else {
        10 * digits_value(s.drop_last()) + ((s.last() as int - 48) as nat)
    }
}

/// What a run of characters stands for as a number of at most `max`: decimal
/// digits, at least one.
pub open spec fn parsed_digits(t: Seq<char>, max: nat) -> Option<nat> {
    if t.len() > 0 && (forall|i: int| 0 <= i < t.len() ==> is_digit(t[i])) && digits_value(t)
        <= max {
        Some(digits_value(t))
    } else {
        None
    }
}

/// What a text stands for as an unsigned number of at most `max`: decimal
/// digits, with at most one plus before them.
pub open spec fn parsed(s: Seq<char>, max: nat) -> Option<nat> {
    if s.len() > 1 && s[0] == '+' {
        parsed_digits(s.drop_first(), max)
    } else {
        parsed_digits(s, max)
    }
}

/// What a number in decimal consists of and stands for.
pub proof fn lemma_decimal(n: nat)
    ensures
        decimal(n).len() > 0,
        forall|i: int| 0 <= i < decimal(n).len() ==> is_digit(#[trigger] decimal(n)[i]),
        digits_value(decimal(n)) == n,
    decreases n,
{
    let last = digit((n % 10) as int);
    assert(is_digit(last) && last as int - 48 == n % 10);
    if n < 10 {
        assert(decimal(n).drop_last() =~= Seq::<char>::empty());
        assert(digits_value(Seq::<char>::empty()) == 0);
    } else {
        lemma_decimal(n / 10);
        assert(decimal(n).drop_last() =~= decimal(n / 10));
    }
}

/// Different whole numbers are written differently.
pub proof fn lemma_decimal_int_is_injective(a: int, b: int)
    requires
        decimal_int(a) == decimal_int(b),
    ensures
        a == b,
{
    let x = decimal(if a < 0 {
        (-a) as nat
    } else {
        a as nat
    });
    let y = decimal(if b < 0 {
        (-b) as nat
    } else {
        b as nat
    });
    lemma_decimal(if a < 0 {
        (-a) as nat
    } else {
        a as nat
    });
    lemma_decimal(if b < 0 {
        (-b) as nat
    } else {
        b as nat
    });
    if a < 0 {
        assert(decimal_int(a)[0] == '-');
    } else {
        assert(is_digit(decimal_int(a)[0]));
    }
    if b < 0 {
        assert(decimal_int(b)[0] == '-');
    } else {
        assert(is_digit(decimal_int(b)[0]));
    }
    if a < 0 {
        assert(decimal_int(a).drop_first() =~= x);
        assert(decimal_int(b).drop_first() =~= y);
    }
    assert(x == y);
}

proof fn lemma_digits_grow(s: Seq<char>, k: int)
    requires
        0 <= k <= s.len(),
    ensures
        digits_value(s.take(k)) <= digits_value(s),
    decreases s.len(),
{
    if k < s.len() {
        lemma_digits_grow(s.drop_last(), k);
        assert(s.drop_last().take(k) =~= s.take(k));
    } else {
        assert(s.take(k) =~= s);
    }
}

/// Reads an unsigned number of at most `max`.
pub fn parse_unsigned(s: &str, max: u64) -> (r: Option<u64>)
    ensures
        r is Some <==> parsed(s@, max as nat) is Some,
        r is Some ==> r->0 == parsed(s@, max as nat)->0,
{
    let v: Vec<char> = chars_of(s);
    let start: usize = if v.len() > 1 && v[0] == '+' {
        1
    } else {
        0
    };
    let ghost t = v@.skip(start as int);
    assert(start == 0 ==> t =~= v@);
    assert(start == 1 ==> t =~= v@.drop_first());
    if start == v.len() {
        return None;
    }
    let mut acc: u64 = 0;
    let mut i: usize = start;
    assert(t.take(0) =~= Seq::<char>::empty());
    while i < v.len()
        invariant
            start <= i <= v@.len(),
            t == v@.skip(start as int),
            acc == digits_value(t.take(i - start)),
            acc <= max,
            forall|k: int| 0 <= k < i - start ==> is_digit(t[k]),
            parsed(s@, max as nat) == parsed_digits(t, max as nat),
            t.len() > 0,
        decreases v@.len() - i,
    {
        let c: char = v[i];
        assert(t[i - start] == c);
        if !('0' <= c && c <= '9') {
            assert(!is_digit(t[i - start]));
            return None;
        }
        let d: u64 = (c as u32 - 48) as u64;
        proof {
            assert(t.take(i - start + 1).drop_last() =~= t.take(i - start));
            assert(digits_value(t.take(i - start + 1)) == 10 * acc + d);
            lemma_digits_grow(t, i - start + 1);
        }
        if d > max || acc > (max - d) / 10 {
            return None;
        }
        acc = acc * 10 + d;
        i += 1;
    }
    assert(t.take(t.len() as int) =~= t);
    Some(acc)
}

proof fn lemma_value_of_digits(s: Seq<char>)
    requires
        forall|i: int| 0 <= i < s.len() ==> is_digit(#[trigger] s[i]),
    ensures
        s.fold_left(0, |v: int, c: char| 10 * v + (c as int - 48)) == digits_value(s),
    decreases s.len(),
{
    if s.len() > 0 {
        assert forall|i: int| 0 <= i < s.drop_last().len() implies is_digit(
            #[trigger] s.drop_last()[i],
        ) by {
            assert(s.drop_last()[i] == s[i]);
        }
        lemma_value_of_digits(s.drop_last());
        assert(is_digit(s[s.len() - 1]));
    }
}

/// A number is written with the digits of base ten, the first not a zero unless the
/// number is zero itself, and read from left to right they give the number.
pub proof fn decimals_are_read_back(n: nat)
    ensures
        decimal(n).len() >= 1,
        forall|i: int| 0 <= i < decimal(n).len() ==> '0' <= #[trigger] decimal(n)[i] <= '9',
        decimal(n)[0] == '0' <==> n == 0,
        decimal(n).fold_left(0, |v: int, c: char| 10 * v + (c as int - 48)) == n,
    decreases n,
{
    lemma_decimal(n);
    lemma_value_of_digits(decimal(n));
    if n >= 10 {
        decimals_are_read_back(n / 10);
        assert(decimal(n)[0] == decimal(n / 10)[0]);
    }
}

/// A number without a sign is read back from its decimals, and a number that is too
/// large, or no number at all, is not read.
pub proof fn numbers_are_read_from_their_decimals(n: nat, max: nat, s: Seq<char>)
    ensures
        parsed(decimal(n), max) == if n <= max {
            Some(n)
        } else {
            None
        },
        parsed(seq!['+'] + decimal(n), max) == parsed(decimal(n), max),
        parsed(s, max) is Some ==> s.len() > 0 && parsed(s, max)->0 <= max && (forall|i: int|
            0 <= i < s.len() ==> '0' <= #[trigger] s[i] <= '9' || (i == 0 && s[i] == '+')),
{
    lemma_decimal(n);
    let d = decimal(n);
    assert(is_digit(d[0]));
    let signed = seq!['+'] + d;
    assert(signed.drop_first() =~= d);
    if parsed(s, max) is Some {
        assert forall|i: int| 0 <= i < s.len() implies '0' <= #[trigger] s[i] <= '9' || (i == 0
            && s[i] == '+') by {
            if s.len() > 1 && s[0] == '+' {
                if i > 0 {
                    assert(s[i] == s.drop_first()[i - 1]);
                    assert(is_digit(s.drop_first()[i - 1]));
                }
            } else {
                assert(is_digit(s[i]));
            }
        }
    }
}

/// What skipping leaves out at the front is skipped for a reason, and what is left
/// begins where there is none.
proof fn lemma_skipped(s: Seq<char>, p: spec_fn(char) -> bool) -> (k: int)
    ensures
        0 <= k <= s.len(),
        skip_while(s, p) == s.skip(k),
        forall|i: int| 0 <= i < k ==> p(#[trigger] s[i]),
        k < s.len() ==> !p(s[k]),
    decreases s.len(),
{
    if s.len() > 0 && p(s[0]) {
        let k = lemma_skipped(s.drop_first(), p);
        assert(s.drop_first().skip(k) =~= s.skip(k + 1));
        assert forall|i: int| 0 <= i < k + 1 implies p(#[trigger] s[i]) by {
            if i > 0 {
                assert(s[i] == s.drop_first()[i - 1]);
            }
        }
        k + 1
    } else {
        assert(s.skip(0) =~= s);
        0
    }
}

proof fn lemma_cut(s: Seq<char>, p: spec_fn(char) -> bool) -> (k: int)
    ensures
        0 <= k <= s.len(),
        cut_while(s, p) == s.take(k),
        forall|i: int| k <= i < s.len() ==> p(#[trigger] s[i]),
        k > 0 ==> !p(s[k - 1]),
    decreases s.len(),
{
    if s.len() > 0 && p(s.last()) {
        let k = lemma_cut(s.drop_last(), p);
        assert(s.drop_last().take(k) =~= s.take(k));
        assert forall|i: int| k <= i < s.len() implies p(#[trigger] s[i]) by {
            if i < s.len() - 1 {
                assert(s[i] == s.drop_last()[i]);
            }
        }
        k
    } else {
        assert(s.take(s.len() as int) =~= s);
        s.len() as int
    }
}

/// Trimming takes away white space at the two ends, all of it, and nothing else.
pub proof fn trimming_takes_white_space_off_the_ends(s: Seq<char>) -> (at: (int, int))
    ensures
        0 <= at.0 <= at.1 <= s.len(),
        trimmed(s) == s.subrange(at.0, at.1),
        forall|i: int|
            0 <= i < at.0 || at.1 <= i < s.len() ==> whitespace(#[trigger] s[i]),
        at.0 < at.1 ==> !whitespace(s[at.0]) && !whitespace(s[at.1 - 1]),
{
    let a = lemma_skipped(s, blank());
    let t = s.skip(a);
    let b = lemma_cut(t, blank());
    assert(t.take(b) =~= s.subrange(a, a + b));
    assert forall|i: int| 0 <= i < a || a + b <= i < s.len() implies whitespace(
        #[trigger] s[i],
    ) by {
        if i < a {
            assert(blank()(s[i]));
        } else {
            assert(blank()(t[i - a]));
        }
    }
    if b > 0 {
        assert(!blank()(t[b - 1]));
        if a < s.len() {
            assert(!blank()(s[a]));
        }
    }
    (a, a + b)
}

/// Trimming a character takes it away at the two ends, wherever it stands there, and
/// nothing else.
pub proof fn trimming_a_character_takes_it_off_the_ends(s: Seq<char>, c: char) -> (at: (int, int))
    ensures
        0 <= at.0 <= at.1 <= s.len(),
        trimmed_of(s, c) == s.subrange(at.0, at.1),
        forall|i: int| 0 <= i < at.0 || at.1 <= i < s.len() ==> #[trigger] s[i] == c,
        at.0 < at.1 ==> s[at.0] != c && s[at.1 - 1] != c,
{
    let a = lemma_skipped(s, same_as(c));
    let t = s.skip(a);
    let b = lemma_cut(t, same_as(c));
    assert(t.take(b) =~= s.subrange(a, a + b));
    assert forall|i: int| 0 <= i < a || a + b <= i < s.len() implies #[trigger] s[i] == c by {
        if i < a {
            assert(same_as(c)(s[i]));
        } else {
            assert(same_as(c)(t[i - a]));
        }
    }
    if b > 0 {
        assert(!same_as(c)(t[b - 1]));
        if a < s.len() {
            assert(!same_as(c)(s[a]));
        }
    }
    (a, a + b)
}

/// The first and the last place of a character in a text: it stands there, and it does
/// not stand before the first nor behind the last.
pub proof fn places_of_a_character(s: Seq<char>, c: char)
    ensures
        first_index(s, c) < s.len() <==> s.contains(c),
        s.contains(c) ==> s[first_index(s, c)] == c && s[last_index(s, c)] == c,
        forall|i: int| 0 <= i < s.len() && #[trigger] s[i] == c ==> first_index(s, c) <= i
            <= last_index(s, c),
        last_index(s, c) == -1 <==> !s.contains(c),
        -1 <= last_index(s, c) < s.len(),
        0 <= first_index(s, c) <= s.len(),
    decreases s.len(),
{
    lemma_first_index_is(s, c);
    lemma_last_index_is(s, c);
    if first_index(s, c) < s.len() {
        assert(s[first_index(s, c)] == c);
    }
    if last_index(s, c) >= 0 {
        assert(s[last_index(s, c)] == c);
    }
}

proof fn lemma_last_index_is(s: Seq<char>, c: char)
    ensures
        -1 <= last_index(s, c) < s.len(),
        last_index(s, c) >= 0 ==> s[last_index(s, c)] == c,
        forall|i: int| last_index(s, c) < i < s.len() ==> #[trigger] s[i] != c,
    decreases s.len(),
{
    if s.len() > 0 && s.last() != c {
        lemma_last_index_is(s.drop_last(), c);
        assert forall|i: int| last_index(s, c) < i < s.len() implies #[trigger] s[i] != c by {
            if i < s.len() - 1 {
                assert(s[i] == s.drop_last()[i]);
            }
        }
    }
}

/// The pieces that a text is split into hold no separator, and put back together with
/// one between each two they are the text.
pub proof fn splitting_loses_nothing(s: Seq<char>, sep: char)
    ensures
        split(s, sep).len() >= 1,
        forall|i: int| 0 <= i < split(s, sep).len() ==> !(#[trigger] split(s, sep)[i]).contains(sep),
        split(s, sep).map_values(|p: Seq<char>| p.push(sep)).flatten() == s.push(sep),
    decreases s.len(),
{
    lemma_first_index_is(s, sep);
    let k = first_index(s, sep);
    let f = |p: Seq<char>| p.push(sep);
    let all = split(s, sep);
    if k < s.len() {
        let rest = s.skip(k + 1);
        splitting_loses_nothing(rest, sep);
        let tail = split(rest, sep);
        assert(all =~= seq![s.take(k)] + tail);
        assert forall|i: int| 0 <= i < all.len() implies !(#[trigger] all[i]).contains(sep) by {
            if i > 0 {
                assert(all[i] == tail[i - 1]);
            }
        }
        let pieces = all.map_values(f);
        assert(pieces.drop_first() =~= tail.map_values(f));
        assert(pieces.flatten() == pieces.first() + pieces.drop_first().flatten());
        assert(s.push(sep) =~= s.take(k).push(sep) + rest.push(sep));
    } else {
        let pieces = all.map_values(f);
        assert(pieces.drop_first() =~= Seq::empty());
        assert(pieces.drop_first().flatten() =~= Seq::empty());
        assert(pieces.flatten() == pieces.first() + pieces.drop_first().flatten());
        assert(pieces.flatten() =~= s.push(sep));
    }
}

/// A text holds another wherever that stands between two texts, and only there.
pub proof fn a_part_of_a_text_is_found(before: Seq<char>, needle: Seq<char>, after: Seq<char>)
    ensures
        occurs_in(needle, before + needle + after),
        begins_with(needle + after, needle),
        ends_in(before + needle, needle),
{
    let hay = before + needle + after;
    assert(hay.subrange(before.len() as int, (before.len() + needle.len()) as int) =~= needle);
    assert(stands_at(hay, needle, before.len() as int));
    assert((needle + after).take(needle.len() as int) =~= needle);
    assert((before + needle).skip(before.len() as int) =~= needle);
}

/// A text that holds another is made of it and of what stands before and behind it.
pub proof fn what_is_found_is_a_part(needle: Seq<char>, hay: Seq<char>) -> (around: (
    Seq<char>,
    Seq<char>,
))
    ensures
        occurs_in(needle, hay) ==> hay == around.0 + needle + around.1,
        begins_with(hay, needle) ==> hay == needle + hay.skip(needle.len() as int),
        ends_in(hay, needle) ==> hay == hay.take(hay.len() - needle.len()) + needle,
{
    if begins_with(hay, needle) {
        assert(hay =~= hay.take(needle.len() as int) + hay.skip(needle.len() as int));
    }
    if ends_in(hay, needle) {
        let k = hay.len() - needle.len();
        assert(hay =~= hay.take(k) + hay.skip(k));
    }
    if occurs_in(needle, hay) {
        let i = choose|i: int| stands_at(hay, needle, i);
        let k = i + needle.len();
        assert(hay =~= hay.take(i) + hay.subrange(i, k) + hay.skip(k));
        (hay.take(i), hay.skip(k))
    } else {
        (Seq::empty(), Seq::empty())
    }
}

/// Splitting two texts with a separator between them is splitting each.
pub proof fn splitting_goes_piece_by_piece(a: Seq<char>, b: Seq<char>, sep: char)
    ensures
        split(a + seq![sep] + b, sep) == split(a, sep) + split(b, sep),
        !a.contains(sep) ==> split(a, sep) == seq![a],
    decreases a.len(),
{
    let all = a + seq![sep] + b;
    lemma_first_index_is(a, sep);
    let k = first_index(a, sep);
    if k < a.len() {
        lemma_first_index(all, sep, k);
        let rest = a.skip(k + 1);
        splitting_goes_piece_by_piece(rest, b, sep);
        assert(all.take(k) =~= a.take(k));
        assert(all.skip(k + 1) =~= rest + seq![sep] + b);
        assert(split(all, sep) =~= split(a, sep) + split(b, sep));
        assert(a[k] == sep);
    } else {
        lemma_first_index(all, sep, a.len() as int);
        assert(all.take(a.len() as int) =~= a);
        assert(all.skip(a.len() as int + 1) =~= b);
        assert(split(all, sep) =~= split(a, sep) + split(b, sep));
    }
}

/// A whole number below zero is written as its opposite with a minus in front, and any
/// other as it is.
pub proof fn signs_stand_in_front(n: nat)
    ensures
        decimal_int(n as int) == decimal(n),
        n > 0 ==> decimal_int(-(n as int)) == seq!['-'] + decimal(n),
{
}

/// White space is tabs, line ends and blanks of all widths: these characters and no other.
pub proof fn white_space_is_these_characters(c: char)
    ensures
        whitespace(c) <==> seq![
            0x09u32,
            0x0a,
            0x0b,
            0x0c,
            0x0d,
            0x20,
            0x85,
            0xa0,
            0x1680,
            0x2000,
            0x2001,
            0x2002,
            0x2003,
            0x2004,
            0x2005,
            0x2006,
            0x2007,
            0x2008,
            0x2009,
            0x200a,
            0x2028,
            0x2029,
            0x202f,
            0x205f,
            0x3000,
        ].contains(c as u32),
{
    let all = seq![
        0x09u32,
        0x0a,
        0x0b,
        0x0c,
        0x0d,
        0x20,
        0x85,
        0xa0,
        0x1680,
        0x2000,
        0x2001,
        0x2002,
        0x2003,
        0x2004,
        0x2005,
        0x2006,
        0x2007,
        0x2008,
        0x2009,
        0x200a,
        0x2028,
        0x2029,
        0x202f,
        0x205f,
        0x3000,
    ];
    let code = c as u32;
    if all.contains(code) {
        let k = choose|k: int| 0 <= k < all.len() && all[k] == code;
        assert(0 <= k < 25);
    }
    if whitespace(c) {
        if code <= 0x0d {
            assert(all[code - 9] == code);
        } else if 0x2000 <= code <= 0x200a {
            assert(all[code - 0x2000 + 9] == code);
        } else {
            assert(all[5] == 0x20 && all[6] == 0x85 && all[7] == 0xa0 && all[8] == 0x1680 && all[20]
                == 0x2028 && all[21] == 0x2029 && all[22] == 0x202f && all[23] == 0x205f && all[24]
                == 0x3000);
        }
    }
}

} // verus!
