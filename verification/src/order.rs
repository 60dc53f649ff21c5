//! Lexicographic keys and the stable order they put a list in.
use vstd::prelude::*;

use crate::text;
use crate::text::chars_eq;

verus! {

/// Lexicographic order of texts by the code points of their characters.
pub open spec fn text_lt(a: Seq<char>, b: Seq<char>) -> bool
    decreases a.len(),
{
    if b.len() == 0 {
        false
    } else if a.len() == 0 {
        true
    } else if a[0] != b[0] {
        a[0] < b[0]
    } else {
        text_lt(a.drop_first(), b.drop_first())
    }
}

/// Lexicographic order of lists of texts.
pub open spec fn words_lt(a: Seq<Seq<char>>, b: Seq<Seq<char>>) -> bool
    decreases a.len(),
{
    if b.len() == 0 {
        false
    } else if a.len() == 0 {
        true
    } else if a[0] != b[0] {
        text_lt(a[0], b[0])
    } else {
        words_lt(a.drop_first(), b.drop_first())
    }
}

pub proof fn lemma_text_lt_asym(a: Seq<char>, b: Seq<char>)
    ensures
        !(text_lt(a, b) && text_lt(b, a)),
    decreases a.len(),
{
    if a.len() > 0 && b.len() > 0 && a[0] == b[0] {
        lemma_text_lt_asym(a.drop_first(), b.drop_first());
    }
}

pub proof fn lemma_text_lt_total(a: Seq<char>, b: Seq<char>)
    ensures
        a != b ==> text_lt(a, b) || text_lt(b, a),
    decreases a.len(),
{
    if a.len() > 0 && b.len() > 0 && a[0] == b[0] {
        let x = a.drop_first();
        let y = b.drop_first();
        lemma_text_lt_total(x, y);
        if x == y {
            assert(x.len() == a.len() - 1);
            assert(y.len() == b.len() - 1);
            assert forall|i: int| 0 <= i < a.len() implies a[i] == b[i] by {
                if i > 0 {
                    assert(a[i] == x[i - 1]);
                    assert(b[i] == y[i - 1]);
                }
            }
            assert(a =~= b);
        }
    } else if a.len() == 0 && b.len() == 0 {
        assert(a =~= b);
    }
}

pub proof fn lemma_text_lt_trans(a: Seq<char>, b: Seq<char>, c: Seq<char>)
    requires
        text_lt(a, b),
        text_lt(b, c),
    ensures
        text_lt(a, c),
    decreases a.len(),
{
    if a.len() > 0 && b.len() > 0 && c.len() > 0 && a[0] == b[0] && b[0] == c[0] {
        lemma_text_lt_trans(a.drop_first(), b.drop_first(), c.drop_first());
    }
}

pub proof fn lemma_words_lt_asym(a: Seq<Seq<char>>, b: Seq<Seq<char>>)
    ensures
        !(words_lt(a, b) && words_lt(b, a)),
    decreases a.len(),
{
    if a.len() > 0 && b.len() > 0 {
        if a[0] == b[0] {
            lemma_words_lt_asym(a.drop_first(), b.drop_first());
        } else {
            lemma_text_lt_asym(a[0], b[0]);
        }
    }
}

pub proof fn lemma_words_lt_total(a: Seq<Seq<char>>, b: Seq<Seq<char>>)
    ensures
        a != b ==> words_lt(a, b) || words_lt(b, a),
    decreases a.len(),
{
    if a.len() > 0 && b.len() > 0 {
        if a[0] == b[0] {
            lemma_words_lt_total(a.drop_first(), b.drop_first());
            if a.drop_first() == b.drop_first() {
                assert(a =~= seq![a[0]] + a.drop_first());
                assert(b =~= seq![b[0]] + b.drop_first());
            }
        } else {
            lemma_text_lt_total(a[0], b[0]);
        }
    } else if a.len() == 0 && b.len() == 0 {
        assert(a =~= b);
    }
}

pub proof fn lemma_words_lt_trans(a: Seq<Seq<char>>, b: Seq<Seq<char>>, c: Seq<Seq<char>>)
    requires
        words_lt(a, b),
        words_lt(b, c),
    ensures
        words_lt(a, c),
    decreases a.len(),
{
    if a.len() > 0 && b.len() > 0 && c.len() > 0 {
        if a[0] == b[0] && b[0] == c[0] {
            lemma_words_lt_trans(a.drop_first(), b.drop_first(), c.drop_first());
        } else if a[0] != b[0] && b[0] != c[0] {
            lemma_text_lt_trans(a[0], b[0], c[0]);
            lemma_text_lt_asym(a[0], b[0]);
        }
    }
}

/// Whether one text comes before another.
pub fn text_less(a: &[char], b: &[char]) -> (r: bool)
    ensures
        r == text_lt(a@, b@),
{
    let mut i: usize = 0;
    assert(a@.skip(0) =~= a@ && b@.skip(0) =~= b@);
    while i < a.len() && i < b.len()
        invariant
            i <= a@.len(),
            i <= b@.len(),
            text_lt(a@, b@) == text_lt(a@.skip(i as int), b@.skip(i as int)),
        decreases a@.len() - i,
    {
        if a[i] != b[i] {
            return a[i] < b[i];
        }
        proof {
            assert(a@.skip(i as int).drop_first() =~= a@.skip(i + 1));
            assert(b@.skip(i as int).drop_first() =~= b@.skip(i + 1));
        }
        i += 1;
    }
    i < b.len()
}

/// Whether one list of texts comes before another.
pub fn words_less(a: &[Vec<char>], b: &[Vec<char>]) -> (r: bool)
    ensures
        r == words_lt(text::texts(a@), text::texts(b@)),
{
    let ghost x = text::texts(a@);
    let ghost y = text::texts(b@);
    let mut i: usize = 0;
    assert(x.skip(0) =~= x && y.skip(0) =~= y);
    while i < a.len() && i < b.len()
        invariant
            x == text::texts(a@),
            y == text::texts(b@),
            i <= a@.len(),
            i <= b@.len(),
            words_lt(x, y) == words_lt(x.skip(i as int), y.skip(i as int)),
        decreases a@.len() - i,
    {
        assert(x.skip(i as int)[0] == a@[i as int]@);
        assert(y.skip(i as int)[0] == b@[i as int]@);
        if !chars_eq(a[i].as_slice(), b[i].as_slice()) {
            return text_less(a[i].as_slice(), b[i].as_slice());
        }
        proof {
            assert(x.skip(i as int).drop_first() =~= x.skip(i + 1));
            assert(y.skip(i as int).drop_first() =~= y.skip(i + 1));
        }
        i += 1;
    }
    i < b.len()
}

/// What a list is sorted by: a text, then four numbers, then a list of texts,
/// each deciding only where everything before it is equal.
pub struct SortKey {
    pub lead: Vec<char>,
    pub first: i128,
    pub second: i128,
    pub third: i128,
    pub fourth: i128,
    pub words: Vec<Vec<char>>,
}

/// A sort key as mathematical values.
#[verifier::ext_equal]
pub struct Key {
    pub lead: Seq<char>,
    pub first: int,
    pub second: int,
    pub third: int,
    pub fourth: int,
    pub words: Seq<Seq<char>>,
}

impl View for SortKey {
    type V = Key;

    open spec fn view(&self) -> Key {
        Key {
            lead: self.lead@,
            first: self.first as int,
            second: self.second as int,
            third: self.third as int,
            fourth: self.fourth as int,
            words: text::texts(self.words@),
        }
    }
}

/// A key that is the same for everything.
pub open spec fn no_key() -> Key {
    Key {
        lead: Seq::empty(),
        first: 0,
        second: 0,
        third: 0,
        fourth: 0,
        words: Seq::empty(),
    }
}

/// The order of keys.
pub open spec fn key_lt(a: Key, b: Key) -> bool {
    if a.lead != b.lead {
        text_lt(a.lead, b.lead)
    } else if a.first != b.first {
        a.first < b.first
    } else if a.second != b.second {
        a.second < b.second
    } else if a.third != b.third {
        a.third < b.third
    } else if a.fourth != b.fourth {
        a.fourth < b.fourth
    } else {
        words_lt(a.words, b.words)
    }
}

/// The order of keys is a strict total order.
pub proof fn lemma_key_order(a: Key, b: Key, c: Key)
    ensures
        !key_lt(a, a),
        !(key_lt(a, b) && key_lt(b, a)),
        a != b ==> key_lt(a, b) || key_lt(b, a),
        key_lt(a, b) && key_lt(b, c) ==> key_lt(a, c),
{
    lemma_words_lt_asym(a.words, a.words);
    lemma_words_lt_asym(a.words, b.words);
    lemma_words_lt_total(a.words, b.words);
    lemma_text_lt_asym(a.lead, b.lead);
    lemma_text_lt_asym(b.lead, c.lead);
    lemma_text_lt_total(a.lead, b.lead);
    if a != b {
        if a.lead == b.lead && a.first == b.first && a.second == b.second && a.third == b.third
            && a.fourth == b.fourth {
            assert(a.words != b.words);
        }
    }
    if words_lt(a.words, b.words) && words_lt(b.words, c.words) {
        lemma_words_lt_trans(a.words, b.words, c.words);
    }
    if text_lt(a.lead, b.lead) && text_lt(b.lead, c.lead) {
        lemma_text_lt_trans(a.lead, b.lead, c.lead);
        lemma_text_lt_asym(a.lead, c.lead);
    }
}

/// Whether one key comes before another.
pub fn key_less(a: &SortKey, b: &SortKey) -> (r: bool)
    ensures
        r == key_lt(a@, b@),
{
    if !chars_eq(a.lead.as_slice(), b.lead.as_slice()) {
        text_less(a.lead.as_slice(), b.lead.as_slice())
    } else if a.first != b.first {
        a.first < b.first
    } else if a.second != b.second {
        a.second < b.second
    } else if a.third != b.third {
        a.third < b.third
    } else if a.fourth != b.fourth {
        a.fourth < b.fourth
    } else {
        words_less(a.words.as_slice(), b.words.as_slice())
    }
}

/// The position of the first of the least keys.
pub open spec fn least(keys: Seq<Key>) -> int
    decreases keys.len(),
{
    if keys.len() <= 1 {
        0
    } else {
        let best = least(keys.drop_last());
        if key_lt(keys.last(), keys[best]) {
            keys.len() - 1
        } else {
            best
        }
    }
}

/// No key comes before the least one, and none before it in the list is as small.
pub proof fn lemma_least(keys: Seq<Key>)
    requires
        keys.len() > 0,
    ensures
        0 <= least(keys) < keys.len(),
        forall|i: int| 0 <= i < keys.len() ==> !key_lt(#[trigger] keys[i], keys[least(keys)]),
        forall|i: int| 0 <= i < least(keys) ==> key_lt(keys[least(keys)], #[trigger] keys[i]),
    decreases keys.len(),
{
    let m = least(keys);
    if keys.len() == 1 {
        lemma_key_order(keys[0], keys[0], keys[0]);
    } else {
        let rest = keys.drop_last();
        lemma_least(rest);
        let best = least(rest);
        assert forall|i: int| 0 <= i < keys.len() implies !key_lt(#[trigger] keys[i], keys[m]) by {
            lemma_key_order(keys[m], keys[m], keys[m]);
            if i < rest.len() {
                assert(rest[i] == keys[i]);
                assert(!key_lt(rest[i], rest[best]));
                lemma_key_order(keys[i], keys[m], keys[best]);
                lemma_key_order(keys[best], keys[i], keys[m]);
            }
        }
        assert forall|i: int| 0 <= i < m implies key_lt(keys[m], #[trigger] keys[i]) by {
            assert(rest[i] == keys[i]);
            if m == keys.len() - 1 {
                assert(!key_lt(rest[i], rest[best]));
                lemma_key_order(keys[i], keys[best], keys[m]);
                lemma_key_order(keys[m], keys[best], keys[i]);
            }
        }
    }
}

/// Which key is least does not depend on the order they are listed in.
pub proof fn least_ignores_order(a: Seq<Key>, b: Seq<Key>)
    requires
        a.len() > 0,
        b.len() > 0,
        forall|i: int| 0 <= i < a.len() ==> b.contains(#[trigger] a[i]),
        forall|i: int| 0 <= i < b.len() ==> a.contains(#[trigger] b[i]),
    ensures
        a[least(a)] == b[least(b)],
{
    lemma_least(a);
    lemma_least(b);
    let x = a[least(a)];
    let y = b[least(b)];
    assert(b.contains(x));
    assert(a.contains(y));
    lemma_key_order(x, y, x);
}

/// The position of the first of the least keys.
pub fn least_of(keys: &[SortKey]) -> (r: usize)
    requires
        keys@.len() > 0,
    ensures
        r == least(keys_of(keys@)),
        r < keys@.len(),
{
    let ghost ks = keys_of(keys@);
    let mut best: usize = 0;
    let mut i: usize = 1;
    assert(ks.take(1).len() == 1);
    while i < keys.len()
        invariant
            ks == keys_of(keys@),
            1 <= i <= keys@.len(),
            best < i,
            best == least(ks.take(i as int)),
        decreases keys@.len() - i,
    {
        assert(ks.take(i + 1).drop_last() =~= ks.take(i as int));
        if key_less(&keys[i], &keys[best]) {
            best = i;
        }
        i += 1;
    }
    assert(ks.take(i as int) =~= ks);
    best
}

/// Sort keys as mathematical values.
pub open spec fn keys_of(keys: Seq<SortKey>) -> Seq<Key> {
    keys.map_values(|k: SortKey| k@)
}

/// Whether position `i` of a list comes before position `j` once the list is
/// sorted: by key, and where the keys are equal as it was.
pub open spec fn before(keys: Seq<Key>, i: int, j: int) -> bool {
    key_lt(keys[i], keys[j]) || (!key_lt(keys[j], keys[i]) && i < j)
}

/// Whether `p` lists the positions `lo..hi` in the order the keys put them in.
pub open spec fn in_order(keys: Seq<Key>, p: Seq<int>, lo: int, hi: int) -> bool {
    &&& p.len() == hi - lo
    &&& forall|a: int| 0 <= a < p.len() ==> lo <= #[trigger] p[a] < hi
    &&& forall|i: int| lo <= i < hi ==> #[trigger] p.contains(i)
    &&& forall|a: int, b: int| 0 <= a < b < p.len() ==> before(keys, #[trigger] p[a], #[trigger] p[b])
}

/// The positions of a list in the order that stable sorting puts them in.
pub open spec fn stable_order(keys: Seq<Key>) -> Seq<int> {
    choose|p: Seq<int>| in_order(keys, p, 0, keys.len() as int)
}

proof fn lemma_before(keys: Seq<Key>, i: int, j: int, k: int)
    ensures
        !before(keys, i, i),
        !(before(keys, i, j) && before(keys, j, i)),
        i != j ==> before(keys, i, j) || before(keys, j, i),
        before(keys, i, j) && before(keys, j, k) ==> before(keys, i, k),
{
    lemma_key_order(keys[i], keys[j], keys[k]);
    lemma_key_order(keys[j], keys[k], keys[i]);
    lemma_key_order(keys[k], keys[i], keys[j]);
    lemma_key_order(keys[i], keys[k], keys[j]);
}

/// There is only one way to list positions in order.
pub proof fn lemma_order_unique(keys: Seq<Key>, p: Seq<int>, q: Seq<int>, lo: int, hi: int)
    requires
        in_order(keys, p, lo, hi),
        in_order(keys, q, lo, hi),
    ensures
        p == q,
{
    lemma_order_unique_upto(keys, p, q, lo, hi, p.len() as int);
    assert(p =~= q);
}

proof fn lemma_order_unique_upto(keys: Seq<Key>, p: Seq<int>, q: Seq<int>, lo: int, hi: int, n: int)
    requires
        in_order(keys, p, lo, hi),
        in_order(keys, q, lo, hi),
        0 <= n <= p.len(),
    ensures
        forall|a: int| 0 <= a < n ==> p[a] == q[a],
    decreases n,
{
    if n > 0 {
        let k = n - 1;
        lemma_order_unique_upto(keys, p, q, lo, hi, k);
        assert(q.contains(p[k]));
        assert(p.contains(q[k]));
        let j = choose|j: int| 0 <= j < q.len() && q[j] == p[k];
        let i = choose|i: int| 0 <= i < p.len() && p[i] == q[k];
        lemma_before(keys, p[k], p[k], p[k]);
        lemma_before(keys, q[k], q[k], q[k]);
        if j < k {
            assert(p[j] == p[k]);
            assert(false);
        }
        if i < k {
            assert(q[i] == q[k]);
            assert(false);
        }
        if j > k {
            assert(before(keys, q[k], q[j]));
            assert(i != k);
            assert(before(keys, p[k], p[i]));
            lemma_before(keys, p[k], q[k], p[k]);
            assert(false);
        }
    }
}

/// Every list can be put in order: stable sorting lists each position once, by
/// key and where the keys are equal as it was.
pub proof fn stable_order_is_in_order(keys: Seq<Key>)
    ensures
        in_order(keys, stable_order(keys), 0, keys.len() as int),
{
    lemma_order_exists(keys, keys.len() as int);
}

proof fn lemma_order_exists(keys: Seq<Key>, n: int) -> (p: Seq<int>)
    requires
        0 <= n <= keys.len(),
    ensures
        in_order(keys, p, 0, n),
    decreases n,
{
    if n == 0 {
        Seq::empty()
    } else {
        let q = lemma_order_exists(keys, n - 1);
        let k = lemma_insertion_point(keys, q, n - 1, q.len() as int);
        let p = q.insert(k, n - 1);
        assert forall|a: int| 0 <= a < p.len() implies 0 <= #[trigger] p[a] < n by {
            if a < k {
                assert(p[a] == q[a]);
            } else if a > k {
                assert(p[a] == q[a - 1]);
            }
        }
        assert forall|i: int| 0 <= i < n implies #[trigger] p.contains(i) by {
            if i == n - 1 {
                assert(p[k] == i);
            } else {
                assert(q.contains(i));
                let a = choose|a: int| 0 <= a < q.len() && q[a] == i;
                assert(p[if a < k {
                    a
                } else {
                    a + 1
                }] == i);
            }
        }
        assert forall|a: int, b: int| 0 <= a < b < p.len() implies before(
            keys,
            #[trigger] p[a],
            #[trigger] p[b],
        ) by {
            let qa = if a < k {
                a
            } else {
                a - 1
            };
            let qb = if b < k {
                b
            } else {
                b - 1
            };
            if a != k && b != k {
                assert(p[a] == q[qa] && p[b] == q[qb]);
            } else if b == k {
                assert(p[a] == q[a]);
            } else {
                assert(p[b] == q[b - 1]);
            }
        }
        p
    }
}

proof fn lemma_insertion_point(keys: Seq<Key>, q: Seq<int>, x: int, m: int) -> (k: int)
    requires
        0 <= m <= q.len(),
        forall|a: int, b: int| 0 <= a < b < q.len() ==> before(keys, #[trigger] q[a], #[trigger] q[b]),
        forall|a: int| 0 <= a < q.len() ==> #[trigger] q[a] != x,
    ensures
        0 <= k <= m,
        forall|a: int| 0 <= a < k ==> before(keys, #[trigger] q[a], x),
        forall|a: int| k <= a < m ==> before(keys, x, #[trigger] q[a]),
    decreases m,
{
    if m == 0 {
        0
    } else {
        lemma_before(keys, q[m - 1], x, x);
        if before(keys, q[m - 1], x) {
            assert forall|a: int| 0 <= a < m implies before(keys, #[trigger] q[a], x) by {
                if a < m - 1 {
                    lemma_before(keys, q[a], q[m - 1], x);
                }
            }
            m
        } else {
            lemma_insertion_point(keys, q, x, m - 1)
        }
    }
}

/// Listed positions as mathematical integers.
pub open spec fn positions(v: Seq<usize>) -> Seq<int> {
    v.map_values(|i: usize| i as int)
}

/// Merges two runs of positions that are each in order.
fn merge(keys: &[SortKey], left: &[usize], right: &[usize], Ghost(lo): Ghost<int>, Ghost(mid): Ghost<int>, Ghost(hi): Ghost<int>) -> (r: Vec<usize>)
    requires
        0 <= lo <= mid <= hi <= keys@.len(),
        in_order(keys_of(keys@), positions(left@), lo, mid),
        in_order(keys_of(keys@), positions(right@), mid, hi),
    ensures
        in_order(keys_of(keys@), positions(r@), lo, hi),
{
    let ghost ks = keys_of(keys@);
    let ghost a = positions(left@);
    let ghost b = positions(right@);
    let mut out: Vec<usize> = Vec::new();
    let mut i: usize = 0;
    let mut j: usize = 0;
    let n: usize = left.len();
    let m: usize = right.len();
    while i < n || j < m
        invariant
            ks == keys_of(keys@),
            a == positions(left@),
            b == positions(right@),
            0 <= lo <= mid <= hi <= keys@.len(),
            in_order(ks, a, lo, mid),
            in_order(ks, b, mid, hi),
            n == left@.len(),
            m == right@.len(),
            i <= n,
            j <= m,
            out@.len() == i + j,
            forall|x: int| 0 <= x < out@.len() ==> lo <= #[trigger] out@[x] < hi,
            forall|x: int| 0 <= x < i ==> positions(out@).contains(#[trigger] a[x]),
            forall|x: int| 0 <= x < j ==> positions(out@).contains(#[trigger] b[x]),
            forall|x: int, y: int|
                0 <= x < y < out@.len() ==> before(ks, #[trigger] out@[x] as int, #[trigger] out@[y] as int),
            i < n ==> forall|x: int| 0 <= x < out@.len() ==> before(ks, #[trigger] out@[x] as int, a[i as int]),
            j < m ==> forall|x: int| 0 <= x < out@.len() ==> before(ks, #[trigger] out@[x] as int, b[j as int]),
        decreases n - i + m - j,
    {
        let take_left: bool = if i >= n {
            false
        } else if j >= m {
            true
        } else {
            assert(a[i as int] == left@[i as int]);
            assert(b[j as int] == right@[j as int]);
            !key_less(&keys[right[j]], &keys[left[i]])
        };
        let ghost prev = out@;
        if take_left {
            assert(a[i as int] == left@[i as int]);
            out.push(left[i]);
            proof {
                if j < m {
                    assert(before(ks, a[i as int], b[j as int]));
                }
                if i + 1 < n {
                    assert(before(ks, a[i as int], a[i + 1]));
                    assert forall|x: int| 0 <= x < out@.len() implies before(
                        ks,
                        #[trigger] out@[x] as int,
                        a[i + 1],
                    ) by {
                        if x < prev.len() {
                            lemma_before(ks, prev[x] as int, a[i as int], a[i + 1]);
                        }
                    }
                }
            }
            i += 1;
        } else {
            assert(b[j as int] == right@[j as int]);
            out.push(right[j]);
            proof {
                if i < n {
                    lemma_before(ks, a[i as int], b[j as int], a[i as int]);
                    assert(before(ks, b[j as int], a[i as int]));
                }
                if j + 1 < m {
                    assert(before(ks, b[j as int], b[j + 1]));
                    assert forall|x: int| 0 <= x < out@.len() implies before(
                        ks,
                        #[trigger] out@[x] as int,
                        b[j + 1],
                    ) by {
                        if x < prev.len() {
                            lemma_before(ks, prev[x] as int, b[j as int], b[j + 1]);
                        }
                    }
                }
            }
            j += 1;
        }
        proof {
            let o = positions(out@);
            let pr = positions(prev);
            assert(o[out@.len() - 1] == out@[out@.len() - 1] as int);
            assert forall|v: int| pr.contains(v) implies o.contains(v) by {
                let x = choose|x: int| 0 <= x < pr.len() && pr[x] == v;
                assert(o[x] == v);
            }
        }
    }
    proof {
        let o = positions(out@);
        assert forall|v: int| lo <= v < hi implies #[trigger] o.contains(v) by {
            if v < mid {
                assert(a.contains(v));
            } else {
                assert(b.contains(v));
            }
        }
        assert forall|x: int, y: int| 0 <= x < y < o.len() implies before(
            ks,
            #[trigger] o[x],
            #[trigger] o[y],
        ) by {
            assert(o[x] == out@[x] as int && o[y] == out@[y] as int);
        }
    }
    out
}

fn sort_range(keys: &[SortKey], lo: usize, hi: usize) -> (r: Vec<usize>)
    requires
        lo <= hi <= keys@.len(),
    ensures
        in_order(keys_of(keys@), positions(r@), lo as int, hi as int),
    decreases hi - lo,
{
    let mut out: Vec<usize> = Vec::new();
    if hi - lo == 0 {
        return out;
    }
    if hi - lo == 1 {
        out.push(lo);
        assert(positions(out@)[0] == lo);
        return out;
    }
    let mid: usize = lo + (hi - lo) / 2;
    let left: Vec<usize> = sort_range(keys, lo, mid);
    let right: Vec<usize> = sort_range(keys, mid, hi);
    merge(keys, left.as_slice(), right.as_slice(), Ghost(lo as int), Ghost(mid as int), Ghost(hi as int))
}

/// The positions of a list in the order that stable sorting by its keys puts
/// them in.
pub fn sorted_order(keys: &[SortKey]) -> (r: Vec<usize>)
    ensures
        positions(r@) == stable_order(keys_of(keys@)),
        in_order(keys_of(keys@), stable_order(keys_of(keys@)), 0, keys@.len() as int),
        r@.len() == keys@.len(),
        forall|i: int| 0 <= i < r@.len() ==> (#[trigger] r@[i]) < keys@.len(),
{
    let r: Vec<usize> = sort_range(keys, 0, keys.len());
    proof {
        let ks = keys_of(keys@);
        let p = positions(r@);
        assert(in_order(ks, p, 0, ks.len() as int));
        lemma_order_unique(ks, p, stable_order(ks), 0, ks.len() as int);
        assert forall|i: int| 0 <= i < r@.len() implies (#[trigger] r@[i]) < keys@.len() by {
            assert(p[i] == r@[i] as int);
        }
    }
    r
}

/// A list in the order that stable sorting by some keys, one for each item, puts
/// it in.
pub open spec fn rearranged<A>(items: Seq<A>, keys: Seq<Key>) -> Seq<A> {
    stable_order(keys).map_values(|k: int| items[k])
}

/// Sorts a list of numbers by keys, one for each.
pub fn rearrange(items: &[usize], keys: &[SortKey]) -> (r: Vec<usize>)
    requires
        items@.len() == keys@.len(),
    ensures
        r@ == rearranged(items@, keys_of(keys@)),
        r@.len() == items@.len(),
{
    let sorted: Vec<usize> = sorted_order(keys);
    let mut out: Vec<usize> = Vec::new();
    let mut k: usize = 0;
    while k < sorted.len()
        invariant
            items@.len() == keys@.len(),
            positions(sorted@) == stable_order(keys_of(keys@)),
            forall|i: int| 0 <= i < sorted@.len() ==> (#[trigger] sorted@[i]) < keys@.len(),
            k <= sorted@.len(),
            out@.len() == k,
            forall|i: int|
                0 <= i < k ==> #[trigger] out@[i] == rearranged(items@, keys_of(keys@))[i],
        decreases sorted@.len() - k,
    {
        assert(positions(sorted@)[k as int] == sorted@[k as int]);
        out.push(items[sorted[k]]);
        k += 1;
    }
    assert(positions(sorted@).len() == sorted@.len());
    assert(out@ =~= rearranged(items@, keys_of(keys@)));
    out
}

/// Sorting neither loses an item nor makes one up.
pub proof fn rearranging_keeps_every_item<A>(items: Seq<A>, keys: Seq<Key>)
    requires
        items.len() == keys.len(),
    ensures
        rearranged(items, keys).to_multiset() == items.to_multiset(),
{
    stable_order_is_in_order(keys);
    let p = stable_order(keys);
    assert forall|a: int, b: int| 0 <= a < p.len() && 0 <= b < p.len() && a != b implies p[a]
        != p[b] by {
        lemma_before(keys, p[a], p[a], p[a]);
        if a < b {
            assert(before(keys, p[a], p[b]));
        } else {
            assert(before(keys, p[b], p[a]));
        }
    }
    lemma_picks_keep_items(items, p);
}

proof fn lemma_picks_keep_items<A>(items: Seq<A>, p: Seq<int>)
    requires
        p.len() == items.len(),
        p.no_duplicates(),
        forall|i: int| 0 <= i < items.len() ==> #[trigger] p.contains(i),
        forall|a: int| 0 <= a < p.len() ==> 0 <= #[trigger] p[a] < items.len(),
    ensures
        p.map_values(|k: int| items[k]).to_multiset() == items.to_multiset(),
    decreases items.len(),
{
    broadcast use vstd::seq_lib::group_to_multiset_ensures;

    let q = p.map_values(|k: int| items[k]);
    if items.len() == 0 {
        assert(q =~= items);
    } else {
        let last = items.len() - 1;
        assert(p.contains(last));
        let k = choose|k: int| 0 <= k < p.len() && p[k] == last;
        let rest = p.remove(k);
        let fewer = items.drop_last();
        assert forall|i: int| 0 <= i < fewer.len() implies #[trigger] rest.contains(i) by {
            assert(p.contains(i));
            let m = choose|m: int| 0 <= m < p.len() && p[m] == i;
            if m < k {
                assert(rest[m] == i);
            } else {
                assert(rest[m - 1] == i);
            }
        }
        assert forall|a: int| 0 <= a < rest.len() implies 0 <= #[trigger] rest[a] < fewer.len() by {
            let m = if a < k {
                a
            } else {
                a + 1
            };
            assert(rest[a] == p[m]);
            assert(m != k);
        }
        lemma_picks_keep_items(fewer, rest);
        assert(q.remove(k) =~= rest.map_values(|k: int| fewer[k]));
        assert(q[k] == items[last]);
        assert(items =~= fewer.push(items[last]));
        assert(q.to_multiset().count(items[last]) > 0) by {
            assert(q.contains(items[last]));
        }
        assert(q.to_multiset() =~= q.remove(k).to_multiset().insert(items[last]));
    }
}

/// Texts are ordered as in a dictionary: where two are alike up to some place, the one
/// that ends there, or has the lesser character there, comes first.
pub proof fn texts_go_by_their_first_difference(a: Seq<char>, b: Seq<char>, k: int)
    requires
        0 <= k <= a.len(),
        k < b.len(),
        forall|i: int| 0 <= i < k ==> #[trigger] a[i] == b[i],
        k < a.len() ==> a[k] < b[k],
    ensures
        text_lt(a, b),
        !text_lt(b, a),
    decreases k,
{
    if k > 0 {
        let s = a.drop_first();
        let t = b.drop_first();
        assert(a[0] == b[0]);
        assert forall|i: int| 0 <= i < k - 1 implies #[trigger] s[i] == t[i] by {
            assert(s[i] == a[i + 1]);
        }
        texts_go_by_their_first_difference(s, t, k - 1);
    }
}

/// Paths are ordered component by component: where two are alike up to some component,
/// the one that ends there, or has the lesser component there, comes first.
pub proof fn words_go_by_their_first_difference(a: Seq<Seq<char>>, b: Seq<Seq<char>>, k: int)
    requires
        0 <= k <= a.len(),
        k < b.len(),
        forall|i: int| 0 <= i < k ==> #[trigger] a[i] == b[i],
        k < a.len() ==> text_lt(a[k], b[k]),
    ensures
        words_lt(a, b),
        !words_lt(b, a),
    decreases k,
{
    if k > 0 {
        let s = a.drop_first();
        let t = b.drop_first();
        assert(a[0] == b[0]);
        assert forall|i: int| 0 <= i < k - 1 implies #[trigger] s[i] == t[i] by {
            assert(s[i] == a[i + 1]);
        }
        words_go_by_their_first_difference(s, t, k - 1);
    } else if k < a.len() {
        lemma_text_lt_asym(a[0], b[0]);
        if a[0] == b[0] {
            lemma_text_lt_asym(a[0], a[0]);
        }
    }
}

/// A sorted list is the given one in another order: each item of the result is an item
/// of the list with its key, of two items the later has no lesser key, and items with
/// equal keys stay in the order they had.
pub proof fn sorting_goes_by_key<A>(items: Seq<A>, keys: Seq<Key>) -> (at: Seq<int>)
    requires
        items.len() == keys.len(),
    ensures
        at.len() == items.len(),
        rearranged(items, keys).len() == items.len(),
        forall|i: int|
            0 <= i < items.len() ==> 0 <= #[trigger] at[i] < items.len() && rearranged(
                items,
                keys,
            )[i] == items[at[i]],
        forall|i: int, j: int|
            0 <= i < j < items.len() ==> #[trigger] at[i] != #[trigger] at[j] && !key_lt(
                keys[at[j]],
                keys[at[i]],
            ),
        forall|i: int, j: int|
            0 <= i < j < items.len() && #[trigger] at[i] > #[trigger] at[j] ==> key_lt(
                keys[at[i]],
                keys[at[j]],
            ),
{
    stable_order_is_in_order(keys);
    let p = stable_order(keys);
    assert forall|i: int, j: int| 0 <= i < j < items.len() implies #[trigger] p[i]
        != #[trigger] p[j] && !key_lt(keys[p[j]], keys[p[i]]) by {
        assert(before(keys, p[i], p[j]));
        lemma_key_order(keys[p[i]], keys[p[j]], keys[p[i]]);
        lemma_before(keys, p[i], p[i], p[i]);
    }
    p
}

} // verus!
