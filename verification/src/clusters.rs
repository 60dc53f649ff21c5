//! Grouping positions of a list: by equality of keys, and by chains of pairs that
//! are close to one another.
use vstd::prelude::*;

use crate::order;
use crate::order::{sorted_order, SortKey};
use crate::union_find;
use crate::union_find::UnionFind;

verus! {

/// The first position in `lo..hi` of which `p` holds, or `hi`.
pub open spec fn first_where(p: spec_fn(int) -> bool, lo: int, hi: int) -> int
    decreases hi - lo,
{
    if lo >= hi {
        hi
    } else if p(lo) {
        lo
    } else {
        first_where(p, lo + 1, hi)
    }
}

/// What the first position of which something holds is.
pub proof fn lemma_first_where(p: spec_fn(int) -> bool, lo: int, hi: int, k: int)
    requires
        lo <= k <= hi,
        forall|i: int| lo <= i < k ==> !#[trigger] p(i),
        k < hi ==> p(k),
    ensures
        first_where(p, lo, hi) == k,
    decreases hi - lo,
{
    if lo < hi && lo < k {
        assert(!p(lo));
        lemma_first_where(p, lo + 1, hi, k);
    }
}

/// Whether each step of a walk goes from a position to one it is close to.
pub open spec fn is_walk(edge: spec_fn(int, int) -> bool, walk: Seq<int>) -> bool {
    &&& walk.len() > 0
    &&& forall|k: int| 0 <= k < walk.len() - 1 ==> edge(#[trigger] walk[k], walk[k + 1])
}

/// Whether a chain of close pairs leads from one position to another.
pub open spec fn linked(edge: spec_fn(int, int) -> bool, i: int, j: int) -> bool {
    exists|walk: Seq<int>| #[trigger] is_walk(edge, walk) && walk[0] == i && walk.last() == j
}

pub proof fn lemma_linked_to_itself(edge: spec_fn(int, int) -> bool, i: int)
    ensures
        linked(edge, i, i),
{
    let walk = seq![i];
    assert(is_walk(edge, walk));
    assert(walk[0] == i && walk.last() == i);
}

pub proof fn lemma_close_is_linked(edge: spec_fn(int, int) -> bool, i: int, j: int)
    requires
        edge(i, j),
    ensures
        linked(edge, i, j),
{
    let walk = seq![i, j];
    assert(is_walk(edge, walk));
    assert(walk[0] == i && walk.last() == j);
}

/// Chains can be joined.
pub proof fn lemma_linked_trans(edge: spec_fn(int, int) -> bool, i: int, j: int, k: int)
    requires
        linked(edge, i, j),
        linked(edge, j, k),
    ensures
        linked(edge, i, k),
{
    let p = choose|walk: Seq<int>| #[trigger]
        is_walk(edge, walk) && walk[0] == i && walk.last() == j;
    let q = choose|walk: Seq<int>| #[trigger]
        is_walk(edge, walk) && walk[0] == j && walk.last() == k;
    let w = p + q.drop_first();
    assert forall|n: int| 0 <= n < w.len() - 1 implies edge(#[trigger] w[n], w[n + 1]) by {
        if n < p.len() - 1 {
            assert(w[n] == p[n] && w[n + 1] == p[n + 1]);
        } else {
            let m = n - (p.len() - 1);
            assert(w[n] == q[m]);
            assert(w[n + 1] == q[m + 1]);
        }
    }
    assert(is_walk(edge, w));
    assert(w[0] == i);
    if q.len() == 1 {
        assert(w =~= p);
    } else {
        assert(w.last() == q.last());
    }
}

/// Chains can be walked backwards, if being close is mutual.
pub proof fn lemma_linked_sym(edge: spec_fn(int, int) -> bool, i: int, j: int)
    requires
        linked(edge, i, j),
        forall|a: int, b: int| #[trigger] edge(a, b) ==> edge(b, a),
    ensures
        linked(edge, j, i),
{
    let p = choose|walk: Seq<int>| #[trigger]
        is_walk(edge, walk) && walk[0] == i && walk.last() == j;
    let w = p.reverse();
    assert forall|n: int| 0 <= n < w.len() - 1 implies edge(#[trigger] w[n], w[n + 1]) by {
        let m = p.len() - 2 - n;
        assert(w[n] == p[m + 1] && w[n + 1] == p[m]);
        assert(edge(p[m], p[m + 1]));
    }
    assert(is_walk(edge, w));
    assert(w[0] == j && w.last() == i);
}

proof fn lemma_walk_stays(edge: spec_fn(int, int) -> bool, reps: Seq<int>, walk: Seq<int>)
    requires
        is_walk(edge, walk),
        forall|a: int, b: int| #[trigger] edge(a, b) ==> reps[a] == reps[b],
    ensures
        reps[walk[0]] == reps[walk.last()],
    decreases walk.len(),
{
    if walk.len() > 1 {
        let rest = walk.drop_last();
        assert forall|k: int| 0 <= k < rest.len() - 1 implies edge(#[trigger] rest[k], rest[k + 1]) by {
            assert(edge(walk[k], walk[k + 1]));
        }
        lemma_walk_stays(edge, reps, rest);
        assert(edge(walk[walk.len() - 2], walk[walk.len() - 1]));
    }
}

/// If close positions share a set, so do linked ones.
pub proof fn lemma_linked_share_a_set(
    edge: spec_fn(int, int) -> bool,
    reps: Seq<int>,
    i: int,
    j: int,
)
    requires
        linked(edge, i, j),
        forall|a: int, b: int| #[trigger] edge(a, b) ==> reps[a] == reps[b],
    ensures
        reps[i] == reps[j],
{
    let walk = choose|walk: Seq<int>| #[trigger]
        is_walk(edge, walk) && walk[0] == i && walk.last() == j;
    lemma_walk_stays(edge, reps, walk);
}

/// Whether all positions that share a set are linked.
pub open spec fn only_linked(edge: spec_fn(int, int) -> bool, reps: Seq<int>) -> bool {
    forall|x: int, y: int|
        0 <= x < reps.len() && 0 <= y < reps.len() && #[trigger] reps[x] == #[trigger] reps[y]
            ==> linked(edge, x, y)
}

/// Merging the sets of two close positions keeps sets linked.
pub proof fn lemma_merge_keeps_linked(
    edge: spec_fn(int, int) -> bool,
    reps: Seq<int>,
    a: int,
    b: int,
)
    requires
        union_find::is_partition(reps),
        only_linked(edge, reps),
        forall|x: int, y: int| #[trigger] edge(x, y) ==> edge(y, x),
        0 <= a < reps.len(),
        0 <= b < reps.len(),
        edge(a, b),
    ensures
        only_linked(edge, union_find::merged(reps, a, b)),
{
    let next = union_find::merged(reps, a, b);
    lemma_close_is_linked(edge, a, b);
    lemma_linked_sym(edge, a, b);
    assert forall|x: int, y: int|
        0 <= x < next.len() && 0 <= y < next.len() && #[trigger] next[x] == #[trigger] next[y] implies linked(
        edge,
        x,
        y,
    ) by {
        union_find::merging_joins_exactly_two_sets(reps, a, b, x, y);
        if reps[x] == reps[y] {
        } else if reps[x] == reps[a] {
            assert(reps[y] == reps[b]);
            lemma_linked_trans(edge, x, a, b);
            lemma_linked_trans(edge, x, b, y);
        } else {
            assert(reps[x] == reps[b] && reps[y] == reps[a]);
            lemma_linked_trans(edge, x, b, a);
            lemma_linked_trans(edge, x, a, y);
        }
    }
}

/// What each position is called: the first position linked to it.
pub open spec fn link_labels(edge: spec_fn(int, int) -> bool, n: nat) -> Seq<int> {
    Seq::new(n, |i: int| first_where(|j: int| linked(edge, j, i), 0, n as int))
}

/// The labels of a forest whose sets are exactly the linked positions.
pub(crate) fn labels_of_sets(
    sets: &mut UnionFind,
    Ghost(edge): Ghost<spec_fn(int, int) -> bool>,
) -> (r: Vec<usize>)
    requires
        old(sets).wf(),
        forall|x: int, y: int| #[trigger] edge(x, y) ==> edge(y, x),
        forall|x: int, y: int| #[trigger] edge(x, y) ==> old(sets)@[x] == old(sets)@[y],
        only_linked(edge, old(sets)@),
    ensures
        order::positions(r@) == link_labels(edge, old(sets)@.len()),
{
    let n: usize = sets.len();
    let ghost reps = sets@;
    proof {
        sets.lemma_wf();
    }
    let mut first: Vec<usize> = Vec::new();
    let mut i: usize = 0;
    while i < n
        invariant
            i <= n,
            first@.len() == i,
            forall|k: int| 0 <= k < i ==> #[trigger] first@[k] == n,
        decreases n - i,
    {
        first.push(n);
        i += 1;
    }
    let mut labels: Vec<usize> = Vec::new();
    let mut i: usize = 0;
    while i < n
        invariant
            sets.wf(),
            sets@ == reps,
            union_find::is_partition(reps),
            n == reps.len(),
            i <= n,
            first@.len() == n,
            labels@.len() == i,
            forall|x: int, y: int| #[trigger] edge(x, y) ==> edge(y, x),
            forall|x: int, y: int| #[trigger] edge(x, y) ==> reps[x] == reps[y],
            only_linked(edge, reps),
            forall|k: int|
                0 <= k < n ==> {
                    let f = #[trigger] first@[k];
                    &&& f == n || (f < i && reps[f as int] == k)
                    &&& forall|x: int| 0 <= x < i && x < f ==> #[trigger] reps[x] != k
                },
            forall|k: int| 0 <= k < i ==> #[trigger] labels@[k] == link_labels(edge, n as nat)[k],
        decreases n - i,
    {
        let root: usize = sets.find(i);
        if first[root] == n {
            first.set(root, i);
        }
        let label: usize = first[root];
        proof {
            let p = |j: int| linked(edge, j, i as int);
            assert forall|x: int| 0 <= x < label implies !#[trigger] p(x) by {
                if linked(edge, x, i as int) {
                    lemma_linked_share_a_set(edge, reps, x, i as int);
                    assert(reps[x] == root);
                }
            }
            assert(reps[label as int] == reps[i as int]);
            assert(p(label as int));
            lemma_first_where(p, 0, n as int, label as int);
        }
        labels.push(label);
        i += 1;
    }
    assert(order::positions(labels@) =~= link_labels(edge, n as nat));
    labels
}

/// What each position is called: the first position with the same key.
pub open spec fn key_labels(keys: Seq<order::Key>) -> Seq<int> {
    Seq::new(
        keys.len(),
        |i: int| first_where(|j: int| keys[j] == keys[i], 0, keys.len() as int),
    )
}

/// The first position with the same key, for each position.
pub fn labels_of_keys(keys: &[SortKey]) -> (r: Vec<usize>)
    ensures
        order::positions(r@) == key_labels(order::keys_of(keys@)),
{
    let ghost ks = order::keys_of(keys@);
    let n: usize = keys.len();
    let sorted: Vec<usize> = sorted_order(keys);
    let ghost p = order::stable_order(ks);
    let mut labels: Vec<usize> = Vec::new();
    let mut i: usize = 0;
    while i < n
        invariant
            i <= n,
            labels@.len() == i,
        decreases n - i,
    {
        labels.push(0);
        i += 1;
    }
    let mut k: usize = 0;
    while k < n
        invariant
            ks == order::keys_of(keys@),
            n == keys@.len(),
            p == order::positions(sorted@),
            order::in_order(ks, p, 0, n as int),
            labels@.len() == n,
            k <= n,
            forall|m: int|
                0 <= m < k ==> labels@[#[trigger] p[m]] == key_labels(ks)[p[m]],
        decreases n - k,
    {
        assert(p[k as int] == sorted@[k as int]);
        let at: usize = sorted[k];
        proof {
            if k > 0 {
                assert(p[k - 1] == sorted@[k - 1]);
            }
        }
        let label: usize = if k > 0 && !order::key_less(&keys[sorted[k - 1]], &keys[at]) {
            labels[sorted[k - 1]]
        } else {
            at
        };
        proof {
            lemma_label_of_sorted(ks, p, k as int);
        }
        labels.set(at, label);
        proof {
            assert forall|m: int| 0 <= m < k + 1 implies labels@[#[trigger] p[m]] == key_labels(
                ks,
            )[p[m]] by {
                if m < k {
                    assert(order::before(ks, p[m], p[k as int]));
                    order::lemma_key_order(ks[p[m]], ks[p[m]], ks[p[m]]);
                }
            }
        }
        k += 1;
    }
    proof {
        assert forall|i: int| 0 <= i < n implies #[trigger] labels@[i] == key_labels(ks)[i] by {
            assert(p.contains(i));
            let m = choose|m: int| 0 <= m < p.len() && p[m] == i;
            assert(labels@[p[m]] == key_labels(ks)[p[m]]);
        }
    }
    assert(order::positions(labels@) =~= key_labels(ks));
    labels
}

proof fn lemma_label_of_sorted(ks: Seq<order::Key>, p: Seq<int>, k: int)
    requires
        order::in_order(ks, p, 0, ks.len() as int),
        0 <= k < p.len(),
    ensures
        k > 0 && !order::key_lt(ks[p[k - 1]], ks[p[k]]) ==> key_labels(ks)[p[k]] == key_labels(
            ks,
        )[p[k - 1]],
        k > 0 && order::key_lt(ks[p[k - 1]], ks[p[k]]) ==> key_labels(ks)[p[k]] == p[k],
        k == 0 ==> key_labels(ks)[p[k]] == p[k],
{
    let at = p[k];
    let n = ks.len() as int;
    let same = |j: int| ks[j] == ks[at];
    if k > 0 {
        assert(order::before(ks, p[k - 1], p[k]));
        order::lemma_key_order(ks[p[k - 1]], ks[p[k]], ks[p[k - 1]]);
    }
    if k > 0 && !order::key_lt(ks[p[k - 1]], ks[at]) {
        let other = |j: int| ks[j] == ks[p[k - 1]];
        assert(ks[p[k - 1]] == ks[at]);
        assert(same =~= other);
    } else {
        assert forall|i: int| 0 <= i < at implies !#[trigger] same(i) by {
            assert(p.contains(i));
            let m = choose|m: int| 0 <= m < p.len() && p[m] == i;
            order::lemma_key_order(ks[at], ks[at], ks[at]);
            if m < k {
                if m < k - 1 {
                    assert(order::before(ks, p[m], p[k - 1]));
                    order::lemma_key_order(ks[p[m]], ks[p[k - 1]], ks[at]);
                    order::lemma_key_order(ks[p[k - 1]], ks[p[m]], ks[at]);
                }
            } else if m > k {
                assert(order::before(ks, p[k], p[m]));
                order::lemma_key_order(ks[at], ks[i], ks[at]);
            }
        }
        lemma_first_where(same, 0, n, at);
    }
}

/// Whether the key at a position is also at another.
pub open spec fn is_repeated(keys: Seq<order::Key>, i: int) -> bool {
    exists|j: int| 0 <= j < keys.len() && j != i && #[trigger] keys[j] == keys[i]
}

/// Whether `k` is found to be repeated when position `j` is looked at.
spec fn is_paired(labels: Seq<int>, k: int, j: int) -> bool {
    (k == j || k == labels[j]) && labels[j] != j
}

proof fn lemma_paired_is_repeated(ks: Seq<order::Key>, k: int)
    requires
        0 <= k < ks.len(),
    ensures
        is_repeated(ks, k) == exists|j: int| 0 <= j < ks.len() && is_paired(key_labels(ks), k, j),
{
    let ls = key_labels(ks);
    if exists|j: int| 0 <= j < ks.len() && is_paired(ls, k, j) {
        let j = choose|j: int| 0 <= j < ks.len() && is_paired(ls, k, j);
        lemma_key_label(ks, j);
        if k == j {
            assert(ks[ls[j]] == ks[k]);
        } else {
            assert(ks[j] == ks[k]);
        }
    }
    if is_repeated(ks, k) {
        let j = choose|j: int| 0 <= j < ks.len() && j != k && #[trigger] ks[j] == ks[k];
        lemma_key_label(ks, k);
        if ls[k] != k {
            assert(is_paired(ls, k, k));
        } else {
            lemma_key_label(ks, j);
            if ls[j] < k {
                assert(ks[ls[j]] == ks[k]);
            } else if ls[j] > k {
                assert(ks[k] != ks[j]);
            }
            assert(is_paired(ls, k, j));
        }
    }
}

/// Which keys are at more than one position.
pub fn repeated(keys: &[SortKey]) -> (r: Vec<bool>)
    ensures
        r@.len() == keys@.len(),
        forall|i: int|
            0 <= i < r@.len() ==> #[trigger] r@[i] == is_repeated(order::keys_of(keys@), i),
{
    let ghost ks = order::keys_of(keys@);
    let n: usize = keys.len();
    let labels: Vec<usize> = labels_of_keys(keys);
    let ghost ls = key_labels(ks);
    assert(order::positions(labels@).len() == n);
    let mut flags: Vec<bool> = Vec::new();
    let mut i: usize = 0;
    while i < n
        invariant
            i <= n,
            flags@.len() == i,
            forall|k: int| 0 <= k < i ==> !#[trigger] flags@[k],
        decreases n - i,
    {
        flags.push(false);
        i += 1;
    }
    let mut i: usize = 0;
    while i < n
        invariant
            n == keys@.len(),
            ks == order::keys_of(keys@),
            ls == key_labels(ks),
            order::positions(labels@) == ls,
            n == labels@.len(),
            flags@.len() == n,
            i <= n,
            forall|k: int|
                0 <= k < n ==> #[trigger] flags@[k] == exists|j: int|
                    0 <= j < i && is_paired(ls, k, j),
        decreases n - i,
    {
        let ghost before = flags@;
        proof {
            assert(order::positions(labels@)[i as int] == labels@[i as int]);
            lemma_key_label(ks, i as int);
        }
        let label: usize = labels[i];
        if label != i {
            flags.set(i, true);
            flags.set(label, true);
        }
        proof {
            assert forall|k: int| 0 <= k < n implies #[trigger] flags@[k] == exists|j: int|
                0 <= j < i + 1 && is_paired(ls, k, j) by {
                assert(before[k] == exists|j: int| 0 <= j < i && is_paired(ls, k, j));
                if before[k] {
                    let j = choose|j: int| 0 <= j < i && is_paired(ls, k, j);
                    assert(0 <= j < i + 1 && is_paired(ls, k, j));
                }
                if (k == i || k == label) && label != i {
                    assert(is_paired(ls, k, i as int));
                }
                if exists|j: int| 0 <= j < i + 1 && is_paired(ls, k, j) {
                    let j = choose|j: int| 0 <= j < i + 1 && is_paired(ls, k, j);
                    if j < i {
                        assert(before[k]);
                    }
                }
            }
        }
        i += 1;
    }
    proof {
        assert forall|k: int| 0 <= k < n implies #[trigger] flags@[k] == is_repeated(ks, k) by {
            lemma_paired_is_repeated(ks, k);
        }
    }
    flags
}

/// Whether no two keys are the same.
pub fn all_distinct(keys: &[SortKey]) -> (r: bool)
    ensures
        r == forall|i: int, j: int|
            0 <= i < j < keys@.len() ==> (#[trigger] keys@[i])@ != (#[trigger] keys@[j])@,
{
    let ghost ks = order::keys_of(keys@);
    let n: usize = keys.len();
    let labels: Vec<usize> = labels_of_keys(keys);
    assert(order::positions(labels@).len() == n);
    let mut i: usize = 0;
    while i < n
        invariant
            n == keys@.len(),
            n == labels@.len(),
            ks == order::keys_of(keys@),
            order::positions(labels@) == key_labels(ks),
            i <= n,
            forall|k: int| 0 <= k < i ==> key_labels(ks)[k] == k,
        decreases n - i,
    {
        proof {
            assert(order::positions(labels@)[i as int] == labels@[i as int]);
            lemma_key_label(ks, i as int);
        }
        if labels[i] != i {
            let ghost l = labels@[i as int] as int;
            assert(keys@[l]@ == ks[l] && keys@[i as int]@ == ks[i as int]);
            return false;
        }
        i += 1;
    }
    proof {
        assert forall|i: int, j: int| 0 <= i < j < keys@.len() implies (#[trigger] keys@[i])@ != (
        #[trigger] keys@[j])@ by {
            lemma_key_label(ks, j);
            assert(key_labels(ks)[j] == j);
            assert(ks[i] != ks[j]);
        }
    }
    true
}

/// What the first position with the same key is.
pub proof fn lemma_key_label(ks: Seq<order::Key>, i: int)
    requires
        0 <= i < ks.len(),
    ensures
        0 <= key_labels(ks)[i] <= i,
        ks[key_labels(ks)[i]] == ks[i],
        forall|j: int| 0 <= j < key_labels(ks)[i] ==> #[trigger] ks[j] != ks[i],
{
    let p = |j: int| ks[j] == ks[i];
    lemma_first_is(p, 0, ks.len() as int, i);
    assert forall|j: int| 0 <= j < key_labels(ks)[i] implies #[trigger] ks[j] != ks[i] by {
        assert(!p(j));
    }
}

/// What holds of the first position of which something holds, if there is one.
pub proof fn lemma_first_is(p: spec_fn(int) -> bool, lo: int, hi: int, i: int)
    requires
        lo <= i < hi,
        p(i),
    ensures
        lo <= first_where(p, lo, hi) <= i,
        p(first_where(p, lo, hi)),
        forall|j: int| lo <= j < first_where(p, lo, hi) ==> !#[trigger] p(j),
    decreases hi - lo,
{
    if !p(lo) {
        lemma_first_is(p, lo + 1, hi, i);
    }
}

/// Two positions carry the same label exactly if they are linked.
pub proof fn lemma_labels_follow_links(edge: spec_fn(int, int) -> bool, n: nat, i: int, j: int)
    requires
        0 <= i < n,
        0 <= j < n,
        forall|a: int, b: int| #[trigger] edge(a, b) ==> edge(b, a),
    ensures
        link_labels(edge, n)[i] == link_labels(edge, n)[j] <==> linked(edge, i, j),
        0 <= link_labels(edge, n)[i] <= i,
{
    let p = |k: int| linked(edge, k, i);
    let q = |k: int| linked(edge, k, j);
    lemma_linked_to_itself(edge, i);
    lemma_linked_to_itself(edge, j);
    lemma_first_is(p, 0, n as int, i);
    lemma_first_is(q, 0, n as int, j);
    if linked(edge, i, j) {
        lemma_linked_sym(edge, i, j);
        assert forall|k: int| #[trigger] p(k) == q(k) by {
            if p(k) {
                lemma_linked_trans(edge, k, i, j);
            }
            if q(k) {
                lemma_linked_trans(edge, k, j, i);
            }
        }
        assert(p =~= q);
    } else {
        let l = first_where(p, 0, n as int);
        if l == first_where(q, 0, n as int) {
            lemma_linked_sym(edge, l, i);
            lemma_linked_trans(edge, i, l, j);
        }
    }
}

/// The positions among the first `n` that carry a label, in order.
pub open spec fn positions_with(labels: Seq<Option<int>>, label: int, n: int) -> Seq<int>
    decreases n,
{
    if n <= 0 {
        Seq::empty()
    } else if labels[n - 1] == Some(label) {
        positions_with(labels, label, n - 1).push(n - 1)
    } else {
        positions_with(labels, label, n - 1)
    }
}

/// The positions that carry a label, in order.
pub open spec fn class_of(labels: Seq<Option<int>>, label: int) -> Seq<int> {
    positions_with(labels, label, labels.len() as int)
}

/// What the positions with a label are: each once, in order, and no other.
pub proof fn lemma_positions_with(labels: Seq<Option<int>>, label: int, n: int)
    requires
        0 <= n <= labels.len(),
    ensures
        forall|k: int|
            0 <= k < positions_with(labels, label, n).len() ==> 0 <= (
            #[trigger] positions_with(labels, label, n)[k]) < n && labels[positions_with(
                labels,
                label,
                n,
            )[k]] == Some(label),
        forall|i: int|
            0 <= i < n && #[trigger] labels[i] == Some(label) ==> positions_with(
                labels,
                label,
                n,
            ).contains(i),
        forall|j: int, k: int|
            0 <= j < k < positions_with(labels, label, n).len() ==> #[trigger] positions_with(
                labels,
                label,
                n,
            )[j] < #[trigger] positions_with(labels, label, n)[k],
    decreases n,
{
    if n > 0 {
        lemma_positions_with(labels, label, n - 1);
        let prev = positions_with(labels, label, n - 1);
        let cur = positions_with(labels, label, n);
        assert forall|i: int|
            0 <= i < n && #[trigger] labels[i] == Some(label) implies cur.contains(i) by {
            if i < n - 1 {
                assert(prev.contains(i));
                let k = choose|k: int| 0 <= k < prev.len() && prev[k] == i;
                assert(cur[k] == i);
            } else {
                assert(cur[cur.len() - 1] == n - 1);
            }
        }
    }
}

/// Optional labels as mathematical integers.
pub open spec fn marks(labels: Seq<Option<usize>>) -> Seq<Option<int>> {
    labels.map_values(
        |l: Option<usize>|
            match l {
                Some(x) => Some(x as int),
                None => None,
            },
    )
}

/// The positions that carry each label, for the labels below the length.
pub fn classes(labels: &[Option<usize>]) -> (r: Vec<Vec<usize>>)
    requires
        forall|i: int|
            0 <= i < labels@.len() && (#[trigger] labels@[i]) is Some ==> labels@[i]->0
                < labels@.len(),
    ensures
        r@.len() == labels@.len(),
        forall|l: int|
            0 <= l < r@.len() ==> order::positions((#[trigger] r@[l])@) == class_of(
                marks(labels@),
                l,
            ),
{
    let n: usize = labels.len();
    let ghost ms = marks(labels@);
    let mut out: Vec<Vec<usize>> = Vec::new();
    let mut i: usize = 0;
    while i < n
        invariant
            i <= n,
            out@.len() == i,
            forall|l: int| 0 <= l < i ==> (#[trigger] out@[l])@ == Seq::<usize>::empty(),
        decreases n - i,
    {
        out.push(Vec::new());
        i += 1;
    }
    proof {
        assert forall|l: int| 0 <= l < n implies order::positions((#[trigger] out@[l])@)
            == positions_with(ms, l, 0) by {
            assert(order::positions(out@[l]@) =~= Seq::<int>::empty());
        }
    }
    let mut i: usize = 0;
    while i < n
        invariant
            n == labels@.len(),
            ms == marks(labels@),
            i <= n,
            out@.len() == n,
            forall|k: int|
                0 <= k < labels@.len() && (#[trigger] labels@[k]) is Some ==> labels@[k]->0 < n,
            forall|l: int|
                0 <= l < n ==> order::positions((#[trigger] out@[l])@) == positions_with(
                    ms,
                    l,
                    i as int,
                ),
        decreases n - i,
    {
        let ghost before = out@;
        if let Some(l) = labels[i] {
            out[l].push(i);
            assert(order::positions(out@[l as int]@) =~= order::positions(before[l as int]@).push(
                i as int,
            ));
        }
        i += 1;
    }
    out
}

/// Two places with one key are both repeated, and a place whose key is at no other is not.
pub proof fn repeats_come_in_pairs(keys: Seq<order::Key>, i: int, j: int)
    requires
        0 <= i < keys.len(),
        0 <= j < keys.len(),
        i != j,
    ensures
        keys[i] == keys[j] ==> is_repeated(keys, i) && is_repeated(keys, j),
        keys.remove(i).contains(keys[i]) <==> is_repeated(keys, i),
{
    let rest = keys.remove(i);
    if is_repeated(keys, i) {
        let k = choose|k: int| 0 <= k < keys.len() && k != i && #[trigger] keys[k] == keys[i];
        if k < i {
            assert(rest[k] == keys[i]);
        } else {
            assert(rest[k - 1] == keys[i]);
        }
    }
    if rest.contains(keys[i]) {
        let k = choose|k: int| 0 <= k < rest.len() && rest[k] == keys[i];
        if k < i {
            assert(keys[k] == keys[i]);
        } else {
            assert(keys[k + 1] == keys[i]);
        }
    }
}

} // verus!
