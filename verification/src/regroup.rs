//! The duplicate report and the order that rows come in.
//!
//! A report says which files are duplicates of which, so it cannot hang on the order in
//! which the files happen to be listed: the same rows in another order give the same
//! report, down to the order of groups and members.
use vstd::prelude::*;

use crate::catalog;
use crate::clusters;
use crate::dupes;
use crate::dupes::{DupConfig, DupKind, Group};
use crate::hashing;
use crate::kind;
use crate::kind::MediaKind;
use crate::order;
use crate::pathname;

verus! {

/// Whether something is sorted strictly: each item comes before every later one.
spec fn is_strict<A>(s: Seq<A>, f: spec_fn(A) -> order::Key) -> bool {
    forall|i: int, j: int|
        0 <= i < j < s.len() ==> order::key_lt(f(#[trigger] s[i]), f(#[trigger] s[j]))
}

/// Whether what one list holds another holds too.
spec fn is_within<A>(x: Seq<A>, y: Seq<A>) -> bool {
    forall|i: int| 0 <= i < x.len() ==> y.contains(#[trigger] x[i])
}

proof fn lemma_strict_upto<A>(p: Seq<A>, q: Seq<A>, f: spec_fn(A) -> order::Key, n: int)
    requires
        is_strict(p, f),
        is_strict(q, f),
        is_within(p, q),
        is_within(q, p),
        0 <= n <= p.len(),
    ensures
        n <= q.len(),
        forall|k: int| 0 <= k < n ==> p[k] == q[k],
    decreases n,
{
    if n > 0 {
        let m = n - 1;
        lemma_strict_upto(p, q, f, m);
        assert(q.contains(p[m]));
        let j = choose|j: int| 0 <= j < q.len() && q[j] == p[m];
        order::lemma_key_order(f(p[m]), f(p[m]), f(p[m]));
        if j < m {
            assert(p[j] == q[j]);
            assert(order::key_lt(f(p[j]), f(p[m])));
        }
        if j > m {
            assert(order::key_lt(f(q[m]), f(q[j])));
            assert(p.contains(q[m]));
            let i = choose|i: int| 0 <= i < p.len() && p[i] == q[m];
            order::lemma_key_order(f(q[m]), f(p[m]), f(q[m]));
            if i < m {
                assert(q[i] == p[i]);
                assert(order::key_lt(f(q[i]), f(q[m])));
            } else if i > m {
                assert(order::key_lt(f(p[m]), f(p[i])));
            }
        }
    }
}

/// There is only one way to sort strictly.
proof fn lemma_strict_unique<A>(p: Seq<A>, q: Seq<A>, f: spec_fn(A) -> order::Key)
    requires
        is_strict(p, f),
        is_strict(q, f),
        is_within(p, q),
        is_within(q, p),
    ensures
        p == q,
{
    lemma_strict_upto(p, q, f, p.len() as int);
    lemma_strict_upto(q, p, f, q.len() as int);
    assert(p =~= q);
}

/// Whether no two items have the same key.
spec fn is_told_apart<A>(x: Seq<A>, f: spec_fn(A) -> order::Key) -> bool {
    forall|i: int, j: int| 0 <= i < j < x.len() ==> f(#[trigger] x[i]) != f(#[trigger] x[j])
}

/// What sorting makes of a list whose items have different keys.
proof fn lemma_sorted<A>(x: Seq<A>, f: spec_fn(A) -> order::Key)
    requires
        is_told_apart(x, f),
    ensures
        ({
            let s = order::rearranged(x, x.map_values(f));
            &&& s.len() == x.len()
            &&& is_strict(s, f)
            &&& is_within(s, x)
            &&& is_within(x, s)
        }),
{
    let ks = x.map_values(f);
    let p = order::stable_order(ks);
    let s = order::rearranged(x, ks);
    order::stable_order_is_in_order(ks);
    assert forall|i: int, j: int| 0 <= i < j < s.len() implies order::key_lt(
        f(#[trigger] s[i]),
        f(#[trigger] s[j]),
    ) by {
        assert(order::before(ks, p[i], p[j]));
        order::lemma_key_order(ks[p[i]], ks[p[j]], ks[p[i]]);
        if ks[p[i]] == ks[p[j]] {
            assert(p[i] < p[j]);
            assert(f(x[p[i]]) != f(x[p[j]]));
        }
    }
    assert forall|i: int| 0 <= i < s.len() implies x.contains(#[trigger] s[i]) by {
        assert(0 <= p[i] < x.len());
        assert(s[i] == x[p[i]]);
    }
    assert forall|i: int| 0 <= i < x.len() implies s.contains(#[trigger] x[i]) by {
        assert(p.contains(i));
        let k = choose|k: int| 0 <= k < p.len() && p[k] == i;
        assert(s[k] == x[i]);
    }
}

proof fn lemma_within_trans<A>(x: Seq<A>, y: Seq<A>, z: Seq<A>)
    requires
        is_within(x, y),
        is_within(y, z),
    ensures
        is_within(x, z),
{
    assert forall|i: int| 0 <= i < x.len() implies z.contains(#[trigger] x[i]) by {
        assert(y.contains(x[i]));
        let k = choose|k: int| 0 <= k < y.len() && y[k] == x[i];
        assert(z.contains(y[k]));
    }
}

/// Lists of the same items, all with different keys, are sorted alike.
proof fn lemma_sorted_alike<A>(x: Seq<A>, y: Seq<A>, f: spec_fn(A) -> order::Key)
    requires
        is_told_apart(x, f),
        is_told_apart(y, f),
        is_within(x, y),
        is_within(y, x),
    ensures
        order::rearranged(x, x.map_values(f)) == order::rearranged(y, y.map_values(f)),
{
    let p = order::rearranged(x, x.map_values(f));
    let q = order::rearranged(y, y.map_values(f));
    lemma_sorted(x, f);
    lemma_sorted(y, f);
    lemma_within_trans(p, x, y);
    lemma_within_trans(p, y, q);
    lemma_within_trans(q, y, x);
    lemma_within_trans(q, x, p);
    lemma_strict_unique(p, q, f);
}

/// Where everything in one list comes before everything in another, sorting both
/// together sorts each.
proof fn lemma_sorted_row<A>(u: Seq<A>, v: Seq<A>, f: spec_fn(A) -> order::Key)
    requires
        forall|i: int, j: int|
            0 <= i < u.len() && 0 <= j < v.len() ==> order::key_lt(
                f(#[trigger] u[i]),
                f(#[trigger] v[j]),
            ),
    ensures
        order::rearranged(u + v, (u + v).map_values(f)) == order::rearranged(u, u.map_values(f))
            + order::rearranged(v, v.map_values(f)),
{
    let (ku, kv, kw) = (u.map_values(f), v.map_values(f), (u + v).map_values(f));
    let (p, q, r) = (order::stable_order(ku), order::stable_order(kv), order::stable_order(kw));
    order::stable_order_is_in_order(ku);
    order::stable_order_is_in_order(kv);
    order::stable_order_is_in_order(kw);
    let n = u.len() as int;
    let total = n + v.len();
    let s = p + q.map_values(|k: int| k + n);
    assert forall|a: int| 0 <= a < s.len() implies 0 <= #[trigger] s[a] < total by {
        if a < n {
            assert(s[a] == p[a]);
        } else {
            assert(s[a] == q[a - n] + n);
        }
    }
    assert forall|i: int| 0 <= i < total implies #[trigger] s.contains(i) by {
        if i < n {
            assert(p.contains(i));
            let a = choose|a: int| 0 <= a < p.len() && p[a] == i;
            assert(s[a] == i);
        } else {
            assert(q.contains(i - n));
            let a = choose|a: int| 0 <= a < q.len() && q[a] == i - n;
            assert(s[a + n] == i);
        }
    }
    assert forall|a: int, b: int| 0 <= a < b < s.len() implies order::before(
        kw,
        #[trigger] s[a],
        #[trigger] s[b],
    ) by {
        if b < n {
            assert(s[a] == p[a] && s[b] == p[b]);
            assert(order::before(ku, p[a], p[b]));
            assert(kw[p[a]] == ku[p[a]] && kw[p[b]] == ku[p[b]]);
        } else if a >= n {
            assert(s[a] == q[a - n] + n && s[b] == q[b - n] + n);
            assert(order::before(kv, q[a - n], q[b - n]));
            assert(kw[s[a]] == kv[q[a - n]] && kw[s[b]] == kv[q[b - n]]);
        } else {
            assert(s[a] == p[a] && s[b] == q[b - n] + n);
            assert(kw[s[a]] == f(u[p[a]]) && kw[s[b]] == f(v[q[b - n]]));
        }
    }
    order::lemma_order_unique(kw, r, s, 0, total);
    let left = order::rearranged(u + v, kw);
    let right = order::rearranged(u, ku) + order::rearranged(v, kv);
    assert forall|a: int| 0 <= a < total implies left[a] == right[a] by {
        assert(left[a] == (u + v)[s[a]]);
        if a < n {
            assert(s[a] == p[a]);
            assert(0 <= p[a] < n);
        } else {
            assert(s[a] == q[a - n] + n);
            assert(0 <= q[a - n] < v.len());
        }
    }
    assert(left =~= right);
}

/// Whether no two rows have the same path.
pub open spec fn distinct_paths(rows: Seq<catalog::Row>) -> bool {
    forall|i: int, j: int|
        0 <= i < j < rows.len() ==> pathname::components((#[trigger] rows[i]).path)
            != pathname::components((#[trigger] rows[j]).path)
}

/// Whether two lists hold the same rows, each with a path of its own.
spec fn same_rows(a: Seq<catalog::Row>, b: Seq<catalog::Row>) -> bool {
    &&& distinct_paths(a)
    &&& distinct_paths(b)
    &&& is_within(a, b)
    &&& is_within(b, a)
}

/// The key that rows with different paths differ in.
spec fn by_components() -> spec_fn(catalog::Row) -> order::Key {
    |r: catalog::Row| dupes::path_key(r)
}

proof fn lemma_by_path_alike(a: Seq<catalog::Row>, b: Seq<catalog::Row>)
    requires
        same_rows(a, b),
    ensures
        dupes::by_path(a) == dupes::by_path(b),
        a.len() == b.len(),
{
    let f = by_components();
    assert(a.map_values(f) =~= a.map_values(|r: catalog::Row| dupes::path_key(r)));
    assert(b.map_values(f) =~= b.map_values(|r: catalog::Row| dupes::path_key(r)));
    assert(dupes::by_path(a) =~= order::rearranged(a, a.map_values(f)));
    assert(dupes::by_path(b) =~= order::rearranged(b, b.map_values(f)));
    assert forall|i: int, j: int| 0 <= i < j < a.len() implies f(#[trigger] a[i]) != f(
        #[trigger] a[j],
    ) by {
        assert(f(a[i]).words != f(a[j]).words);
    }
    assert forall|i: int, j: int| 0 <= i < j < b.len() implies f(#[trigger] b[i]) != f(
        #[trigger] b[j],
    ) by {
        assert(f(b[i]).words != f(b[j]).words);
    }
    lemma_sorted(a, f);
    lemma_sorted(b, f);
    lemma_sorted_alike(a, b, f);
}

proof fn lemma_same_contents_alike(a: Seq<catalog::Row>, b: Seq<catalog::Row>)
    requires
        same_rows(a, b),
    ensures
        dupes::same_contents(a) == dupes::same_contents(b),
{
    lemma_by_path_alike(a, b);
    if a.len() > 0 {
        dupes::lemma_same_contents_sorted(a);
        dupes::lemma_same_contents_sorted(b);
    }
}

proof fn lemma_spread_no_wider(a: Seq<catalog::Row>, b: Seq<catalog::Row>)
    requires
        same_rows(a, b),
    ensures
        dupes::spread_of(a) <= dupes::spread_of(b),
{
    dupes::spread_is_the_widest_difference(a);
    dupes::spread_is_the_widest_difference(b);
    if dupes::spread_of(a) > 0 {
        let (i, j) = choose|i: int, j: int|
            0 <= i < j < a.len() && #[trigger] dupes::difference(a[i], a[j]) == Some(
                dupes::spread_of(a),
            );
        assert(b.contains(a[i]) && b.contains(a[j]));
        let x = choose|x: int| 0 <= x < b.len() && b[x] == a[i];
        let y = choose|y: int| 0 <= y < b.len() && b[y] == a[j];
        hashing::distance_is_symmetric(a[i].phash->0, a[j].phash->0);
        assert(x != y);
        if x < y {
            assert(dupes::difference(b[x], b[y]) is Some);
        } else {
            assert(dupes::difference(b[y], b[x]) is Some);
        }
    }
}

/// What the rows of a class make: one group or none.
spec fn made(kind: DupKind, members: Seq<catalog::Row>) -> Seq<Group> {
    match kind {
        DupKind::Exact => if members.len() > 1 {
            seq![dupes::group_of(DupKind::Exact, members, 0)]
        } else {
            Seq::empty()
        },
        DupKind::Near => if members.len() > 1 && !dupes::same_contents(members) {
            seq![dupes::group_of(DupKind::Near, members, dupes::spread_of(members))]
        } else {
            Seq::empty()
        },
        DupKind::Burst => Seq::empty(),
    }
}

proof fn lemma_made_alike(kind: DupKind, a: Seq<catalog::Row>, b: Seq<catalog::Row>)
    requires
        same_rows(a, b),
    ensures
        made(kind, a) == made(kind, b),
{
    lemma_by_path_alike(a, b);
    lemma_same_contents_alike(a, b);
    lemma_spread_no_wider(a, b);
    lemma_spread_no_wider(b, a);
}

/// The rows that carry a label.
spec fn class_rows(rows: Seq<catalog::Row>, labels: Seq<Option<int>>, l: int) -> Seq<catalog::Row> {
    dupes::picked(rows, clusters::class_of(labels, l))
}

/// The groups that the first `n` classes make.
spec fn gathered(
    kind: DupKind,
    rows: Seq<catalog::Row>,
    labels: Seq<Option<int>>,
    n: int,
) -> Seq<Group>
    decreases n,
{
    if n <= 0 {
        Seq::empty()
    } else {
        gathered(kind, rows, labels, n - 1) + made(kind, class_rows(rows, labels, n - 1))
    }
}

proof fn lemma_exact_is_gathered(rows: Seq<catalog::Row>, n: int)
    ensures
        dupes::exact_upto(rows, n) == gathered(
            DupKind::Exact,
            rows,
            dupes::exact_labels(rows),
            n,
        ),
    decreases n,
{
    if n > 0 {
        lemma_exact_is_gathered(rows, n - 1);
        assert(dupes::exact_upto(rows, n) =~= gathered(
            DupKind::Exact,
            rows,
            dupes::exact_labels(rows),
            n,
        ));
    }
}

proof fn lemma_near_is_gathered(rows: Seq<catalog::Row>, threshold: nat, n: int)
    ensures
        dupes::near_upto(rows, threshold, n) == gathered(
            DupKind::Near,
            rows,
            dupes::near_labels(rows, threshold),
            n,
        ),
    decreases n,
{
    if n > 0 {
        lemma_near_is_gathered(rows, threshold, n - 1);
        assert(dupes::near_upto(rows, threshold, n) =~= gathered(
            DupKind::Near,
            rows,
            dupes::near_labels(rows, threshold),
            n,
        ));
    }
}

/// Whether a row is one of those that carry a label.
spec fn carries(rows: Seq<catalog::Row>, labels: Seq<Option<int>>, l: int, row: catalog::Row) -> bool {
    exists|i: int| 0 <= i < rows.len() && labels[i] == Some(l) && #[trigger] rows[i] == row
}

/// What the rows that carry a label are.
proof fn lemma_class_rows(rows: Seq<catalog::Row>, labels: Seq<Option<int>>, l: int)
    requires
        labels.len() == rows.len(),
        distinct_paths(rows),
    ensures
        distinct_paths(class_rows(rows, labels, l)),
        forall|k: int|
            0 <= k < class_rows(rows, labels, l).len() ==> carries(
                rows,
                labels,
                l,
                #[trigger] class_rows(rows, labels, l)[k],
            ),
        forall|i: int|
            0 <= i < rows.len() && labels[i] == Some(l) ==> class_rows(rows, labels, l).contains(
                #[trigger] rows[i],
            ),
{
    let c = clusters::class_of(labels, l);
    let m = class_rows(rows, labels, l);
    clusters::lemma_positions_with(labels, l, labels.len() as int);
    assert forall|i: int, j: int| 0 <= i < j < m.len() implies pathname::components(
        (#[trigger] m[i]).path,
    ) != pathname::components((#[trigger] m[j]).path) by {
        assert(c[i] < c[j]);
        assert(m[i] == rows[c[i]] && m[j] == rows[c[j]]);
    }
    assert forall|k: int| 0 <= k < m.len() implies carries(rows, labels, l, #[trigger] m[k]) by {
        assert(0 <= c[k] < rows.len() && labels[c[k]] == Some(l));
        assert(rows[c[k]] == m[k]);
    }
    assert forall|i: int| 0 <= i < rows.len() && labels[i] == Some(l) implies m.contains(
        #[trigger] rows[i],
    ) by {
        assert(c.contains(i));
        let k = choose|k: int| 0 <= k < c.len() && c[k] == i;
        assert(m[k] == rows[i]);
    }
}

/// Whether a group is the one that a class makes.
spec fn is_made_by(
    kind: DupKind,
    rows: Seq<catalog::Row>,
    labels: Seq<Option<int>>,
    l: int,
    g: Group,
) -> bool {
    made(kind, class_rows(rows, labels, l)) == seq![g]
}

/// Whether a group is the one that one of the first `n` classes makes.
spec fn is_made(
    kind: DupKind,
    rows: Seq<catalog::Row>,
    labels: Seq<Option<int>>,
    n: int,
    g: Group,
) -> bool {
    exists|l: int| 0 <= l < n && #[trigger] is_made_by(kind, rows, labels, l, g)
}

proof fn lemma_gathered(
    kind: DupKind,
    rows: Seq<catalog::Row>,
    labels: Seq<Option<int>>,
    n: int,
)
    requires
        0 <= n,
    ensures
        forall|x: int|
            0 <= x < gathered(kind, rows, labels, n).len() ==> is_made(
                kind,
                rows,
                labels,
                n,
                #[trigger] gathered(kind, rows, labels, n)[x],
            ),
        forall|l: int, g: Group|
            0 <= l < n && #[trigger] is_made_by(kind, rows, labels, l, g) ==> gathered(
                kind,
                rows,
                labels,
                n,
            ).contains(g),
    decreases n,
{
    if n > 0 {
        lemma_gathered(kind, rows, labels, n - 1);
        let prev = gathered(kind, rows, labels, n - 1);
        let more = made(kind, class_rows(rows, labels, n - 1));
        let cur = gathered(kind, rows, labels, n);
        assert forall|x: int| 0 <= x < cur.len() implies is_made(
            kind,
            rows,
            labels,
            n,
            #[trigger] cur[x],
        ) by {
            if x < prev.len() {
                assert(cur[x] == prev[x]);
                assert(is_made(kind, rows, labels, n - 1, prev[x]));
                let l = choose|l: int|
                    0 <= l < n - 1 && is_made_by(kind, rows, labels, l, prev[x]);
                assert(is_made_by(kind, rows, labels, l, cur[x]));
            } else {
                assert(cur[x] == more[x - prev.len()]);
                assert(more =~= seq![cur[x]]);
                assert(is_made_by(kind, rows, labels, n - 1, cur[x]));
            }
        }
        assert forall|l: int, g: Group|
            0 <= l < n && #[trigger] is_made_by(kind, rows, labels, l, g) implies cur.contains(
            g,
        ) by {
            if l < n - 1 {
                assert(prev.contains(g));
                let x = choose|x: int| 0 <= x < prev.len() && prev[x] == g;
                assert(cur[x] == g);
            } else {
                assert(more[0] == g);
                assert(cur[prev.len() as int] == g);
            }
        }
    }
}

/// A group's members are the rows of the class that makes it.
proof fn lemma_made_members(
    kind: DupKind,
    rows: Seq<catalog::Row>,
    labels: Seq<Option<int>>,
    l: int,
    g: Group,
)
    requires
        labels.len() == rows.len(),
        distinct_paths(rows),
        is_made_by(kind, rows, labels, l, g),
    ensures
        g.kind == kind,
        class_rows(rows, labels, l).len() > 1,
        g.members.len() > 1,
        carries(rows, labels, l, g.members[0]),
{
    let m = class_rows(rows, labels, l);
    assert(made(kind, m).len() == 1 && made(kind, m)[0] == g);
    assert(g.members == dupes::by_path(m));
    lemma_class_rows(rows, labels, l);
    let p = |r: catalog::Row| m.contains(r);
    assert forall|k: int| 0 <= k < m.len() implies p(#[trigger] m[k]) by {}
    dupes::sorting_keeps_every_row(m, p);
    assert(p(g.members[0]));
    let k = choose|k: int| 0 <= k < m.len() && m[k] == g.members[0];
    assert(m[k] == g.members[0]);
}

/// Groups of different classes have different first members.
proof fn lemma_gathered_apart(
    kind: DupKind,
    rows: Seq<catalog::Row>,
    labels: Seq<Option<int>>,
    n: int,
)
    requires
        0 <= n,
        labels.len() == rows.len(),
        distinct_paths(rows),
    ensures
        forall|x: int, y: int|
            0 <= x < y < gathered(kind, rows, labels, n).len() ==> pathname::components(
                (#[trigger] gathered(kind, rows, labels, n)[x]).members[0].path,
            ) != pathname::components(
                (#[trigger] gathered(kind, rows, labels, n)[y]).members[0].path,
            ),
    decreases n,
{
    if n > 0 {
        lemma_gathered_apart(kind, rows, labels, n - 1);
        lemma_gathered(kind, rows, labels, n - 1);
        let prev = gathered(kind, rows, labels, n - 1);
        let more = made(kind, class_rows(rows, labels, n - 1));
        let cur = gathered(kind, rows, labels, n);
        assert forall|x: int, y: int| 0 <= x < y < cur.len() implies pathname::components(
            (#[trigger] cur[x]).members[0].path,
        ) != pathname::components((#[trigger] cur[y]).members[0].path) by {
            if y < prev.len() {
                assert(cur[x] == prev[x] && cur[y] == prev[y]);
            } else {
                assert(more.len() <= 1);
                assert(cur[x] == prev[x] && cur[y] == more[0]);
                assert(is_made(kind, rows, labels, n - 1, prev[x]));
                let l = choose|l: int|
                    0 <= l < n - 1 && is_made_by(kind, rows, labels, l, prev[x]);
                assert(more =~= seq![cur[y]]);
                lemma_made_members(kind, rows, labels, l, prev[x]);
                lemma_made_members(kind, rows, labels, n - 1, cur[y]);
                let i = choose|i: int|
                    0 <= i < rows.len() && labels[i] == Some(l) && #[trigger] rows[i]
                        == prev[x].members[0];
                let j = choose|j: int|
                    0 <= j < rows.len() && labels[j] == Some(n - 1) && #[trigger] rows[j]
                        == cur[y].members[0];
                assert(i != j);
                if i < j {
                    assert(pathname::components(rows[i].path) != pathname::components(
                        rows[j].path,
                    ));
                } else {
                    assert(pathname::components(rows[j].path) != pathname::components(
                        rows[i].path,
                    ));
                }
            }
        }
    }
}

/// Whether labels of two lists put the same rows together.
spec fn agree(
    a: Seq<catalog::Row>,
    b: Seq<catalog::Row>,
    x: Seq<Option<int>>,
    y: Seq<Option<int>>,
) -> bool {
    &&& x.len() == a.len()
    &&& y.len() == b.len()
    &&& forall|i: int| 0 <= i < x.len() && #[trigger] x[i] is Some ==> 0 <= x[i]->0 < x.len()
    &&& forall|i: int| 0 <= i < y.len() && #[trigger] y[i] is Some ==> 0 <= y[i]->0 < y.len()
    &&& forall|i: int, k: int, j: int, m: int|
        0 <= i < a.len() && 0 <= k < a.len() && 0 <= j < b.len() && 0 <= m < b.len()
            && #[trigger] a[i] == #[trigger] b[j] && #[trigger] a[k] == #[trigger] b[m] ==> (
        x[i] is Some && x[k] == x[i] <==> y[j] is Some && y[m] == y[j])
}

proof fn lemma_classes_alike(
    a: Seq<catalog::Row>,
    b: Seq<catalog::Row>,
    x: Seq<Option<int>>,
    y: Seq<Option<int>>,
    i: int,
    j: int,
)
    requires
        same_rows(a, b),
        agree(a, b, x, y),
        0 <= i < a.len(),
        0 <= j < b.len(),
        a[i] == b[j],
        x[i] is Some,
    ensures
        y[j] is Some,
        is_within(class_rows(a, x, x[i]->0), class_rows(b, y, y[j]->0)),
{
    assert(x[i] is Some && x[i] == x[i] <==> y[j] is Some && y[j] == y[j]);
    let ca = class_rows(a, x, x[i]->0);
    let cb = class_rows(b, y, y[j]->0);
    lemma_class_rows(a, x, x[i]->0);
    lemma_class_rows(b, y, y[j]->0);
    assert forall|k: int| 0 <= k < ca.len() implies cb.contains(#[trigger] ca[k]) by {
        assert(carries(a, x, x[i]->0, ca[k]));
        let s = choose|s: int|
            0 <= s < a.len() && x[s] == Some(x[i]->0) && #[trigger] a[s] == ca[k];
        assert(b.contains(a[s]));
        let m = choose|m: int| 0 <= m < b.len() && b[m] == a[s];
        assert(x[s] == x[i]);
        assert(y[m] == y[j]);
        assert(cb.contains(b[m]));
    }
}

proof fn lemma_agree_is_mutual(
    a: Seq<catalog::Row>,
    b: Seq<catalog::Row>,
    x: Seq<Option<int>>,
    y: Seq<Option<int>>,
)
    requires
        agree(a, b, x, y),
    ensures
        agree(b, a, y, x),
{
    assert forall|i: int, k: int, j: int, m: int|
        0 <= i < b.len() && 0 <= k < b.len() && 0 <= j < a.len() && 0 <= m < a.len()
            && #[trigger] b[i] == #[trigger] a[j] && #[trigger] b[k] == #[trigger] a[m] implies (
    y[i] is Some && y[k] == y[i] <==> x[j] is Some && x[m] == x[j]) by {
        assert(a[j] == b[i] && a[m] == b[k]);
    }
}

proof fn lemma_gathered_within(
    kind: DupKind,
    a: Seq<catalog::Row>,
    b: Seq<catalog::Row>,
    x: Seq<Option<int>>,
    y: Seq<Option<int>>,
)
    requires
        same_rows(a, b),
        agree(a, b, x, y),
    ensures
        is_within(
            gathered(kind, a, x, a.len() as int),
            gathered(kind, b, y, b.len() as int),
        ),
{
    let ga = gathered(kind, a, x, a.len() as int);
    let gb = gathered(kind, b, y, b.len() as int);
    lemma_gathered(kind, a, x, a.len() as int);
    lemma_gathered(kind, b, y, b.len() as int);
    lemma_agree_is_mutual(a, b, x, y);
    assert forall|s: int| 0 <= s < ga.len() implies gb.contains(#[trigger] ga[s]) by {
        assert(is_made(kind, a, x, a.len() as int, ga[s]));
        let l = choose|l: int| 0 <= l < a.len() && is_made_by(kind, a, x, l, ga[s]);
        lemma_made_members(kind, a, x, l, ga[s]);
        let i = choose|i: int|
            0 <= i < a.len() && x[i] == Some(l) && #[trigger] a[i] == ga[s].members[0];
        assert(b.contains(a[i]));
        let j = choose|j: int| 0 <= j < b.len() && b[j] == a[i];
        lemma_classes_alike(a, b, x, y, i, j);
        lemma_classes_alike(b, a, y, x, j, i);
        lemma_class_rows(a, x, l);
        lemma_class_rows(b, y, y[j]->0);
        lemma_made_alike(kind, class_rows(a, x, l), class_rows(b, y, y[j]->0));
        assert(is_made_by(kind, b, y, y[j]->0, ga[s]));
    }
}

proof fn lemma_exact_labels(rows: Seq<catalog::Row>, i: int, k: int)
    requires
        0 <= i < rows.len(),
        0 <= k < rows.len(),
    ensures
        ({
            let x = dupes::exact_labels(rows);
            &&& x[i] is Some ==> 0 <= x[i]->0 < rows.len()
            &&& x[i] is Some && x[k] == x[i] <==> rows[i].content_hash is Some
                && rows[k].content_hash == rows[i].content_hash
        }),
{
    let ks = rows.map_values(|r: catalog::Row| dupes::hash_key(r));
    let labels = clusters::key_labels(ks);
    clusters::lemma_key_label(ks, i);
    clusters::lemma_key_label(ks, k);
    assert(ks[i] == dupes::hash_key(rows[i]) && ks[k] == dupes::hash_key(rows[k]));
    if rows[i].content_hash is Some && rows[k].content_hash == rows[i].content_hash {
        assert(ks[i] == ks[k]);
        if labels[i] < labels[k] {
            assert(ks[labels[i]] != ks[k]);
        }
        if labels[k] < labels[i] {
            assert(ks[labels[k]] != ks[i]);
        }
    }
    if rows[i].content_hash is Some && rows[k].content_hash is Some && labels[i] == labels[k] {
        assert(ks[i] == ks[k]);
        assert(ks[i].lead == rows[i].content_hash->0 && ks[k].lead == rows[k].content_hash->0);
    }
}

proof fn lemma_exact_agree(a: Seq<catalog::Row>, b: Seq<catalog::Row>)
    ensures
        agree(a, b, dupes::exact_labels(a), dupes::exact_labels(b)),
{
    let (x, y) = (dupes::exact_labels(a), dupes::exact_labels(b));
    assert forall|i: int| 0 <= i < x.len() && #[trigger] x[i] is Some implies 0 <= x[i]->0
        < x.len() by {
        lemma_exact_labels(a, i, i);
    }
    assert forall|i: int| 0 <= i < y.len() && #[trigger] y[i] is Some implies 0 <= y[i]->0
        < y.len() by {
        lemma_exact_labels(b, i, i);
    }
    assert forall|i: int, k: int, j: int, m: int|
        0 <= i < a.len() && 0 <= k < a.len() && 0 <= j < b.len() && 0 <= m < b.len()
            && #[trigger] a[i] == #[trigger] b[j] && #[trigger] a[k] == #[trigger] b[m] implies (
    x[i] is Some && x[k] == x[i] <==> y[j] is Some && y[m] == y[j]) by {
        lemma_exact_labels(a, i, k);
        lemma_exact_labels(b, j, m);
    }
}

/// Where a row stands in a list.
spec fn place(rows: Seq<catalog::Row>, row: catalog::Row) -> int {
    choose|k: int| 0 <= k < rows.len() && rows[k] == row
}

proof fn lemma_place(rows: Seq<catalog::Row>, k: int)
    requires
        distinct_paths(rows),
        0 <= k < rows.len(),
    ensures
        place(rows, rows[k]) == k,
{
    let p = place(rows, rows[k]);
    assert(0 <= p < rows.len() && rows[p] == rows[k]);
    if p < k {
        assert(pathname::components(rows[p].path) != pathname::components(rows[k].path));
    }
    if k < p {
        assert(pathname::components(rows[k].path) != pathname::components(rows[p].path));
    }
}

proof fn lemma_links_carry_over(
    a: Seq<catalog::Row>,
    b: Seq<catalog::Row>,
    threshold: nat,
    i: int,
    k: int,
    j: int,
    m: int,
)
    requires
        same_rows(a, b),
        0 <= i < a.len(),
        0 <= k < a.len(),
        0 <= j < b.len(),
        0 <= m < b.len(),
        a[i] == b[j],
        a[k] == b[m],
        clusters::linked(dupes::alike(a, threshold), i, k),
    ensures
        clusters::linked(dupes::alike(b, threshold), j, m),
{
    let (e, f) = (dupes::alike(a, threshold), dupes::alike(b, threshold));
    let walk = choose|walk: Seq<int>| #[trigger]
        clusters::is_walk(e, walk) && walk[0] == i && walk.last() == k;
    let other = walk.map_values(|s: int| place(b, a[s]));
    assert forall|s: int| 0 <= s < other.len() - 1 implies f(#[trigger] other[s], other[s + 1]) by {
        assert(e(walk[s], walk[s + 1]));
        assert(b.contains(a[walk[s]]) && b.contains(a[walk[s + 1]]));
        assert(b[other[s]] == a[walk[s]]);
        assert(b[other[s + 1]] == a[walk[s + 1]]);
    }
    assert(clusters::is_walk(f, other));
    lemma_place(b, j);
    lemma_place(b, m);
    assert(other[0] == j && other.last() == m);
}

proof fn lemma_near_labels(rows: Seq<catalog::Row>, threshold: nat, i: int, k: int)
    requires
        0 <= i < rows.len(),
        0 <= k < rows.len(),
    ensures
        ({
            let x = dupes::near_labels(rows, threshold);
            &&& x[i] is Some ==> 0 <= x[i]->0 < rows.len()
            &&& x[i] is Some && x[k] == x[i] <==> rows[i].phash is Some && rows[k].phash is Some
                && clusters::linked(dupes::alike(rows, threshold), i, k)
        }),
{
    dupes::lemma_alike_is_mutual(rows, threshold);
    clusters::lemma_labels_follow_links(dupes::alike(rows, threshold), rows.len(), i, k);
    clusters::lemma_labels_follow_links(dupes::alike(rows, threshold), rows.len(), k, i);
}

proof fn lemma_near_agree(a: Seq<catalog::Row>, b: Seq<catalog::Row>, threshold: nat)
    requires
        same_rows(a, b),
    ensures
        agree(a, b, dupes::near_labels(a, threshold), dupes::near_labels(b, threshold)),
{
    let (x, y) = (dupes::near_labels(a, threshold), dupes::near_labels(b, threshold));
    assert forall|i: int| 0 <= i < x.len() && #[trigger] x[i] is Some implies 0 <= x[i]->0
        < x.len() by {
        lemma_near_labels(a, threshold, i, i);
    }
    assert forall|i: int| 0 <= i < y.len() && #[trigger] y[i] is Some implies 0 <= y[i]->0
        < y.len() by {
        lemma_near_labels(b, threshold, i, i);
    }
    assert forall|i: int, k: int, j: int, m: int|
        0 <= i < a.len() && 0 <= k < a.len() && 0 <= j < b.len() && 0 <= m < b.len()
            && #[trigger] a[i] == #[trigger] b[j] && #[trigger] a[k] == #[trigger] b[m] implies (
    x[i] is Some && x[k] == x[i] <==> y[j] is Some && y[m] == y[j]) by {
        lemma_near_labels(a, threshold, i, k);
        lemma_near_labels(b, threshold, j, m);
        if clusters::linked(dupes::alike(a, threshold), i, k) {
            lemma_links_carry_over(a, b, threshold, i, k, j, m);
        }
        if clusters::linked(dupes::alike(b, threshold), j, m) {
            lemma_links_carry_over(b, a, threshold, j, m, i, k);
        }
    }
}

/// The rows that something holds of, in order.
spec fn sifted(rows: Seq<catalog::Row>, p: spec_fn(catalog::Row) -> bool) -> Seq<catalog::Row>
    decreases rows.len(),
{
    if rows.len() == 0 {
        Seq::empty()
    } else if p(rows.last()) {
        sifted(rows.drop_last(), p).push(rows.last())
    } else {
        sifted(rows.drop_last(), p)
    }
}

proof fn lemma_sifted(rows: Seq<catalog::Row>, p: spec_fn(catalog::Row) -> bool)
    requires
        distinct_paths(rows),
    ensures
        distinct_paths(sifted(rows, p)),
        forall|i: int|
            0 <= i < sifted(rows, p).len() ==> p(#[trigger] sifted(rows, p)[i]) && rows.contains(
                sifted(rows, p)[i],
            ),
        forall|i: int|
            0 <= i < rows.len() && p(#[trigger] rows[i]) ==> sifted(rows, p).contains(rows[i]),
    decreases rows.len(),
{
    if rows.len() > 0 {
        let rest = rows.drop_last();
        let prev = sifted(rest, p);
        let cur = sifted(rows, p);
        assert(distinct_paths(rest)) by {
            assert forall|i: int, j: int| 0 <= i < j < rest.len() implies pathname::components(
                (#[trigger] rest[i]).path,
            ) != pathname::components((#[trigger] rest[j]).path) by {
                assert(rest[i] == rows[i] && rest[j] == rows[j]);
            }
        }
        lemma_sifted(rest, p);
        assert forall|i: int| 0 <= i < cur.len() implies p(#[trigger] cur[i]) && rows.contains(
            cur[i],
        ) by {
            if i < prev.len() {
                assert(cur[i] == prev[i]);
                assert(rest.contains(prev[i]));
                let k = choose|k: int| 0 <= k < rest.len() && rest[k] == prev[i];
                assert(rows[k] == cur[i]);
            } else {
                assert(cur[i] == rows[rows.len() - 1]);
            }
        }
        assert forall|i: int| 0 <= i < rows.len() && p(#[trigger] rows[i]) implies cur.contains(
            rows[i],
        ) by {
            if i < rest.len() {
                assert(rest[i] == rows[i]);
                assert(prev.contains(rest[i]));
                let k = choose|k: int| 0 <= k < prev.len() && prev[k] == rest[i];
                assert(cur[k] == rows[i]);
            } else {
                assert(cur[cur.len() - 1] == rows[i]);
            }
        }
        assert forall|i: int, j: int| 0 <= i < j < cur.len() implies pathname::components(
            (#[trigger] cur[i]).path,
        ) != pathname::components((#[trigger] cur[j]).path) by {
            assert(cur[i] == prev[i]);
            if j < prev.len() {
                assert(cur[j] == prev[j]);
            } else {
                assert(rest.contains(prev[i]));
                let k = choose|k: int| 0 <= k < rest.len() && rest[k] == prev[i];
                assert(rows[k] == cur[i] && rows[rows.len() - 1] == cur[j]);
            }
        }
    }
}

proof fn lemma_sifted_alike(
    a: Seq<catalog::Row>,
    b: Seq<catalog::Row>,
    p: spec_fn(catalog::Row) -> bool,
)
    requires
        same_rows(a, b),
    ensures
        same_rows(sifted(a, p), sifted(b, p)),
{
    lemma_sifted(a, p);
    lemma_sifted(b, p);
    let (x, y) = (sifted(a, p), sifted(b, p));
    assert forall|i: int| 0 <= i < x.len() implies y.contains(#[trigger] x[i]) by {
        assert(a.contains(x[i]));
        let k = choose|k: int| 0 <= k < a.len() && a[k] == x[i];
        assert(b.contains(a[k]));
        let m = choose|m: int| 0 <= m < b.len() && b[m] == a[k];
        assert(p(b[m]));
    }
    assert forall|i: int| 0 <= i < y.len() implies x.contains(#[trigger] y[i]) by {
        assert(b.contains(y[i]));
        let k = choose|k: int| 0 <= k < b.len() && b[k] == y[i];
        assert(a.contains(b[k]));
        let m = choose|m: int| 0 <= m < a.len() && a[m] == b[k];
        assert(p(a[m]));
    }
}

/// Whether a row has a capture time.
spec fn has_date() -> spec_fn(catalog::Row) -> bool {
    |r: catalog::Row| r.date_taken is Some
}

proof fn lemma_dated_is_sifted(rows: Seq<catalog::Row>)
    ensures
        dupes::dated(rows) == sifted(rows, has_date()),
    decreases rows.len(),
{
    if rows.len() > 0 {
        lemma_dated_is_sifted(rows.drop_last());
    }
}

proof fn lemma_of_kind_is_sifted(rows: Seq<catalog::Row>, k: MediaKind)
    ensures
        dupes::of_kind(rows, k) == sifted(rows, dupes::has_kind(k)),
    decreases rows.len(),
{
    if rows.len() > 0 {
        lemma_of_kind_is_sifted(rows.drop_last(), k);
    }
}

/// The key of a shot, which shots with different paths differ in.
spec fn by_shot() -> spec_fn(catalog::Row) -> order::Key {
    |r: catalog::Row| dupes::shot_key(r)
}

proof fn lemma_shots_told_apart(rows: Seq<catalog::Row>)
    requires
        distinct_paths(rows),
    ensures
        is_told_apart(rows, by_shot()),
{
    let f = by_shot();
    assert forall|i: int, j: int| 0 <= i < j < rows.len() implies f(#[trigger] rows[i]) != f(
        #[trigger] rows[j],
    ) by {
        assert(f(rows[i]).words != f(rows[j]).words);
    }
}

proof fn lemma_shots_alike(a: Seq<catalog::Row>, b: Seq<catalog::Row>)
    requires
        same_rows(a, b),
    ensures
        dupes::shots_of(a) == dupes::shots_of(b),
{
    let f = by_shot();
    let (x, y) = (dupes::dated(a), dupes::dated(b));
    lemma_dated_is_sifted(a);
    lemma_dated_is_sifted(b);
    lemma_sifted_alike(a, b, has_date());
    lemma_shots_told_apart(x);
    lemma_shots_told_apart(y);
    lemma_sorted_alike(x, y, f);
    assert(x.map_values(f) =~= x.map_values(|r: catalog::Row| dupes::shot_key(r)));
    assert(y.map_values(f) =~= y.map_values(|r: catalog::Row| dupes::shot_key(r)));
    assert(dupes::shots_of(a) =~= order::rearranged(x, x.map_values(f)));
    assert(dupes::shots_of(b) =~= order::rearranged(y, y.map_values(f)));
}

/// What groups are sorted by.
spec fn by_evidence() -> spec_fn(Group) -> order::Key {
    |g: Group| dupes::group_key(g)
}

/// The groups of copies and of pictures that look alike, as far as they are wanted.
spec fn certain(rows: Seq<catalog::Row>, cfg: DupConfig) -> Seq<Group> {
    (if cfg.find_exact {
        dupes::exact_of(rows)
    } else {
        Seq::empty()
    }) + (if cfg.find_near {
        dupes::near_of(rows, cfg.near_threshold as nat)
    } else {
        Seq::empty()
    })
}

proof fn lemma_kind_of_gathered(
    kind: DupKind,
    rows: Seq<catalog::Row>,
    labels: Seq<Option<int>>,
)
    requires
        labels.len() == rows.len(),
        distinct_paths(rows),
    ensures
        forall|x: int|
            0 <= x < gathered(kind, rows, labels, rows.len() as int).len() ==> (
            #[trigger] gathered(kind, rows, labels, rows.len() as int)[x]).kind == kind,
{
    let n = rows.len() as int;
    let gs = gathered(kind, rows, labels, n);
    lemma_gathered(kind, rows, labels, n);
    assert forall|x: int| 0 <= x < gs.len() implies (#[trigger] gs[x]).kind == kind by {
        assert(is_made(kind, rows, labels, n, gs[x]));
        let l = choose|l: int| 0 <= l < n && is_made_by(kind, rows, labels, l, gs[x]);
        lemma_made_members(kind, rows, labels, l, gs[x]);
    }
}

/// What is certain is told apart by what it is sorted by, and comes before any burst.
proof fn lemma_certain(rows: Seq<catalog::Row>, cfg: DupConfig)
    requires
        distinct_paths(rows),
    ensures
        is_told_apart(certain(rows, cfg), by_evidence()),
        forall|x: int|
            0 <= x < certain(rows, cfg).len() ==> (#[trigger] certain(rows, cfg)[x]).kind
                != DupKind::Burst,
{
    let n = rows.len() as int;
    let t = cfg.near_threshold as nat;
    let f = by_evidence();
    let (x, y) = (dupes::exact_labels(rows), dupes::near_labels(rows, t));
    let e = dupes::exact_of(rows);
    let m = dupes::near_of(rows, t);
    lemma_exact_is_gathered(rows, n);
    lemma_near_is_gathered(rows, t, n);
    lemma_kind_of_gathered(DupKind::Exact, rows, x);
    lemma_kind_of_gathered(DupKind::Near, rows, y);
    lemma_gathered_apart(DupKind::Exact, rows, x, n);
    lemma_gathered_apart(DupKind::Near, rows, y, n);
    let all = certain(rows, cfg);
    let first = if cfg.find_exact {
        e.len() as int
    } else {
        0
    };
    assert forall|i: int, j: int| 0 <= i < j < all.len() implies f(#[trigger] all[i]) != f(
        #[trigger] all[j],
    ) by {
        if j < first {
            assert(all[i] == e[i] && all[j] == e[j]);
            assert(f(all[i]).words != f(all[j]).words);
        } else if i >= first {
            assert(all[i] == m[i - first] && all[j] == m[j - first]);
            assert(f(all[i]).words != f(all[j]).words);
        } else {
            assert(all[i] == e[i] && all[j] == m[j - first]);
            assert(f(all[i]).first != f(all[j]).first);
        }
    }
    assert forall|i: int| 0 <= i < all.len() implies (#[trigger] all[i]).kind != DupKind::Burst by {
        if i < first {
            assert(all[i] == e[i]);
        } else {
            assert(all[i] == m[i - first]);
        }
    }
}

proof fn lemma_certain_within(a: Seq<catalog::Row>, b: Seq<catalog::Row>, cfg: DupConfig)
    requires
        same_rows(a, b),
    ensures
        is_within(certain(a, cfg), certain(b, cfg)),
{
    let t = cfg.near_threshold as nat;
    lemma_exact_is_gathered(a, a.len() as int);
    lemma_exact_is_gathered(b, b.len() as int);
    lemma_near_is_gathered(a, t, a.len() as int);
    lemma_near_is_gathered(b, t, b.len() as int);
    lemma_exact_agree(a, b);
    lemma_near_agree(a, b, t);
    lemma_gathered_within(
        DupKind::Exact,
        a,
        b,
        dupes::exact_labels(a),
        dupes::exact_labels(b),
    );
    lemma_gathered_within(
        DupKind::Near,
        a,
        b,
        dupes::near_labels(a, t),
        dupes::near_labels(b, t),
    );
    let (ea, eb) = (dupes::exact_of(a), dupes::exact_of(b));
    let (na, nb) = (dupes::near_of(a, t), dupes::near_of(b, t));
    let (x, y) = (certain(a, cfg), certain(b, cfg));
    let first = if cfg.find_exact {
        ea.len() as int
    } else {
        0
    };
    let second = if cfg.find_exact {
        eb.len() as int
    } else {
        0
    };
    assert forall|i: int| 0 <= i < x.len() implies y.contains(#[trigger] x[i]) by {
        if i < first {
            assert(x[i] == ea[i]);
            assert(eb.contains(ea[i]));
            let k = choose|k: int| 0 <= k < eb.len() && eb[k] == ea[i];
            assert(y[k] == x[i]);
        } else {
            assert(x[i] == na[i - first]);
            assert(nb.contains(na[i - first]));
            let k = choose|k: int| 0 <= k < nb.len() && nb[k] == na[i - first];
            assert(y[second + k] == x[i]);
        }
    }
}

/// What is found is what is certain, sorted, and then the bursts, sorted.
proof fn lemma_found(rows: Seq<catalog::Row>, cfg: DupConfig)
    requires
        distinct_paths(rows),
    ensures
        ({
            let f = by_evidence();
            let sure = certain(rows, cfg);
            let burst = if cfg.find_burst {
                dupes::burst_of(rows, cfg.burst_window_secs as int)
            } else {
                Seq::empty()
            };
            dupes::found(rows, cfg) == order::rearranged(sure, sure.map_values(f))
                + order::rearranged(burst, burst.map_values(f))
        }),
{
    let f = by_evidence();
    let sure = certain(rows, cfg);
    let burst = if cfg.find_burst {
        dupes::burst_of(rows, cfg.burst_window_secs as int)
    } else {
        Seq::empty()
    };
    let all = sure + burst;
    dupes::burst_groups_are_several_shots(rows, cfg.burst_window_secs as int);
    lemma_certain(rows, cfg);
    assert forall|i: int, j: int| 0 <= i < sure.len() && 0 <= j < burst.len() implies order::key_lt(
        f(#[trigger] sure[i]),
        f(#[trigger] burst[j]),
    ) by {
        assert(sure[i].kind != DupKind::Burst);
        assert(burst[j].kind == DupKind::Burst);
    }
    lemma_sorted_row(sure, burst, f);
    assert(all.map_values(f) =~= all.map_values(|g: Group| dupes::group_key(g)));
    assert(dupes::finished(all) =~= order::rearranged(all, all.map_values(f)));
}

proof fn lemma_found_alike(a: Seq<catalog::Row>, b: Seq<catalog::Row>, cfg: DupConfig)
    requires
        same_rows(a, b),
    ensures
        dupes::found(a, cfg) == dupes::found(b, cfg),
{
    lemma_found(a, cfg);
    lemma_found(b, cfg);
    lemma_certain(a, cfg);
    lemma_certain(b, cfg);
    lemma_certain_within(a, b, cfg);
    lemma_certain_within(b, a, cfg);
    lemma_sorted_alike(certain(a, cfg), certain(b, cfg), by_evidence());
    lemma_shots_alike(a, b);
}

proof fn lemma_no_larger(a: Seq<catalog::Row>, b: Seq<catalog::Row>)
    requires
        same_rows(a, b),
    ensures
        dupes::total_size(b) <= dupes::total_size(a),
{
    let at = b.map_values(|r: catalog::Row| place(a, r));
    assert forall|k: int| 0 <= k < at.len() implies 0 <= #[trigger] at[k] < a.len() && a[at[k]]
        == b[k] by {
        assert(a.contains(b[k]));
    }
    assert forall|i: int, j: int| 0 <= i < at.len() && 0 <= j < at.len() && i != j implies at[i]
        != at[j] by {
        if at[i] == at[j] {
            lemma_place(b, i);
            lemma_place(b, j);
        }
    }
    dupes::lemma_total_of_picked(a, at);
    assert(dupes::picked(a, at) =~= b);
}

/// The same rows in another order give the same report: the same groups in the same
/// order, each with the same members, keeper, spread and gain. Their sizes add up to the
/// same, so that where one list can be searched so can the other.
pub proof fn reports_ignore_the_order_of_rows(
    a: Seq<catalog::Row>,
    b: Seq<catalog::Row>,
    cfg: DupConfig,
)
    requires
        a.to_multiset() == b.to_multiset(),
        distinct_paths(a),
    ensures
        dupes::duplicates_of(a, cfg) == dupes::duplicates_of(b, cfg),
        dupes::total_size(a) == dupes::total_size(b),
{
    lemma_permuted(a, b);
    lemma_no_larger(a, b);
    lemma_no_larger(b, a);
    if cfg.same_kind_only {
        lemma_kind_alike(a, b, cfg, MediaKind::Photo);
        lemma_kind_alike(a, b, cfg, MediaKind::Screenshot);
        lemma_kind_alike(a, b, cfg, MediaKind::Saved);
    } else {
        lemma_found_alike(a, b, cfg);
    }
}

proof fn lemma_kind_alike(
    a: Seq<catalog::Row>,
    b: Seq<catalog::Row>,
    cfg: DupConfig,
    k: MediaKind,
)
    requires
        same_rows(a, b),
    ensures
        dupes::found(dupes::of_kind(a, k), cfg) == dupes::found(dupes::of_kind(b, k), cfg),
{
    lemma_of_kind_is_sifted(a, k);
    lemma_of_kind_is_sifted(b, k);
    lemma_sifted_alike(a, b, dupes::has_kind(k));
    lemma_found_alike(dupes::of_kind(a, k), dupes::of_kind(b, k), cfg);
}

proof fn lemma_permuted(a: Seq<catalog::Row>, b: Seq<catalog::Row>)
    requires
        a.to_multiset() == b.to_multiset(),
        distinct_paths(a),
    ensures
        same_rows(a, b),
{
    broadcast use vstd::seq_lib::group_to_multiset_ensures;

    assert forall|i: int| 0 <= i < a.len() implies b.contains(#[trigger] a[i]) by {
        assert(a.to_multiset().count(a[i]) > 0);
    }
    assert forall|i: int| 0 <= i < b.len() implies a.contains(#[trigger] b[i]) by {
        assert(b.to_multiset().count(b[i]) > 0);
    }
    assert(a.no_duplicates());
    a.lemma_multiset_has_no_duplicates();
    assert forall|i: int, j: int| 0 <= i < j < b.len() implies pathname::components(
        (#[trigger] b[i]).path,
    ) != pathname::components((#[trigger] b[j]).path) by {
        let x = choose|x: int| 0 <= x < a.len() && a[x] == b[i];
        let y = choose|y: int| 0 <= y < a.len() && a[y] == b[j];
        assert(a.contains(b[i]) && a.contains(b[j]));
        if x == y {
            let rest = b.remove(j);
            assert(rest[i] == b[i]);
            assert(rest.to_multiset().count(b[i]) > 0);
            assert(b.to_multiset().count(b[i]) >= 2);
        } else if x < y {
            assert(pathname::components(a[x].path) != pathname::components(a[y].path));
        } else {
            assert(pathname::components(a[y].path) != pathname::components(a[x].path));
        }
    }
}

/// Whether two groups share no file.
spec fn is_disjoint(g: Group, h: Group) -> bool {
    forall|a: int, b: int|
        0 <= a < g.members.len() && 0 <= b < h.members.len() ==> #[trigger] g.members[a]
            != #[trigger] h.members[b]
}

/// Whether no group has a file twice, and no two groups of one kind share one.
spec fn is_apart(groups: Seq<Group>) -> bool {
    &&& forall|i: int| 0 <= i < groups.len() ==> (#[trigger] groups[i]).members.no_duplicates()
    &&& forall|i: int, j: int|
        0 <= i < j < groups.len() && (#[trigger] groups[i]).kind == (#[trigger] groups[j]).kind
            ==> is_disjoint(groups[i], groups[j])
}

proof fn lemma_by_path_apart(rows: Seq<catalog::Row>)
    requires
        rows.no_duplicates(),
    ensures
        dupes::by_path(rows).no_duplicates(),
{
    let keys = rows.map_values(|r: catalog::Row| dupes::path_key(r));
    let at = order::sorting_goes_by_key(rows, keys);
    assert(order::rearranged(rows, keys) =~= dupes::by_path(rows));
    let sorted = dupes::by_path(rows);
    assert forall|a: int, b: int| 0 <= a < sorted.len() && 0 <= b < sorted.len() && a != b implies sorted[a]
        != sorted[b] by {
        assert(order::rearranged(rows, keys)[a] == rows[at[a]]);
        assert(order::rearranged(rows, keys)[b] == rows[at[b]]);
        if a < b {
            assert(at[a] != at[b]);
        } else {
            assert(at[b] != at[a]);
        }
    }
}

proof fn lemma_distinct_rows(rows: Seq<catalog::Row>)
    requires
        distinct_paths(rows),
    ensures
        rows.no_duplicates(),
{
    assert forall|i: int, j: int| 0 <= i < rows.len() && 0 <= j < rows.len() && i != j implies rows[i]
        != rows[j] by {
        if i < j {
            assert(pathname::components(rows[i].path) != pathname::components(rows[j].path));
        } else {
            assert(pathname::components(rows[j].path) != pathname::components(rows[i].path));
        }
    }
}

proof fn lemma_members_carry(
    kind: DupKind,
    rows: Seq<catalog::Row>,
    labels: Seq<Option<int>>,
    l: int,
    g: Group,
)
    requires
        labels.len() == rows.len(),
        distinct_paths(rows),
        is_made_by(kind, rows, labels, l, g),
    ensures
        g.members.no_duplicates(),
        forall|a: int| 0 <= a < g.members.len() ==> carries(rows, labels, l, #[trigger] g.members[a]),
{
    let m = class_rows(rows, labels, l);
    assert(made(kind, m).len() == 1 && made(kind, m)[0] == g);
    assert(g.members == dupes::by_path(m));
    lemma_class_rows(rows, labels, l);
    lemma_distinct_rows(m);
    lemma_by_path_apart(m);
    let p = |r: catalog::Row| carries(rows, labels, l, r);
    assert forall|k: int| 0 <= k < m.len() implies p(#[trigger] m[k]) by {}
    dupes::sorting_keeps_every_row(m, p);
    assert forall|a: int| 0 <= a < g.members.len() implies carries(
        rows,
        labels,
        l,
        #[trigger] g.members[a],
    ) by {
        assert(p(g.members[a]));
    }
}

proof fn lemma_classes_disjoint(
    kind: DupKind,
    rows: Seq<catalog::Row>,
    labels: Seq<Option<int>>,
    l: int,
    g: Group,
    m: int,
    h: Group,
)
    requires
        labels.len() == rows.len(),
        distinct_paths(rows),
        is_made_by(kind, rows, labels, l, g),
        is_made_by(kind, rows, labels, m, h),
        l != m,
    ensures
        is_disjoint(g, h),
{
    lemma_members_carry(kind, rows, labels, l, g);
    lemma_members_carry(kind, rows, labels, m, h);
    lemma_distinct_rows(rows);
    assert forall|a: int, b: int| 0 <= a < g.members.len() && 0 <= b < h.members.len() implies
        #[trigger] g.members[a] != #[trigger] h.members[b] by {
        assert(carries(rows, labels, l, g.members[a]));
        assert(carries(rows, labels, m, h.members[b]));
        let i = choose|i: int|
            0 <= i < rows.len() && labels[i] == Some(l) && #[trigger] rows[i] == g.members[a];
        let j = choose|j: int|
            0 <= j < rows.len() && labels[j] == Some(m) && #[trigger] rows[j] == h.members[b];
        assert(i != j);
    }
}

proof fn lemma_gathered_disjoint(
    kind: DupKind,
    rows: Seq<catalog::Row>,
    labels: Seq<Option<int>>,
    n: int,
)
    requires
        0 <= n,
        labels.len() == rows.len(),
        distinct_paths(rows),
    ensures
        is_apart(gathered(kind, rows, labels, n)),
    decreases n,
{
    if n > 0 {
        lemma_gathered_disjoint(kind, rows, labels, n - 1);
        lemma_gathered(kind, rows, labels, n - 1);
        let prev = gathered(kind, rows, labels, n - 1);
        let more = made(kind, class_rows(rows, labels, n - 1));
        let cur = gathered(kind, rows, labels, n);
        assert(more.len() <= 1);
        if more.len() == 1 {
            let g = more[0];
            assert(more =~= seq![g]);
            assert(is_made_by(kind, rows, labels, n - 1, g));
            lemma_members_carry(kind, rows, labels, n - 1, g);
            assert(cur =~= prev.push(g));
            assert forall|i: int, j: int| 0 <= i < j < cur.len() && (#[trigger] cur[i]).kind == (
            #[trigger] cur[j]).kind implies is_disjoint(cur[i], cur[j]) by {
                assert(cur[i] == prev[i]);
                if j < prev.len() {
                    assert(cur[j] == prev[j]);
                } else {
                    assert(is_made(kind, rows, labels, n - 1, prev[i]));
                    let l = choose|l: int|
                        0 <= l < n - 1 && is_made_by(kind, rows, labels, l, prev[i]);
                    lemma_classes_disjoint(kind, rows, labels, l, prev[i], n - 1, g);
                }
            }
        } else {
            assert(cur =~= prev);
        }
    }
}

/// Whether all files of some groups are among some rows.
spec fn is_among(groups: Seq<Group>, rows: Seq<catalog::Row>) -> bool {
    forall|i: int, a: int|
        0 <= i < groups.len() && 0 <= a < groups[i].members.len() ==> rows.contains(
            #[trigger] groups[i].members[a],
        )
}

proof fn lemma_burst_apart(run: Seq<catalog::Row>)
    requires
        run.no_duplicates(),
    ensures
        is_apart(dupes::burst_group(run)),
        is_among(dupes::burst_group(run), run),
        dupes::burst_group(run).len() <= 1,
{
    lemma_by_path_apart(run);
    let p = |r: catalog::Row| run.contains(r);
    assert forall|k: int| 0 <= k < run.len() implies p(#[trigger] run[k]) by {}
    dupes::sorting_keeps_every_row(run, p);
    let groups = dupes::burst_group(run);
    assert forall|i: int, a: int| 0 <= i < groups.len() && 0 <= a < groups[i].members.len() implies run.contains(
        #[trigger] groups[i].members[a],
    ) by {
        assert(p(dupes::by_path(run)[a]));
    }
}

proof fn lemma_apart_row(x: Seq<Group>, y: Seq<Group>)
    requires
        is_apart(x),
        is_apart(y),
        forall|i: int, j: int|
            0 <= i < x.len() && 0 <= j < y.len() && (#[trigger] x[i]).kind == (#[trigger] y[j]).kind
                ==> is_disjoint(x[i], y[j]),
    ensures
        is_apart(x + y),
{
    let all = x + y;
    assert forall|i: int| 0 <= i < all.len() implies (#[trigger] all[i]).members.no_duplicates() by {
        if i < x.len() {
            assert(all[i] == x[i]);
        } else {
            assert(all[i] == y[i - x.len()]);
        }
    }
    assert forall|i: int, j: int| 0 <= i < j < all.len() && (#[trigger] all[i]).kind == (
    #[trigger] all[j]).kind implies is_disjoint(all[i], all[j]) by {
        if j < x.len() {
            assert(all[i] == x[i] && all[j] == x[j]);
        } else if i >= x.len() {
            assert(all[i] == y[i - x.len()] && all[j] == y[j - x.len()]);
        } else {
            assert(all[i] == x[i] && all[j] == y[j - x.len()]);
        }
    }
}

proof fn lemma_closed_apart(shots: Seq<catalog::Row>, n: int, window: int)
    requires
        shots.no_duplicates(),
        0 <= n <= shots.len(),
    ensures
        0 <= dupes::run_start(shots, n, window) <= n,
        is_apart(dupes::closed_bursts(shots, n, window)),
        is_among(
            dupes::closed_bursts(shots, n, window),
            shots.take(dupes::run_start(shots, n, window)),
        ),
    decreases n,
{
    if n > 1 {
        lemma_closed_apart(shots, n - 1, window);
        if !dupes::extends_run(shots[n - 2], shots[n - 1], window) {
            let start = dupes::run_start(shots, n - 1, window);
            let x = dupes::closed_bursts(shots, n - 1, window);
            let run = shots.subrange(start, n - 1);
            let y = dupes::burst_group(run);
            lemma_part_apart(shots, start, n - 1);
            lemma_burst_apart(run);
            lemma_parts_disjoint(x, y, shots, start, n - 1);
            lemma_apart_row(x, y);
            lemma_among_both(x, y, shots, start, n - 1);
        }
    }
}

proof fn lemma_part_apart(shots: Seq<catalog::Row>, lo: int, hi: int)
    requires
        shots.no_duplicates(),
        0 <= lo <= hi <= shots.len(),
    ensures
        shots.subrange(lo, hi).no_duplicates(),
{
    let run = shots.subrange(lo, hi);
    assert forall|i: int, j: int| 0 <= i < run.len() && 0 <= j < run.len() && i != j implies run[i]
        != run[j] by {
        assert(run[i] == shots[lo + i] && run[j] == shots[lo + j]);
    }
}

proof fn lemma_parts_disjoint(
    x: Seq<Group>,
    y: Seq<Group>,
    shots: Seq<catalog::Row>,
    lo: int,
    hi: int,
)
    requires
        shots.no_duplicates(),
        0 <= lo <= hi <= shots.len(),
        is_among(x, shots.take(lo)),
        is_among(y, shots.subrange(lo, hi)),
    ensures
        forall|i: int, j: int|
            0 <= i < x.len() && 0 <= j < y.len() ==> is_disjoint(#[trigger] x[i], #[trigger] y[j]),
{
    assert forall|i: int, j: int| 0 <= i < x.len() && 0 <= j < y.len() implies is_disjoint(
        #[trigger] x[i],
        #[trigger] y[j],
    ) by {
        assert forall|a: int, b: int|
            0 <= a < x[i].members.len() && 0 <= b < y[j].members.len() implies
            #[trigger] x[i].members[a] != #[trigger] y[j].members[b] by {
            let p = shots.take(lo);
            let q = shots.subrange(lo, hi);
            assert(p.contains(x[i].members[a]) && q.contains(y[j].members[b]));
            let u = choose|u: int| 0 <= u < p.len() && p[u] == x[i].members[a];
            let v = choose|v: int| 0 <= v < q.len() && q[v] == y[j].members[b];
            assert(p[u] == shots[u] && q[v] == shots[lo + v]);
        }
    }
}

proof fn lemma_among_both(
    x: Seq<Group>,
    y: Seq<Group>,
    shots: Seq<catalog::Row>,
    lo: int,
    hi: int,
)
    requires
        0 <= lo <= hi <= shots.len(),
        is_among(x, shots.take(lo)),
        is_among(y, shots.subrange(lo, hi)),
    ensures
        is_among(x + y, shots.take(hi)),
{
    let all = x + y;
    let whole = shots.take(hi);
    assert forall|i: int, a: int| 0 <= i < all.len() && 0 <= a < all[i].members.len() implies whole.contains(
        #[trigger] all[i].members[a],
    ) by {
        if i < x.len() {
            assert(all[i] == x[i]);
            let p = shots.take(lo);
            assert(p.contains(x[i].members[a]));
            let u = choose|u: int| 0 <= u < p.len() && p[u] == x[i].members[a];
            assert(whole[u] == p[u]);
        } else {
            let j = i - x.len();
            assert(all[i] == y[j]);
            let q = shots.subrange(lo, hi);
            assert(q.contains(y[j].members[a]));
            let v = choose|v: int| 0 <= v < q.len() && q[v] == y[j].members[a];
            assert(whole[lo + v] == q[v]);
        }
    }
}

proof fn lemma_shots_apart(rows: Seq<catalog::Row>)
    requires
        distinct_paths(rows),
    ensures
        dupes::shots_of(rows).no_duplicates(),
{
    lemma_dated_is_sifted(rows);
    lemma_sifted(rows, has_date());
    let d = dupes::dated(rows);
    lemma_distinct_rows(d);
    let keys = d.map_values(|r: catalog::Row| dupes::shot_key(r));
    let at = order::sorting_goes_by_key(d, keys);
    let shots = dupes::shots_of(rows);
    assert(order::rearranged(d, keys) =~= shots);
    assert forall|a: int, b: int| 0 <= a < shots.len() && 0 <= b < shots.len() && a != b implies shots[a]
        != shots[b] by {
        assert(order::rearranged(d, keys)[a] == d[at[a]]);
        assert(order::rearranged(d, keys)[b] == d[at[b]]);
        if a < b {
            assert(at[a] != at[b]);
        } else {
            assert(at[b] != at[a]);
        }
    }
}

proof fn lemma_bursts_apart(rows: Seq<catalog::Row>, window: int)
    requires
        distinct_paths(rows),
    ensures
        is_apart(dupes::burst_of(rows, window)),
{
    let shots = dupes::shots_of(rows);
    let n = shots.len() as int;
    lemma_shots_apart(rows);
    lemma_closed_apart(shots, n, window);
    let start = dupes::run_start(shots, n, window);
    let x = dupes::closed_bursts(shots, n, window);
    let run = shots.subrange(start, n);
    lemma_part_apart(shots, start, n);
    lemma_burst_apart(run);
    lemma_parts_disjoint(x, dupes::burst_group(run), shots, start, n);
    lemma_apart_row(x, dupes::burst_group(run));
}

proof fn lemma_finished_apart(groups: Seq<Group>)
    requires
        is_apart(groups),
    ensures
        is_apart(dupes::finished(groups)),
{
    let keys = groups.map_values(|g: Group| dupes::group_key(g));
    let at = order::sorting_goes_by_key(groups, keys);
    let done = dupes::finished(groups);
    assert(order::rearranged(groups, keys) =~= done);
    assert forall|i: int| 0 <= i < done.len() implies (#[trigger] done[i]).members.no_duplicates() by {
        assert(order::rearranged(groups, keys)[i] == groups[at[i]]);
    }
    assert forall|i: int, j: int| 0 <= i < j < done.len() && (#[trigger] done[i]).kind == (
    #[trigger] done[j]).kind implies is_disjoint(done[i], done[j]) by {
        assert(order::rearranged(groups, keys)[i] == groups[at[i]]);
        assert(order::rearranged(groups, keys)[j] == groups[at[j]]);
        assert(at[i] != at[j]);
        if at[i] < at[j] {
            assert(is_disjoint(groups[at[i]], groups[at[j]]));
        } else {
            assert(is_disjoint(groups[at[j]], groups[at[i]]));
        }
    }
}

proof fn lemma_found_apart(rows: Seq<catalog::Row>, cfg: DupConfig)
    requires
        distinct_paths(rows),
    ensures
        is_apart(dupes::found(rows, cfg)),
{
    let n = rows.len() as int;
    let t = cfg.near_threshold as nat;
    let w = cfg.burst_window_secs as int;
    let (x, y) = (dupes::exact_labels(rows), dupes::near_labels(rows, t));
    lemma_exact_is_gathered(rows, n);
    lemma_near_is_gathered(rows, t, n);
    lemma_kind_of_gathered(DupKind::Exact, rows, x);
    lemma_kind_of_gathered(DupKind::Near, rows, y);
    lemma_gathered_disjoint(DupKind::Exact, rows, x, n);
    lemma_gathered_disjoint(DupKind::Near, rows, y, n);
    lemma_bursts_apart(rows, w);
    dupes::burst_groups_are_several_shots(rows, w);
    let exact = if cfg.find_exact {
        dupes::exact_of(rows)
    } else {
        Seq::empty()
    };
    let near = if cfg.find_near {
        dupes::near_of(rows, t)
    } else {
        Seq::empty()
    };
    let burst = if cfg.find_burst {
        dupes::burst_of(rows, w)
    } else {
        Seq::empty()
    };
    lemma_apart_row(exact, near);
    let sure = exact + near;
    assert forall|i: int| 0 <= i < sure.len() implies (#[trigger] sure[i]).kind
        != DupKind::Burst by {
        if i < exact.len() {
            assert(sure[i] == exact[i]);
        } else {
            assert(sure[i] == near[i - exact.len()]);
        }
    }
    lemma_apart_row(sure, burst);
    lemma_finished_apart(sure + burst);
}

proof fn lemma_kinds_apart(rows: Seq<catalog::Row>, cfg: DupConfig, k: MediaKind)
    requires
        distinct_paths(rows),
    ensures
        is_apart(dupes::found(dupes::of_kind(rows, k), cfg)),
        forall|i: int, a: int|
            0 <= i < dupes::found(dupes::of_kind(rows, k), cfg).len() && 0 <= a < dupes::found(
                dupes::of_kind(rows, k),
                cfg,
            )[i].members.len() ==> kind::effective_kind(
                #[trigger] dupes::found(dupes::of_kind(rows, k), cfg)[i].members[a],
            ) == k,
{
    lemma_of_kind_is_sifted(rows, k);
    let p = dupes::has_kind(k);
    lemma_sifted(rows, p);
    let some = dupes::of_kind(rows, k);
    lemma_found_apart(some, cfg);
    let each = DupConfig { same_kind_only: false, ..cfg };
    assert forall|i: int| 0 <= i < some.len() implies p(#[trigger] some[i]) by {}
    dupes::groups_hold_given_rows_only(some, each, p);
    let groups = dupes::found(some, cfg);
    assert(dupes::duplicates_of(some, each) == groups);
    assert forall|i: int, a: int| 0 <= i < groups.len() && 0 <= a < groups[i].members.len() implies kind::effective_kind(
        #[trigger] groups[i].members[a],
    ) == k by {
        assert(dupes::every_row(groups[i].members, p));
        assert(p(groups[i].members[a]));
    }
}

proof fn lemma_disjoint_kinds(
    x: Seq<Group>,
    y: Seq<Group>,
    p: spec_fn(catalog::Row) -> bool,
)
    requires
        forall|i: int, a: int|
            0 <= i < x.len() && 0 <= a < x[i].members.len() ==> p(#[trigger] x[i].members[a]),
        forall|i: int, a: int|
            0 <= i < y.len() && 0 <= a < y[i].members.len() ==> !p(#[trigger] y[i].members[a]),
    ensures
        forall|i: int, j: int|
            0 <= i < x.len() && 0 <= j < y.len() ==> is_disjoint(#[trigger] x[i], #[trigger] y[j]),
{
    assert forall|i: int, j: int| 0 <= i < x.len() && 0 <= j < y.len() implies is_disjoint(
        #[trigger] x[i],
        #[trigger] y[j],
    ) by {
        assert forall|a: int, b: int|
            0 <= a < x[i].members.len() && 0 <= b < y[j].members.len() implies
            #[trigger] x[i].members[a] != #[trigger] y[j].members[b] by {
            assert(p(x[i].members[a]));
            assert(!p(y[j].members[b]));
        }
    }
}

/// No file is reported twice for the same reason: not twice in a group, and not in two
/// groups of one kind.
pub proof fn no_file_is_grouped_twice(
    rows: Seq<catalog::Row>,
    cfg: DupConfig,
    i: int,
    j: int,
    a: int,
    b: int,
)
    requires
        distinct_paths(rows),
        0 <= i < dupes::duplicates_of(rows, cfg).len(),
        0 <= j < dupes::duplicates_of(rows, cfg).len(),
        0 <= a < dupes::duplicates_of(rows, cfg)[i].members.len(),
        0 <= b < dupes::duplicates_of(rows, cfg)[j].members.len(),
        dupes::duplicates_of(rows, cfg)[i].kind == dupes::duplicates_of(rows, cfg)[j].kind,
        i != j || a != b,
    ensures
        dupes::duplicates_of(rows, cfg)[i].members[a] != dupes::duplicates_of(
            rows,
            cfg,
        )[j].members[b],
{
    let groups = dupes::duplicates_of(rows, cfg);
    if cfg.same_kind_only {
        lemma_kinds_apart(rows, cfg, MediaKind::Photo);
        lemma_kinds_apart(rows, cfg, MediaKind::Screenshot);
        lemma_kinds_apart(rows, cfg, MediaKind::Saved);
        let x = dupes::found(dupes::of_kind(rows, MediaKind::Photo), cfg);
        let y = dupes::found(dupes::of_kind(rows, MediaKind::Screenshot), cfg);
        let z = dupes::found(dupes::of_kind(rows, MediaKind::Saved), cfg);
        lemma_disjoint_kinds(x, y, dupes::has_kind(MediaKind::Photo));
        lemma_apart_row(x, y);
        let both = x + y;
        let q = |r: catalog::Row| kind::effective_kind(r) != MediaKind::Saved;
        assert forall|i: int, a: int| 0 <= i < both.len() && 0 <= a < both[i].members.len() implies q(
            #[trigger] both[i].members[a],
        ) by {
            if i < x.len() {
                assert(both[i] == x[i]);
                assert(kind::effective_kind(x[i].members[a]) == MediaKind::Photo);
            } else {
                assert(both[i] == y[i - x.len()]);
                assert(kind::effective_kind(y[i - x.len()].members[a]) == MediaKind::Screenshot);
            }
        }
        lemma_disjoint_kinds(both, z, q);
        lemma_apart_row(both, z);
        lemma_finished_apart(both + z);
    } else {
        lemma_found_apart(rows, cfg);
    }
    assert(is_apart(groups));
    if i < j {
        assert(is_disjoint(groups[i], groups[j]));
    } else if j < i {
        assert(is_disjoint(groups[j], groups[i]));
    } else {
        assert(groups[i].members.no_duplicates());
    }
}

} // verus!
