//! Duplicate grouping.
//!
//! Three independent detectors, because "duplicate" means three different things
//! in a photo library:
//!
//! * exact: byte-identical files, grouped by content hash.
//! * near: visually the same picture, grouped by perceptual-hash distance. This
//!   catches the original alongside its resized or recompressed copy.
//! * burst: different frames shot within seconds on the same camera, worth
//!   culling down to one keeper.
//!
//! Every group carries a suggested keeper. Nothing is acted on by itself.
use vstd::prelude::*;
use vstd::utf8::*;

use crate::catalog;
use crate::catalog::MediaRow;
use crate::clusters;
use crate::clusters::{classes, labels_of_keys, labels_of_sets};
use crate::hashing;
use crate::hashing::{hamming, BkTree};
use crate::kind;
use crate::kind::{effective, MediaKind};
use crate::order;
use crate::order::{least_of, sorted_order, SortKey};
use crate::pathname;
use crate::pathname::components_of;
use crate::text::{byte_len, chars_of};
use crate::union_find;
use crate::union_find::UnionFind;

verus! {

#[derive(Debug, Clone, Copy, PartialEq, Eq, Hash, Structural)]
pub enum DupKind {
    Exact,
    Near,
    Burst,
}

/// The word for a kind of duplicate.
pub open spec fn dup_label(k: DupKind) -> Seq<char> {
    match k {
        DupKind::Exact => "identical"@,
        DupKind::Near => "near-duplicate"@,
        DupKind::Burst => "burst"@,
    }
}

/// How far a kind of duplicate is to be trusted.
pub open spec fn dup_confidence(k: DupKind) -> Seq<char> {
    match k {
        DupKind::Exact => "byte-identical"@,
        DupKind::Near => "same image, different encoding or size"@,
        DupKind::Burst => "shot seconds apart — review before removing"@,
    }
}

/// The order in which kinds of duplicates are reported: strongest evidence first.
pub open spec fn rank(k: DupKind) -> int {
    match k {
        DupKind::Exact => 0,
        DupKind::Near => 1,
        DupKind::Burst => 2,
    }
}

impl DupKind {
    /// The word for display.
    pub fn label(self) -> (r: &'static str)
        ensures
            r@ == dup_label(self),
    {
        match self {
            DupKind::Exact => "identical",
            DupKind::Near => "near-duplicate",
            DupKind::Burst => "burst",
        }
    }

    /// How far the grouping is to be trusted.
    pub fn confidence(self) -> (r: &'static str)
        ensures
            r@ == dup_confidence(self),
    {
        match self {
            DupKind::Exact => "byte-identical",
            DupKind::Near => "same image, different encoding or size",
            DupKind::Burst => "shot seconds apart — review before removing",
        }
    }
}

/// The place of a kind in the report.
pub fn kind_rank(k: DupKind) -> (r: u8)
    ensures
        r == rank(k),
{
    match k {
        DupKind::Exact => 0,
        DupKind::Near => 1,
        DupKind::Burst => 2,
    }
}

/// Tuning for a duplicate scan.
#[derive(Debug, Clone, Copy)]
pub struct DupConfig {
    /// The largest Hamming distance of perceptual hashes at which two images are
    /// the same picture.
    pub near_threshold: u32,
    /// Seconds between consecutive shots that still count as one burst.
    pub burst_window_secs: i64,
    pub find_exact: bool,
    pub find_near: bool,
    pub find_burst: bool,
    /// Whether only images of the same kind are grouped together.
    pub same_kind_only: bool,
}

impl Default for DupConfig {
    fn default() -> (r: Self)
        ensures
            r == (DupConfig {
                near_threshold: 6,
                burst_window_secs: 2,
                find_exact: true,
                find_near: true,
                find_burst: false,
                same_kind_only: true,
            }),
    {
        DupConfig {
            near_threshold: 6,
            burst_window_secs: 2,
            find_exact: true,
            find_near: true,
            find_burst: false,
            same_kind_only: true,
        }
    }
}

/// Files that are considered duplicates of one another.
#[derive(Debug)]
pub struct DupGroup {
    pub kind: DupKind,
    /// The members, sorted by path.
    pub members: Vec<MediaRow>,
    /// Index of the suggested keeper.
    pub keeper: usize,
    /// The largest distance of two perceptual hashes in the group, for near
    /// duplicates only.
    pub spread: u32,
    /// Bytes freed if every member but the keeper were set aside.
    pub reclaimable: u64,
}

/// A group as mathematical values.
#[verifier::ext_equal]
pub struct Group {
    pub kind: DupKind,
    pub members: Seq<catalog::Row>,
    pub keeper: int,
    pub spread: nat,
    pub reclaimable: nat,
}

impl View for DupGroup {
    type V = Group;

    open spec fn view(&self) -> Group {
        Group {
            kind: self.kind,
            members: catalog::rows_of(self.members@),
            keeper: self.keeper as int,
            spread: self.spread as nat,
            reclaimable: self.reclaimable as nat,
        }
    }
}

/// Groups as mathematical values.
pub open spec fn groups_of(groups: Seq<DupGroup>) -> Seq<Group> {
    groups.map_values(|g: DupGroup| g@)
}

/// The sum of some rows' sizes.
pub open spec fn total_size(rows: Seq<catalog::Row>) -> nat
    decreases rows.len(),
{
    if rows.len() == 0 {
        0
    } else {
        total_size(rows.drop_last()) + rows.last().size as nat
    }
}

/// The rows at some positions.
pub open spec fn picked(rows: Seq<catalog::Row>, at: Seq<int>) -> Seq<catalog::Row> {
    at.map_values(|i: int| rows[i])
}

/// What members are sorted by.
pub open spec fn path_key(row: catalog::Row) -> order::Key {
    order::Key { words: pathname::components(row.path), ..order::no_key() }
}

/// Rows sorted by path.
pub open spec fn by_path(rows: Seq<catalog::Row>) -> Seq<catalog::Row> {
    picked(rows, order::stable_order(rows.map_values(|r: catalog::Row| path_key(r))))
}

/// How many pixels an image has, as far as is known.
pub open spec fn pixels(row: catalog::Row) -> nat {
    match (row.width, row.height) {
        (Some(w), Some(h)) => (w * h) as nat,
        _ => 0,
    }
}

/// What decides which copy to keep: the highest resolution, then the largest
/// file, then the oldest modification time, then the shortest path, then the
/// order of paths.
pub open spec fn keeper_key(row: catalog::Row) -> order::Key {
    order::Key {
        lead: Seq::empty(),
        first: -(pixels(row) as int),
        second: -(row.size as int),
        third: row.mtime as int,
        fourth: encode_utf8(row.path).len() as int,
        words: pathname::components(row.path),
    }
}

/// The index of the member to keep.
pub open spec fn keeper_of(members: Seq<catalog::Row>) -> int {
    order::least(members.map_values(|r: catalog::Row| keeper_key(r)))
}

/// The group that some rows make.
pub open spec fn group_of(kind: DupKind, rows: Seq<catalog::Row>, spread: nat) -> Group {
    let members = by_path(rows);
    let keeper = keeper_of(members);
    Group {
        kind,
        members,
        keeper,
        spread,
        reclaimable: (total_size(members) - members[keeper].size) as nat,
    }
}

/// Whether all rows have the same known content hash. Where none is known,
/// nothing is claimed.
pub open spec fn same_contents(rows: Seq<catalog::Row>) -> bool {
    &&& rows.len() > 0
    &&& rows[0].content_hash is Some
    &&& forall|i: int|
        0 <= i < rows.len() ==> (#[trigger] rows[i]).content_hash == rows[0].content_hash
}

proof fn lemma_total_remove(rows: Seq<catalog::Row>, k: int)
    requires
        0 <= k < rows.len(),
    ensures
        total_size(rows) == total_size(rows.remove(k)) + rows[k].size,
    decreases rows.len(),
{
    if k == rows.len() - 1 {
        assert(rows.remove(k) =~= rows.drop_last());
    } else {
        lemma_total_remove(rows.drop_last(), k);
        assert(rows.remove(k).drop_last() =~= rows.drop_last().remove(k));
        assert(rows.remove(k).last() == rows.last());
    }
}

/// Rows at distinct positions are together no larger than all.
pub proof fn lemma_total_of_picked(rows: Seq<catalog::Row>, at: Seq<int>)
    requires
        at.no_duplicates(),
        forall|k: int| 0 <= k < at.len() ==> 0 <= #[trigger] at[k] < rows.len(),
    ensures
        total_size(picked(rows, at)) <= total_size(rows),
    decreases rows.len(),
{
    if rows.len() == 0 {
        assert(at.len() == 0) by {
            if at.len() > 0 {
                assert(0 <= at[0] < 0);
            }
        }
    } else {
        let n = rows.len() - 1;
        let rest = rows.drop_last();
        if at.contains(n) {
            let k = choose|k: int| 0 <= k < at.len() && at[k] == n;
            let others = at.remove(k);
            assert forall|j: int| 0 <= j < others.len() implies 0 <= #[trigger] others[j]
                < rest.len() by {
                assert(others[j] == at[if j < k {
                    j
                } else {
                    j + 1
                }]);
            }
            assert(others.no_duplicates());
            lemma_total_of_picked(rest, others);
            lemma_total_remove(picked(rows, at), k);
            assert(picked(rows, at).remove(k) =~= picked(rest, others));
        } else {
            assert forall|j: int| 0 <= j < at.len() implies 0 <= #[trigger] at[j] < rest.len() by {
                assert(at.contains(at[j]));
            }
            lemma_total_of_picked(rest, at);
            assert(picked(rows, at) =~= picked(rest, at));
        }
    }
}

proof fn lemma_order_is_distinct(keys: Seq<order::Key>, p: Seq<int>, lo: int, hi: int)
    requires
        order::in_order(keys, p, lo, hi),
    ensures
        p.no_duplicates(),
{
    assert forall|a: int, b: int| 0 <= a < p.len() && 0 <= b < p.len() && a != b implies p[a]
        != p[b] by {
        if a < b {
            assert(order::before(keys, p[a], p[b]));
        } else {
            assert(order::before(keys, p[b], p[a]));
        }
        order::lemma_key_order(keys[p[a]], keys[p[a]], keys[p[a]]);
    }
}

fn pick_rows(rows: &[MediaRow], at: &[usize]) -> (r: Vec<MediaRow>)
    requires
        forall|k: int| 0 <= k < at@.len() ==> (#[trigger] at@[k]) < rows@.len(),
    ensures
        catalog::rows_of(r@) == picked(catalog::rows_of(rows@), order::positions(at@)),
{
    let mut out: Vec<MediaRow> = Vec::new();
    let mut k: usize = 0;
    let ghost want = picked(catalog::rows_of(rows@), order::positions(at@));
    assert(catalog::rows_of(out@) =~= want.take(0));
    while k < at.len()
        invariant
            forall|k: int| 0 <= k < at@.len() ==> (#[trigger] at@[k]) < rows@.len(),
            want == picked(catalog::rows_of(rows@), order::positions(at@)),
            k <= at@.len(),
            catalog::rows_of(out@) == want.take(k as int),
        decreases at@.len() - k,
    {
        let ghost before = out@;
        let row: MediaRow = rows[at[k]].clone();
        assert(row@ == want[k as int]);
        let ghost model = row@;
        out.push(row);
        assert(catalog::rows_of(out@) =~= catalog::rows_of(before).push(model));
        assert(want.take(k + 1) =~= want.take(k as int).push(want[k as int]));
        k += 1;
    }
    assert(want.take(k as int) =~= want);
    out
}

fn path_keys(rows: &[MediaRow]) -> (r: Vec<SortKey>)
    ensures
        order::keys_of(r@) == catalog::rows_of(rows@).map_values(
            |r: catalog::Row| path_key(r),
        ),
{
    let ghost want = catalog::rows_of(rows@).map_values(|r: catalog::Row| path_key(r));
    let mut out: Vec<SortKey> = Vec::new();
    let mut i: usize = 0;
    while i < rows.len()
        invariant
            want == catalog::rows_of(rows@).map_values(|r: catalog::Row| path_key(r)),
            i <= rows@.len(),
            out@.len() == i,
            forall|k: int| 0 <= k < i ==> (#[trigger] out@[k])@ == want[k],
        decreases rows@.len() - i,
    {
        let key: SortKey = SortKey {
            lead: Vec::new(),
            first: 0,
            second: 0,
            third: 0,
            fourth: 0,
            words: components_of(rows[i].path.as_str()),
        };
        assert(key@ =~= want[i as int]);
        out.push(key);
        i += 1;
    }
    assert(order::keys_of(out@) =~= want);
    out
}

fn keeper_keys(rows: &[MediaRow]) -> (r: Vec<SortKey>)
    ensures
        order::keys_of(r@) == catalog::rows_of(rows@).map_values(
            |r: catalog::Row| keeper_key(r),
        ),
{
    let ghost want = catalog::rows_of(rows@).map_values(|r: catalog::Row| keeper_key(r));
    let mut out: Vec<SortKey> = Vec::new();
    let mut i: usize = 0;
    while i < rows.len()
        invariant
            want == catalog::rows_of(rows@).map_values(|r: catalog::Row| keeper_key(r)),
            i <= rows@.len(),
            out@.len() == i,
            forall|k: int| 0 <= k < i ==> (#[trigger] out@[k])@ == want[k],
        decreases rows@.len() - i,
    {
        let row: &MediaRow = &rows[i];
        let area: i128 = match (row.width, row.height) {
            (Some(w), Some(h)) => {
                proof {
                    assert(0 <= w * h <= 0xffff_ffff * 0xffff_ffff) by (nonlinear_arith)
                        requires
                            0 <= w <= 0xffff_ffff,
                            0 <= h <= 0xffff_ffff,
                    ;
                }
                (w as u64 * h as u64) as i128
            },
            _ => 0,
        };
        let key: SortKey = SortKey {
            lead: Vec::new(),
            first: -area,
            second: -(row.size as i128),
            third: row.mtime as i128,
            fourth: byte_len(row.path.as_str()) as i128,
            words: components_of(row.path.as_str()),
        };
        assert(key@ =~= want[i as int]);
        out.push(key);
        i += 1;
    }
    assert(order::keys_of(out@) =~= want);
    out
}

/// Which copy to keep.
pub fn suggest_keeper(members: &[MediaRow]) -> (r: usize)
    requires
        members@.len() > 0,
    ensures
        r == keeper_of(catalog::rows_of(members@)),
        r < members@.len(),
{
    let keys: Vec<SortKey> = keeper_keys(members);
    assert(order::keys_of(keys@).len() == members@.len());
    least_of(keys.as_slice())
}

/// The group that some rows make.
pub fn build_group(kind: DupKind, rows: &[MediaRow], spread: u32) -> (r: DupGroup)
    requires
        rows@.len() > 0,
        total_size(catalog::rows_of(rows@)) <= u64::MAX,
    ensures
        r@ == group_of(kind, catalog::rows_of(rows@), spread as nat),
        r.members@.len() == rows@.len(),
{
    let ghost rs = catalog::rows_of(rows@);
    let keys: Vec<SortKey> = path_keys(rows);
    let ghost ks = order::keys_of(keys@);
    assert(ks.len() == rows@.len());
    let order: Vec<usize> = sorted_order(keys.as_slice());
    let members: Vec<MediaRow> = pick_rows(rows, order.as_slice());
    let ghost ms = by_path(rs);
    assert(catalog::rows_of(members@) == ms);
    proof {
        let p = order::stable_order(ks);
        lemma_order_is_distinct(ks, p, 0, ks.len() as int);
        lemma_total_of_picked(rs, p);
        assert(ms.len() == rs.len());
    }
    let keeper: usize = suggest_keeper(members.as_slice());
    let mut total: u64 = 0;
    let mut i: usize = 0;
    assert(ms.take(0) =~= Seq::<catalog::Row>::empty());
    while i < members.len()
        invariant
            catalog::rows_of(members@) == ms,
            total_size(ms) <= u64::MAX,
            i <= members@.len(),
            total == total_size(ms.take(i as int)),
        decreases members@.len() - i,
    {
        proof {
            lemma_total_take(ms, i + 1);
            assert(ms.take(i + 1).drop_last() =~= ms.take(i as int));
            assert(ms.take(i + 1).last() == ms[i as int]);
        }
        total += members[i].size;
        i += 1;
    }
    proof {
        assert(ms.take(i as int) =~= ms);
        lemma_total_remove(ms, keeper as int);
    }
    let kept: u64 = members[keeper].size;
    assert(kept == ms[keeper as int].size);
    DupGroup { kind, members, keeper, spread, reclaimable: total - kept }
}

proof fn lemma_total_take(rows: Seq<catalog::Row>, n: int)
    requires
        0 <= n <= rows.len(),
    ensures
        total_size(rows.take(n)) <= total_size(rows),
    decreases rows.len(),
{
    if n == rows.len() {
        assert(rows.take(n) =~= rows);
    } else {
        lemma_total_take(rows.drop_last(), n);
        assert(rows.drop_last().take(n) =~= rows.take(n));
    }
}

/// What files are grouped by when they are byte-identical.
pub open spec fn hash_key(row: catalog::Row) -> order::Key {
    match row.content_hash {
        Some(h) => order::Key { lead: h, first: 1, ..order::no_key() },
        None => order::no_key(),
    }
}

/// The label of each row: the first row with the same known content hash.
pub open spec fn exact_labels(rows: Seq<catalog::Row>) -> Seq<Option<int>> {
    let labels = clusters::key_labels(rows.map_values(|r: catalog::Row| hash_key(r)));
    Seq::new(
        rows.len(),
        |i: int|
            if rows[i].content_hash is Some {
                Some(labels[i])
            } else {
                None
            },
    )
}

/// The groups of byte-identical files among the first `n` labels.
pub open spec fn exact_upto(rows: Seq<catalog::Row>, n: int) -> Seq<Group>
    decreases n,
{
    if n <= 0 {
        Seq::empty()
    } else {
        let members = picked(rows, clusters::class_of(exact_labels(rows), n - 1));
        if members.len() > 1 {
            exact_upto(rows, n - 1).push(group_of(DupKind::Exact, members, 0))
        } else {
            exact_upto(rows, n - 1)
        }
    }
}

/// The groups of byte-identical files.
pub open spec fn exact_of(rows: Seq<catalog::Row>) -> Seq<Group> {
    exact_upto(rows, rows.len() as int)
}

/// Whether two rows look alike: both have a perceptual hash, and the two differ
/// in at most `threshold` bits.
pub open spec fn alike(rows: Seq<catalog::Row>, threshold: nat) -> spec_fn(int, int) -> bool {
    |i: int, j: int|
        0 <= i < rows.len() && 0 <= j < rows.len() && rows[i].phash is Some && rows[j].phash is Some
            && hashing::distance(rows[i].phash->0, rows[j].phash->0) <= threshold
}

/// The label of each row with a perceptual hash: the first row that a chain of
/// rows that look alike leads to.
pub open spec fn near_labels(rows: Seq<catalog::Row>, threshold: nat) -> Seq<Option<int>> {
    let labels = clusters::link_labels(alike(rows, threshold), rows.len());
    Seq::new(
        rows.len(),
        |i: int|
            if rows[i].phash is Some {
                Some(labels[i])
            } else {
                None
            },
    )
}

/// The distance of a hash from the farthest of some rows.
pub open spec fn farthest(rows: Seq<catalog::Row>, hash: u64) -> nat
    decreases rows.len(),
{
    if rows.len() == 0 {
        0
    } else {
        let rest = farthest(rows.drop_last(), hash);
        match rows.last().phash {
            Some(h) => if hashing::distance(h, hash) > rest {
                hashing::distance(h, hash)
            } else {
                rest
            },
            None => rest,
        }
    }
}

/// The largest distance of two of some rows' perceptual hashes.
pub open spec fn spread_of(rows: Seq<catalog::Row>) -> nat
    decreases rows.len(),
{
    if rows.len() == 0 {
        0
    } else {
        let rest = spread_of(rows.drop_last());
        match rows.last().phash {
            Some(h) => if farthest(rows.drop_last(), h) > rest {
                farthest(rows.drop_last(), h)
            } else {
                rest
            },
            None => rest,
        }
    }
}

/// The groups of pictures that look alike among the first `n` labels. Where all
/// members are byte-identical, they are already an exact group.
pub open spec fn near_upto(rows: Seq<catalog::Row>, threshold: nat, n: int) -> Seq<Group>
    decreases n,
{
    if n <= 0 {
        Seq::empty()
    } else {
        let members = picked(rows, clusters::class_of(near_labels(rows, threshold), n - 1));
        if members.len() > 1 && !same_contents(members) {
            near_upto(rows, threshold, n - 1).push(
                group_of(DupKind::Near, members, spread_of(members)),
            )
        } else {
            near_upto(rows, threshold, n - 1)
        }
    }
}

/// The groups of pictures that look alike.
pub open spec fn near_of(rows: Seq<catalog::Row>, threshold: nat) -> Seq<Group> {
    near_upto(rows, threshold, rows.len() as int)
}

proof fn lemma_class_in_range(labels: Seq<Option<int>>, l: int)
    ensures
        clusters::class_of(labels, l).no_duplicates(),
        forall|k: int|
            0 <= k < clusters::class_of(labels, l).len() ==> 0 <= #[trigger] clusters::class_of(
                labels,
                l,
            )[k] < labels.len(),
{
    let c = clusters::class_of(labels, l);
    clusters::lemma_positions_with(labels, l, labels.len() as int);
    assert forall|a: int, b: int| 0 <= a < c.len() && 0 <= b < c.len() && a != b implies c[a]
        != c[b] by {
        if a < b {
            assert(c[a] < c[b]);
        } else {
            assert(c[b] < c[a]);
        }
    }
}

/// The rows of one class.
fn class_rows(rows: &[MediaRow], at: &[usize], Ghost(labels): Ghost<Seq<Option<int>>>, Ghost(l): Ghost<int>) -> (r: Vec<MediaRow>)
    requires
        labels.len() == rows@.len(),
        order::positions(at@) == clusters::class_of(labels, l),
    ensures
        catalog::rows_of(r@) == picked(catalog::rows_of(rows@), clusters::class_of(labels, l)),
        r@.len() == at@.len(),
        total_size(catalog::rows_of(r@)) <= total_size(catalog::rows_of(rows@)),
{
    proof {
        let c = clusters::class_of(labels, l);
        lemma_class_in_range(labels, l);
        lemma_total_of_picked(catalog::rows_of(rows@), c);
        assert forall|k: int| 0 <= k < at@.len() implies (#[trigger] at@[k]) < rows@.len() by {
            assert(order::positions(at@)[k] == at@[k]);
        }
    }
    let r: Vec<MediaRow> = pick_rows(rows, at);
    assert(catalog::rows_of(r@).len() == r@.len());
    r
}

/// Groups byte-identical files by content hash.
pub fn exact_groups(rows: &[MediaRow]) -> (r: Vec<DupGroup>)
    requires
        total_size(catalog::rows_of(rows@)) <= u64::MAX,
    ensures
        groups_of(r@) == exact_of(catalog::rows_of(rows@)),
        forall|i: int| 0 <= i < r@.len() ==> (#[trigger] r@[i]).members@.len() > 1,
{
    let ghost rs = catalog::rows_of(rows@);
    let ghost want = rs.map_values(|r: catalog::Row| hash_key(r));
    let n: usize = rows.len();
    let mut keys: Vec<SortKey> = Vec::new();
    let mut i: usize = 0;
    while i < n
        invariant
            n == rows@.len(),
            rs == catalog::rows_of(rows@),
            want == rs.map_values(|r: catalog::Row| hash_key(r)),
            i <= n,
            keys@.len() == i,
            forall|k: int| 0 <= k < i ==> (#[trigger] keys@[k])@ == want[k],
        decreases n - i,
    {
        let (lead, first): (Vec<char>, i128) = match &rows[i].content_hash {
            Some(h) => (chars_of(h.as_str()), 1),
            None => (Vec::new(), 0),
        };
        let key: SortKey = SortKey {
            lead,
            first,
            second: 0,
            third: 0,
            fourth: 0,
            words: Vec::new(),
        };
        assert(key@ =~= want[i as int]);
        keys.push(key);
        i += 1;
    }
    assert(order::keys_of(keys@) =~= want);
    let labels: Vec<usize> = labels_of_keys(keys.as_slice());
    assert(order::positions(labels@).len() == n);
    let ghost ls = exact_labels(rs);
    let mut owned: Vec<Option<usize>> = Vec::new();
    let mut i: usize = 0;
    while i < n
        invariant
            n == rows@.len(),
            n == labels@.len(),
            rs == catalog::rows_of(rows@),
            ls == exact_labels(rs),
            order::positions(labels@) == clusters::key_labels(
                rs.map_values(|r: catalog::Row| hash_key(r)),
            ),
            i <= n,
            owned@.len() == i,
            forall|k: int| 0 <= k < i ==> clusters::marks(owned@)[k] == #[trigger] ls[k],
            forall|k: int| 0 <= k < i && (#[trigger] owned@[k]) is Some ==> owned@[k]->0 < n,
        decreases n - i,
    {
        let ghost before = owned@;
        let mark: Option<usize> = if rows[i].content_hash.is_some() {
            Some(labels[i])
        } else {
            None
        };
        owned.push(mark);
        proof {
            assert(order::positions(labels@)[i as int] == labels@[i as int]);
            let ks = rs.map_values(|r: catalog::Row| hash_key(r));
            clusters::lemma_first_is(|j: int| ks[j] == ks[i as int], 0, n as int, i as int);
            assert forall|k: int| 0 <= k < i + 1 implies clusters::marks(owned@)[k]
                == #[trigger] ls[k] by {
                if k < i {
                    assert(clusters::marks(before)[k] == ls[k]);
                }
            }
        }
        i += 1;
    }
    assert(clusters::marks(owned@) =~= ls);
    let members: Vec<Vec<usize>> = classes(owned.as_slice());
    let mut out: Vec<DupGroup> = Vec::new();
    let mut l: usize = 0;
    assert(groups_of(out@) =~= exact_upto(rs, 0));
    while l < n
        invariant
            n == rows@.len(),
            rs == catalog::rows_of(rows@),
            total_size(rs) <= u64::MAX,
            ls == exact_labels(rs),
            members@.len() == n,
            forall|l: int|
                0 <= l < n ==> order::positions((#[trigger] members@[l])@) == clusters::class_of(
                    ls,
                    l,
                ),
            l <= n,
            groups_of(out@) == exact_upto(rs, l as int),
            forall|i: int| 0 <= i < out@.len() ==> (#[trigger] out@[i]).members@.len() > 1,
        decreases n - l,
    {
        let ghost before = out@;
        if members[l].len() > 1 {
            let picked_rows: Vec<MediaRow> = class_rows(
                rows,
                members[l].as_slice(),
                Ghost(ls),
                Ghost(l as int),
            );
            let group: DupGroup = build_group(DupKind::Exact, picked_rows.as_slice(), 0);
            let ghost g = group@;
            out.push(group);
            assert(groups_of(out@) =~= groups_of(before).push(g));
        }
        proof {
            assert(picked(rs, clusters::class_of(ls, l as int)).len() == order::positions(
                members@[l as int]@,
            ).len());
        }
        l += 1;
    }
    out
}

/// Whether all rows have the same known content hash.
pub fn all_same_content_hash(members: &[MediaRow]) -> (r: bool)
    ensures
        r == same_contents(catalog::rows_of(members@)),
{
    let ghost ms = catalog::rows_of(members@);
    if members.len() == 0 {
        return false;
    }
    assert(ms[0] == members@[0]@);
    match &members[0].content_hash {
        None => false,
        Some(first) => {
            let mut i: usize = 0;
            while i < members.len()
                invariant
                    ms == catalog::rows_of(members@),
                    i <= members@.len(),
                    members@.len() > 0,
                    ms[0].content_hash == Some(first@),
                    forall|k: int|
                        0 <= k < i ==> (#[trigger] ms[k]).content_hash == ms[0].content_hash,
                decreases members@.len() - i,
            {
                assert(ms[i as int] == members@[i as int]@);
                let same: bool = match &members[i].content_hash {
                    Some(h) => *h == *first,
                    None => false,
                };
                if !same {
                    assert(ms[i as int].content_hash != ms[0].content_hash);
                    return false;
                }
                i += 1;
            }
            true
        },
    }
}

/// The largest distance of two of some rows' perceptual hashes.
pub fn max_pairwise_distance(members: &[MediaRow]) -> (r: u32)
    ensures
        r == spread_of(catalog::rows_of(members@)),
{
    let ghost ms = catalog::rows_of(members@);
    let mut max: u32 = 0;
    let mut i: usize = 0;
    assert(ms.take(0) =~= Seq::<catalog::Row>::empty());
    while i < members.len()
        invariant
            ms == catalog::rows_of(members@),
            i <= members@.len(),
            max == spread_of(ms.take(i as int)),
        decreases members@.len() - i,
    {
        proof {
            assert(ms.take(i + 1).drop_last() =~= ms.take(i as int));
            assert(ms.take(i + 1).last() == members@[i as int]@);
        }
        if let Some(a) = members[i].phash {
            let mut far: u32 = 0;
            let mut j: usize = 0;
            assert(ms.take(0) =~= Seq::<catalog::Row>::empty());
            while j < i
                invariant
                    ms == catalog::rows_of(members@),
                    j <= i,
                    i < members@.len(),
                    far == farthest(ms.take(j as int), a),
                decreases i - j,
            {
                proof {
                    assert(ms.take(j + 1).drop_last() =~= ms.take(j as int));
                    assert(ms.take(j + 1).last() == members@[j as int]@);
                }
                if let Some(b) = members[j].phash {
                    let d: u32 = hamming(b, a);
                    if d > far {
                        far = d;
                    }
                }
                j += 1;
            }
            if far > max {
                max = far;
            }
        }
        i += 1;
    }
    assert(ms.take(i as int) =~= ms);
    max
}

/// Links each row to those that look like it.
fn link_alike(rows: &[MediaRow], threshold: u32) -> (r: UnionFind)
    ensures
        r.wf(),
        r@.len() == rows@.len(),
        clusters::only_linked(alike(catalog::rows_of(rows@), threshold as nat), r@),
        forall|i: int, j: int|
            #![trigger r@[i], r@[j]]
            alike(catalog::rows_of(rows@), threshold as nat)(i, j) ==> r@[i] == r@[j],
{
    let ghost rs = catalog::rows_of(rows@);
    let ghost edge = alike(rs, threshold as nat);
    let n: usize = rows.len();
    let mut tree: BkTree = BkTree::new();
    let mut i: usize = 0;
    while i < n
        invariant
            n == rows@.len(),
            rs == catalog::rows_of(rows@),
            i <= n,
            tree.wf(),
            forall|k: int|
                0 <= k < tree@.len() ==> (#[trigger] tree@[k]).1 < i && rs[tree@[k].1 as int].phash
                    == Some(tree@[k].0),
            forall|j: int|
                0 <= j < i && (#[trigger] rs[j]).phash is Some ==> tree@.contains(
                    (rs[j].phash->0, j as usize),
                ),
        decreases n - i,
    {
        assert(rs[i as int] == rows@[i as int]@);
        if let Some(h) = rows[i].phash {
            let ghost before = tree@;
            tree.insert(h, i);
            proof {
                assert forall|j: int|
                    0 <= j < i + 1 && (#[trigger] rs[j]).phash is Some implies tree@.contains(
                    (rs[j].phash->0, j as usize),
                ) by {
                    if j < i {
                        let e = (rs[j].phash->0, j as usize);
                        assert(before.contains(e));
                        let k = choose|k: int| 0 <= k < before.len() && before[k] == e;
                        assert(tree@[k] == e);
                    } else {
                        assert(tree@[before.len() as int] == (h, i));
                    }
                }
            }
        }
        i += 1;
    }
    let mut sets: UnionFind = UnionFind::new(n);
    proof {
        assert forall|x: int, y: int|
            0 <= x < sets@.len() && 0 <= y < sets@.len() && #[trigger] sets@[x]
                == #[trigger] sets@[y] implies clusters::linked(edge, x, y) by {
            clusters::lemma_linked_to_itself(edge, x);
        }
        lemma_alike_is_mutual(rs, threshold as nat);
    }
    let mut i: usize = 0;
    while i < n
        invariant
            n == rows@.len(),
            rs == catalog::rows_of(rows@),
            edge == alike(rs, threshold as nat),
            forall|x: int, y: int| #[trigger] edge(x, y) ==> edge(y, x),
            tree.wf(),
            forall|k: int|
                0 <= k < tree@.len() ==> (#[trigger] tree@[k]).1 < n && rs[tree@[k].1 as int].phash
                    == Some(tree@[k].0),
            forall|j: int|
                0 <= j < n && (#[trigger] rs[j]).phash is Some ==> tree@.contains(
                    (rs[j].phash->0, j as usize),
                ),
            i <= n,
            sets.wf(),
            sets@.len() == n,
            clusters::only_linked(edge, sets@),
            forall|a: int, b: int| a < i && #[trigger] edge(a, b) ==> sets@[a] == sets@[b],
        decreases n - i,
    {
        assert(rs[i as int] == rows@[i as int]@);
        if let Some(h) = rows[i].phash {
            let found: Vec<usize> = tree.within(h, threshold);
            let ghost at = choose|at: Seq<int>| #[trigger]
                hashing::picks_within(at, tree@, h, threshold as nat) && found@ == at.map_values(
                    |i: int| tree@[i].1,
                );
            proof {
                assert forall|k: int| 0 <= k < found@.len() implies (#[trigger] found@[k]) < n
                    && edge(i as int, found@[k] as int) by {
                    assert(found@[k] == tree@[at[k]].1);
                    hashing::distance_is_symmetric(h, tree@[at[k]].0);
                }
            }
            let mut k: usize = 0;
            while k < found.len()
                invariant
                    n == rows@.len(),
                    rs == catalog::rows_of(rows@),
                    edge == alike(rs, threshold as nat),
                    forall|x: int, y: int| #[trigger] edge(x, y) ==> edge(y, x),
                    i < n,
                    k <= found@.len(),
                    forall|k: int|
                        0 <= k < found@.len() ==> (#[trigger] found@[k]) < n && edge(
                            i as int,
                            found@[k] as int,
                        ),
                    sets.wf(),
                    sets@.len() == n,
                    clusters::only_linked(edge, sets@),
                    forall|a: int, b: int| a < i && #[trigger] edge(a, b) ==> sets@[a] == sets@[b],
                    forall|j: int|
                        0 <= j < k ==> sets@[(#[trigger] found@[j]) as int] == sets@[i as int],
                decreases found@.len() - k,
            {
                let other: usize = found[k];
                if other != i {
                    let ghost before = sets@;
                    proof {
                        sets.lemma_wf();
                        clusters::lemma_merge_keeps_linked(edge, before, i as int, other as int);
                    }
                    sets.union(i, other);
                    proof {
                        assert forall|a: int, b: int| a < i && #[trigger] edge(a, b) implies sets@[a]
                            == sets@[b] by {
                            assert(before[a] == before[b]);
                        }
                        assert forall|j: int| 0 <= j < k + 1 implies sets@[(
                        #[trigger] found@[j]) as int] == sets@[i as int] by {
                            let x = found@[j] as int;
                            union_find::merging_joins_exactly_two_sets(
                                before,
                                i as int,
                                other as int,
                                x,
                                i as int,
                            );
                        }
                    }
                }
                k += 1;
            }
            proof {
                assert forall|a: int, b: int| a < i + 1 && #[trigger] edge(a, b) implies sets@[a]
                    == sets@[b] by {
                    if a == i {
                        let e = (rs[b].phash->0, b as usize);
                        assert(tree@.contains(e));
                        let m = choose|m: int| 0 <= m < tree@.len() && tree@[m] == e;
                        hashing::distance_is_symmetric(h, e.0);
                        assert(hashing::distance(tree@[m].0, h) <= threshold);
                        assert(at.contains(m));
                        let q = choose|q: int| 0 <= q < at.len() && at[q] == m;
                        assert(found@[q] == b as usize);
                    }
                }
            }
        }
        i += 1;
    }
    proof {
        assert forall|x: int, y: int|
            #![trigger sets@[x], sets@[y]]
            edge(x, y) implies sets@[x] == sets@[y] by {
            assert(edge(x, y));
        }
    }
    sets
}

pub(crate) proof fn lemma_alike_is_mutual(rows: Seq<catalog::Row>, threshold: nat)
    ensures
        forall|x: int, y: int|
            #[trigger] alike(rows, threshold)(x, y) ==> alike(rows, threshold)(y, x),
{
    assert forall|x: int, y: int| #[trigger] alike(rows, threshold)(x, y) implies alike(
        rows,
        threshold,
    )(y, x) by {
        hashing::distance_is_symmetric(rows[x].phash->0, rows[y].phash->0);
    }
}

/// Groups pictures that look alike. This takes the transitive closure: if a
/// first picture matches a second and the second a third, all three are one
/// group, even where the first and third do not match.
pub fn near_groups(rows: &[MediaRow], threshold: u32) -> (r: Vec<DupGroup>)
    requires
        total_size(catalog::rows_of(rows@)) <= u64::MAX,
    ensures
        groups_of(r@) == near_of(catalog::rows_of(rows@), threshold as nat),
        forall|i: int| 0 <= i < r@.len() ==> (#[trigger] r@[i]).members@.len() > 1,
{
    let ghost rs = catalog::rows_of(rows@);
    let ghost edge = alike(rs, threshold as nat);
    let n: usize = rows.len();
    let mut sets: UnionFind = link_alike(rows, threshold);
    proof {
        lemma_alike_is_mutual(rs, threshold as nat);
        assert forall|x: int, y: int| #[trigger] edge(x, y) implies sets@[x] == sets@[y] by {}
    }
    let labels: Vec<usize> = labels_of_sets(&mut sets, Ghost(edge));
    assert(order::positions(labels@).len() == n);
    let ghost ls = near_labels(rs, threshold as nat);
    let mut owned: Vec<Option<usize>> = Vec::new();
    let mut i: usize = 0;
    while i < n
        invariant
            n == rows@.len(),
            n == labels@.len(),
            rs == catalog::rows_of(rows@),
            edge == alike(rs, threshold as nat),
            ls == near_labels(rs, threshold as nat),
            order::positions(labels@) == clusters::link_labels(edge, n as nat),
            i <= n,
            owned@.len() == i,
            forall|k: int| 0 <= k < i ==> clusters::marks(owned@)[k] == #[trigger] ls[k],
            forall|k: int| 0 <= k < i && (#[trigger] owned@[k]) is Some ==> owned@[k]->0 < n,
        decreases n - i,
    {
        let ghost before = owned@;
        let mark: Option<usize> = if rows[i].phash.is_some() {
            Some(labels[i])
        } else {
            None
        };
        owned.push(mark);
        proof {
            assert(order::positions(labels@)[i as int] == labels@[i as int]);
            clusters::lemma_linked_to_itself(edge, i as int);
            clusters::lemma_first_is(
                |j: int| clusters::linked(edge, j, i as int),
                0,
                n as int,
                i as int,
            );
            assert forall|k: int| 0 <= k < i + 1 implies clusters::marks(owned@)[k]
                == #[trigger] ls[k] by {
                if k < i {
                    assert(clusters::marks(before)[k] == ls[k]);
                }
            }
        }
        i += 1;
    }
    assert(clusters::marks(owned@) =~= ls);
    let members: Vec<Vec<usize>> = classes(owned.as_slice());
    let mut out: Vec<DupGroup> = Vec::new();
    let mut l: usize = 0;
    assert(groups_of(out@) =~= near_upto(rs, threshold as nat, 0));
    while l < n
        invariant
            n == rows@.len(),
            rs == catalog::rows_of(rows@),
            total_size(rs) <= u64::MAX,
            ls == near_labels(rs, threshold as nat),
            members@.len() == n,
            forall|l: int|
                0 <= l < n ==> order::positions((#[trigger] members@[l])@) == clusters::class_of(
                    ls,
                    l,
                ),
            l <= n,
            groups_of(out@) == near_upto(rs, threshold as nat, l as int),
            forall|i: int| 0 <= i < out@.len() ==> (#[trigger] out@[i]).members@.len() > 1,
        decreases n - l,
    {
        let ghost before = out@;
        proof {
            assert(picked(rs, clusters::class_of(ls, l as int)).len() == order::positions(
                members@[l as int]@,
            ).len());
        }
        if members[l].len() > 1 {
            let picked_rows: Vec<MediaRow> = class_rows(
                rows,
                members[l].as_slice(),
                Ghost(ls),
                Ghost(l as int),
            );
            if !all_same_content_hash(picked_rows.as_slice()) {
                let spread: u32 = max_pairwise_distance(picked_rows.as_slice());
                let group: DupGroup = build_group(DupKind::Near, picked_rows.as_slice(), spread);
                let ghost g = group@;
                out.push(group);
                assert(groups_of(out@) =~= groups_of(before).push(g));
            }
        }
        l += 1;
    }
    out
}

/// The rows with a capture time.
pub open spec fn dated(rows: Seq<catalog::Row>) -> Seq<catalog::Row>
    decreases rows.len(),
{
    if rows.len() == 0 {
        Seq::empty()
    } else if rows.last().date_taken is Some {
        dated(rows.drop_last()).push(rows.last())
    } else {
        dated(rows.drop_last())
    }
}

/// The camera that took a picture, or no name if it is unknown.
pub open spec fn camera(row: catalog::Row) -> Seq<char> {
    match row.camera_model {
        Some(m) => m,
        None => Seq::empty(),
    }
}

/// What shots are sorted by: camera, then capture time, then path.
pub open spec fn shot_key(row: catalog::Row) -> order::Key {
    order::Key {
        lead: camera(row),
        first: row.date_taken->0 as int,
        words: pathname::components(row.path),
        ..order::no_key()
    }
}

/// The shots of all cameras, each camera's in the order they were taken.
pub open spec fn shots_of(rows: Seq<catalog::Row>) -> Seq<catalog::Row> {
    let d = dated(rows);
    picked(d, order::stable_order(d.map_values(|r: catalog::Row| shot_key(r))))
}

/// Whether a shot belongs to the same burst as the one before it: the same camera
/// took it, at most `window` seconds later.
pub open spec fn extends_run(prev: catalog::Row, cur: catalog::Row, window: int) -> bool {
    camera(prev) == camera(cur) && cur.date_taken->0 - prev.date_taken->0 <= window
}

/// Where the burst that the last of some shots belongs to starts.
pub open spec fn run_start(shots: Seq<catalog::Row>, n: int, window: int) -> int
    decreases n,
{
    if n <= 1 {
        0
    } else if extends_run(shots[n - 2], shots[n - 1], window) {
        run_start(shots, n - 1, window)
    } else {
        n - 1
    }
}

/// A burst as a group, if it is one: more than one shot, and not all of them the
/// same file.
pub open spec fn burst_group(run: Seq<catalog::Row>) -> Seq<Group> {
    if run.len() > 1 && !same_contents(run) {
        seq![group_of(DupKind::Burst, run, 0)]
    } else {
        Seq::empty()
    }
}

/// The bursts among the first `n` shots that end before the last of these.
pub open spec fn closed_bursts(shots: Seq<catalog::Row>, n: int, window: int) -> Seq<Group>
    decreases n,
{
    if n <= 1 {
        Seq::empty()
    } else if extends_run(shots[n - 2], shots[n - 1], window) {
        closed_bursts(shots, n - 1, window)
    } else {
        closed_bursts(shots, n - 1, window) + burst_group(
            shots.subrange(run_start(shots, n - 1, window), n - 1),
        )
    }
}

/// The bursts among some rows.
pub open spec fn burst_of(rows: Seq<catalog::Row>, window: int) -> Seq<Group> {
    let shots = shots_of(rows);
    let n = shots.len() as int;
    closed_bursts(shots, n, window) + burst_group(
        shots.subrange(run_start(shots, n, window), n),
    )
}

fn flush_burst(run: &[MediaRow], out: &mut Vec<DupGroup>)
    requires
        total_size(catalog::rows_of(run@)) <= u64::MAX,
        forall|i: int| 0 <= i < old(out)@.len() ==> (#[trigger] old(out)@[i]).members@.len() > 1,
    ensures
        groups_of(final(out)@) == groups_of(old(out)@) + burst_group(catalog::rows_of(run@)),
        forall|i: int| 0 <= i < final(out)@.len() ==> (#[trigger] final(out)@[i]).members@.len() > 1,
{
    let ghost before = out@;
    let ghost rs = catalog::rows_of(run@);
    assert(rs.len() == run@.len());
    if run.len() > 1 && !all_same_content_hash(run) {
        let group: DupGroup = build_group(DupKind::Burst, run, 0);
        let ghost g = group@;
        out.push(group);
        assert(groups_of(out@) =~= groups_of(before) + seq![g]);
    } else {
        assert(groups_of(out@) =~= groups_of(before) + Seq::<Group>::empty());
    }
}

fn same_camera(a: &MediaRow, b: &MediaRow) -> (r: bool)
    ensures
        r == (camera(a@) == camera(b@)),
{
    match (&a.camera_model, &b.camera_model) {
        (Some(x), Some(y)) => *x == *y,
        (Some(x), None) => {
            assert(x@.len() == 0 ==> x@ =~= Seq::<char>::empty());
            x.as_str().is_empty()
        },
        (None, Some(y)) => {
            assert(y@.len() == 0 ==> y@ =~= Seq::<char>::empty());
            y.as_str().is_empty()
        },
        (None, None) => true,
    }
}

/// The shots of all cameras, each camera's in the order they were taken.
fn sorted_shots(rows: &[MediaRow]) -> (r: Vec<MediaRow>)
    ensures
        catalog::rows_of(r@) == shots_of(catalog::rows_of(rows@)),
        total_size(catalog::rows_of(r@)) <= total_size(catalog::rows_of(rows@)),
        forall|i: int| 0 <= i < r@.len() ==> (#[trigger] r@[i]).date_taken is Some,
{
    let ghost rs = catalog::rows_of(rows@);
    let mut keep: Vec<MediaRow> = Vec::new();
    let mut keys: Vec<SortKey> = Vec::new();
    let mut i: usize = 0;
    assert(rs.take(0) =~= Seq::<catalog::Row>::empty());
    assert(catalog::rows_of(keep@) =~= dated(rs.take(0)));
    assert(order::keys_of(keys@) =~= catalog::rows_of(keep@).map_values(
        |r: catalog::Row| shot_key(r),
    ));
    while i < rows.len()
        invariant
            rs == catalog::rows_of(rows@),
            i <= rows@.len(),
            catalog::rows_of(keep@) == dated(rs.take(i as int)),
            total_size(catalog::rows_of(keep@)) <= total_size(rs.take(i as int)),
            order::keys_of(keys@) == catalog::rows_of(keep@).map_values(
                |r: catalog::Row| shot_key(r),
            ),
            forall|k: int| 0 <= k < keep@.len() ==> (#[trigger] keep@[k]).date_taken is Some,
        decreases rows@.len() - i,
    {
        let row: &MediaRow = &rows[i];
        let ghost before = keep@;
        proof {
            assert(rs.take(i + 1).drop_last() =~= rs.take(i as int));
            assert(rs.take(i + 1).last() == row@);
        }
        if let Some(taken) = row.date_taken {
            let copy: MediaRow = row.clone();
            let lead: Vec<char> = match &row.camera_model {
                Some(m) => chars_of(m.as_str()),
                None => Vec::new(),
            };
            let key: SortKey = SortKey {
                lead,
                first: taken as i128,
                second: 0,
                third: 0,
                fourth: 0,
                words: components_of(row.path.as_str()),
            };
            assert(lead@ =~= camera(row@));
            assert(key@ =~= shot_key(row@));
            assert(copy@.date_taken == row@.date_taken);
            let ghost keys_before = keys@;
            keep.push(copy);
            keys.push(key);
            proof {
                assert(order::keys_of(keys@) =~= order::keys_of(keys_before).push(shot_key(row@)));
                assert(catalog::rows_of(keep@) =~= catalog::rows_of(before).push(row@));
                assert(catalog::rows_of(keep@).drop_last() =~= catalog::rows_of(before));
                assert(order::keys_of(keys@) =~= catalog::rows_of(keep@).map_values(
                    |r: catalog::Row| shot_key(r),
                ));
            }
        }
        i += 1;
    }
    assert(rs.take(i as int) =~= rs);
    let ghost d = dated(rs);
    let ghost ks = order::keys_of(keys@);
    assert(ks.len() == keys@.len());
    assert(d.len() == keep@.len());
    let order: Vec<usize> = sorted_order(keys.as_slice());
    let shots: Vec<MediaRow> = pick_rows(keep.as_slice(), order.as_slice());
    proof {
        let p = order::stable_order(ks);
        lemma_order_is_distinct(ks, p, 0, ks.len() as int);
        lemma_total_of_picked(d, p);
        assert forall|i: int| 0 <= i < shots@.len() implies (#[trigger] shots@[i]).date_taken is Some by {
            assert(shots@[i]@ == catalog::rows_of(shots@)[i]);
            assert(order::positions(order@)[i] == order@[i]);
            assert(catalog::rows_of(keep@)[order@[i] as int] == keep@[order@[i] as int]@);
            assert(keep@[order@[i] as int].date_taken is Some);
        }
    }
    shots
}

/// Groups frames that the same camera shot within `window` seconds of one
/// another.
pub fn burst_groups(rows: &[MediaRow], window: i64) -> (r: Vec<DupGroup>)
    requires
        total_size(catalog::rows_of(rows@)) <= u64::MAX,
    ensures
        groups_of(r@) == burst_of(catalog::rows_of(rows@), window as int),
        forall|i: int| 0 <= i < r@.len() ==> (#[trigger] r@[i]).members@.len() > 1,
{
    let shots: Vec<MediaRow> = sorted_shots(rows);
    let ghost ss = catalog::rows_of(shots@);
    let n: usize = shots.len();
    let mut out: Vec<DupGroup> = Vec::new();
    let mut start: usize = 0;
    let mut i: usize = 1;
    assert(groups_of(out@) =~= Seq::<Group>::empty());
    if n == 0 {
        assert(burst_of(catalog::rows_of(rows@), window as int) =~= Seq::<Group>::empty());
        return out;
    }
    while i < n
        invariant
            n > 0,
            n == shots@.len(),
            ss == catalog::rows_of(shots@),
            total_size(ss) <= u64::MAX,
            forall|i: int| 0 <= i < n ==> (#[trigger] shots@[i]).date_taken is Some,
            1 <= i <= n,
            start < i,
            start == run_start(ss, i as int, window as int),
            groups_of(out@) == closed_bursts(ss, i as int, window as int),
            forall|i: int| 0 <= i < out@.len() ==> (#[trigger] out@[i]).members@.len() > 1,
        decreases n - i,
    {
        let prev: &MediaRow = &shots[i - 1];
        let cur: &MediaRow = &shots[i];
        assert(ss[i - 1] == prev@ && ss[i as int] == cur@);
        let extends: bool = match (prev.date_taken, cur.date_taken) {
            (Some(a), Some(b)) => same_camera(prev, cur) && b as i128 - a as i128 <= window as i128,
            _ => false,
        };
        assert(shots@[i - 1].date_taken is Some && shots@[i as int].date_taken is Some);
        if !extends {
            let run: &[MediaRow] = &shots.as_slice()[start..i];
            proof {
                lemma_total_of_run(ss, start as int, i as int);
                assert(catalog::rows_of(run@) =~= ss.subrange(start as int, i as int));
            }
            flush_burst(run, &mut out);
            start = i;
        }
        i += 1;
    }
    let run: &[MediaRow] = &shots.as_slice()[start..n];
    proof {
        lemma_total_of_run(ss, start as int, n as int);
        assert(catalog::rows_of(run@) =~= ss.subrange(start as int, n as int));
    }
    flush_burst(run, &mut out);
    out
}

proof fn lemma_total_of_run(rows: Seq<catalog::Row>, lo: int, hi: int)
    requires
        0 <= lo <= hi <= rows.len(),
    ensures
        total_size(rows.subrange(lo, hi)) <= total_size(rows),
{
    let at = Seq::new((hi - lo) as nat, |k: int| lo + k);
    lemma_total_of_picked(rows, at);
    assert(picked(rows, at) =~= rows.subrange(lo, hi));
}

impl Clone for DupGroup {
    fn clone(&self) -> (r: Self)
        ensures
            r@ == self@,
            r.members@.len() == self.members@.len(),
    {
        let mut members: Vec<MediaRow> = Vec::new();
        let mut i: usize = 0;
        while i < self.members.len()
            invariant
                i <= self.members@.len(),
                members@.len() == i,
                forall|k: int| 0 <= k < i ==> (#[trigger] members@[k])@ == self.members@[k]@,
            decreases self.members@.len() - i,
        {
            members.push(self.members[i].clone());
            i += 1;
        }
        assert(catalog::rows_of(members@) =~= catalog::rows_of(self.members@));
        DupGroup {
            kind: self.kind,
            members,
            keeper: self.keeper,
            spread: self.spread,
            reclaimable: self.reclaimable,
        }
    }
}

impl DupGroup {
    /// The member that is suggested to be kept.
    pub fn keeper_row(&self) -> (r: &MediaRow)
        requires
            self.keeper < self.members@.len(),
        ensures
            r@ == self@.members[self@.keeper],
    {
        &self.members[self.keeper]
    }

    /// The members other than the suggested keeper.
    pub fn others(&self) -> (r: Vec<&MediaRow>)
        requires
            self.keeper < self.members@.len(),
        ensures
            r@.map_values(|m: &MediaRow| m@) == self@.members.remove(self@.keeper),
    {
        let ghost want = self@.members.remove(self@.keeper);
        let mut out: Vec<&MediaRow> = Vec::new();
        let mut i: usize = 0;
        while i < self.members.len()
            invariant
                self.keeper < self.members@.len(),
                want == self@.members.remove(self@.keeper),
                i <= self.members@.len(),
                out@.len() == (if i <= self.keeper {
                    i as int
                } else {
                    i - 1
                }),
                forall|k: int| 0 <= k < out@.len() ==> (#[trigger] out@[k])@ == want[k],
            decreases self.members@.len() - i,
        {
            assert(self@.members[i as int] == self.members@[i as int]@);
            if i != self.keeper {
                out.push(&self.members[i]);
            }
            i += 1;
        }
        assert(out@.map_values(|m: &MediaRow| m@) =~= want);
        out
    }
}

/// The result of a duplicate scan.
#[derive(Debug)]
pub struct DupReport {
    pub groups: Vec<DupGroup>,
}

impl View for DupReport {
    type V = Seq<Group>;

    open spec fn view(&self) -> Seq<Group> {
        groups_of(self.groups@)
    }
}

impl Default for DupReport {
    fn default() -> (r: Self)
        ensures
            r@ == Seq::<Group>::empty(),
    {
        let r: DupReport = DupReport { groups: Vec::new() };
        assert(r@ =~= Seq::<Group>::empty());
        r
    }
}

/// How many groups are of a kind.
pub open spec fn count_kind(groups: Seq<Group>, kind: DupKind) -> nat
    decreases groups.len(),
{
    if groups.len() == 0 {
        0
    } else {
        count_kind(groups.drop_last(), kind) + (if groups.last().kind == kind {
            1nat
        } else {
            0nat
        })
    }
}

/// The bytes that all groups together free.
pub open spec fn sum_reclaimable(groups: Seq<Group>) -> nat
    decreases groups.len(),
{
    if groups.len() == 0 {
        0
    } else {
        sum_reclaimable(groups.drop_last()) + groups.last().reclaimable
    }
}

/// The files that all groups together would set aside.
pub open spec fn sum_removable(groups: Seq<Group>) -> int
    decreases groups.len(),
{
    if groups.len() == 0 {
        0
    } else {
        sum_removable(groups.drop_last()) + (groups.last().members.len() - 1)
    }
}

proof fn lemma_sums_grow(groups: Seq<Group>, n: int)
    requires
        0 <= n <= groups.len(),
        forall|i: int| 0 <= i < groups.len() ==> (#[trigger] groups[i]).members.len() > 0,
    ensures
        sum_reclaimable(groups.take(n)) <= sum_reclaimable(groups),
        0 <= sum_removable(groups.take(n)) <= sum_removable(groups),
    decreases groups.len() + n,
{
    if n == groups.len() {
        assert(groups.take(n) =~= groups);
        if n > 0 {
            let rest = groups.drop_last();
            assert forall|i: int| 0 <= i < rest.len() implies (#[trigger] rest[i]).members.len()
                > 0 by {
                assert(rest[i] == groups[i]);
            }
            lemma_sums_grow(rest, n - 1);
            assert(rest.take(n - 1) =~= rest);
            assert(groups[n - 1].members.len() > 0);
        }
    } else {
        let rest = groups.drop_last();
        assert forall|i: int| 0 <= i < rest.len() implies (#[trigger] rest[i]).members.len() > 0 by {
            assert(rest[i] == groups[i]);
        }
        lemma_sums_grow(rest, n);
        assert(rest.take(n) =~= groups.take(n));
        assert(groups[groups.len() - 1].members.len() > 0);
    }
}

proof fn lemma_reclaimable_grows(groups: Seq<Group>, n: int)
    requires
        0 <= n <= groups.len(),
    ensures
        sum_reclaimable(groups.take(n)) <= sum_reclaimable(groups),
    decreases groups.len(),
{
    if n == groups.len() {
        assert(groups.take(n) =~= groups);
    } else {
        lemma_reclaimable_grows(groups.drop_last(), n);
        assert(groups.drop_last().take(n) =~= groups.take(n));
    }
}

impl DupReport {
    /// Whether nothing was found.
    pub fn is_empty(&self) -> (r: bool)
        ensures
            r == (self@.len() == 0),
    {
        self.groups.len() == 0
    }

    /// How many groups are of a kind.
    pub fn count_of(&self, kind: DupKind) -> (r: usize)
        ensures
            r == count_kind(self@, kind),
    {
        let ghost gs = self@;
        let mut count: usize = 0;
        let mut i: usize = 0;
        assert(gs.take(0) =~= Seq::<Group>::empty());
        while i < self.groups.len()
            invariant
                gs == groups_of(self.groups@),
                i <= self.groups@.len(),
                count <= i,
                count == count_kind(gs.take(i as int), kind),
            decreases self.groups@.len() - i,
        {
            proof {
                assert(gs.take(i + 1).drop_last() =~= gs.take(i as int));
                assert(gs.take(i + 1).last() == self.groups@[i as int]@);
            }
            if self.groups[i].kind == kind {
                count += 1;
            }
            i += 1;
        }
        assert(gs.take(i as int) =~= gs);
        count
    }

    /// The bytes that accepting every suggestion would free.
    pub fn total_reclaimable(&self) -> (r: u64)
        requires
            sum_reclaimable(self@) <= u64::MAX,
        ensures
            r == sum_reclaimable(self@),
    {
        let ghost gs = self@;
        let mut total: u64 = 0;
        let mut i: usize = 0;
        assert(gs.take(0) =~= Seq::<Group>::empty());
        while i < self.groups.len()
            invariant
                gs == groups_of(self.groups@),
                sum_reclaimable(gs) <= u64::MAX,
                i <= self.groups@.len(),
                total == sum_reclaimable(gs.take(i as int)),
            decreases self.groups@.len() - i,
        {
            proof {
                assert(gs.take(i + 1).drop_last() =~= gs.take(i as int));
                assert(gs.take(i + 1).last() == self.groups@[i as int]@);
                lemma_reclaimable_grows(gs, i + 1);
            }
            total += self.groups[i].reclaimable;
            i += 1;
        }
        assert(gs.take(i as int) =~= gs);
        total
    }

    /// The number of files that accepting every suggestion would set aside.
    pub fn total_removable(&self) -> (r: usize)
        requires
            forall|i: int| 0 <= i < self@.len() ==> (#[trigger] self@[i]).members.len() > 0,
            sum_removable(self@) <= usize::MAX,
        ensures
            r == sum_removable(self@),
    {
        let ghost gs = self@;
        let mut total: usize = 0;
        let mut i: usize = 0;
        assert(gs.take(0) =~= Seq::<Group>::empty());
        while i < self.groups.len()
            invariant
                gs == groups_of(self.groups@),
                forall|i: int| 0 <= i < gs.len() ==> (#[trigger] gs[i]).members.len() > 0,
                sum_removable(gs) <= usize::MAX,
                i <= self.groups@.len(),
                total == sum_removable(gs.take(i as int)),
            decreases self.groups@.len() - i,
        {
            proof {
                assert(gs.take(i + 1).drop_last() =~= gs.take(i as int));
                assert(gs.take(i + 1).last() == self.groups@[i as int]@);
                assert(gs[i as int] == self.groups@[i as int]@);
                lemma_sums_grow(gs, i + 1);
            }
            let count: usize = self.groups[i].members.len();
            assert(count == gs[i as int].members.len());
            total += count - 1;
            i += 1;
        }
        assert(gs.take(i as int) =~= gs);
        total
    }
}

/// What groups are sorted by: the strongest evidence first, then the biggest
/// gain, then the path of the first member.
pub open spec fn group_key(g: Group) -> order::Key {
    order::Key {
        first: rank(g.kind),
        second: -(g.reclaimable as int),
        words: pathname::components(g.members[0].path),
        ..order::no_key()
    }
}

/// Groups in the order in which they are reported.
pub open spec fn finished(groups: Seq<Group>) -> Seq<Group> {
    order::stable_order(groups.map_values(|g: Group| group_key(g))).map_values(|i: int| groups[i])
}

/// Orders the groups that were found.
pub fn finish(groups: Vec<DupGroup>) -> (r: DupReport)
    requires
        forall|i: int| 0 <= i < groups@.len() ==> (#[trigger] groups@[i]).members@.len() > 1,
    ensures
        r@ == finished(groups_of(groups@)),
        forall|i: int| 0 <= i < r.groups@.len() ==> (#[trigger] r.groups@[i]).members@.len() > 1,
{
    let ghost gs = groups_of(groups@);
    let ghost want = gs.map_values(|g: Group| group_key(g));
    let mut keys: Vec<SortKey> = Vec::new();
    let mut i: usize = 0;
    while i < groups.len()
        invariant
            gs == groups_of(groups@),
            want == gs.map_values(|g: Group| group_key(g)),
            forall|i: int| 0 <= i < groups@.len() ==> (#[trigger] groups@[i]).members@.len() > 1,
            i <= groups@.len(),
            keys@.len() == i,
            forall|k: int| 0 <= k < i ==> (#[trigger] keys@[k])@ == want[k],
        decreases groups@.len() - i,
    {
        let g: &DupGroup = &groups[i];
        assert(gs[i as int] == g@);
        assert(g@.members[0] == g.members@[0]@);
        let key: SortKey = SortKey {
            lead: Vec::new(),
            first: kind_rank(g.kind) as i128,
            second: -(g.reclaimable as i128),
            third: 0,
            fourth: 0,
            words: components_of(g.members[0].path.as_str()),
        };
        assert(key@ =~= want[i as int]);
        keys.push(key);
        i += 1;
    }
    assert(order::keys_of(keys@) =~= want);
    let order: Vec<usize> = sorted_order(keys.as_slice());
    let ghost done = finished(gs);
    let mut out: Vec<DupGroup> = Vec::new();
    let mut k: usize = 0;
    assert(groups_of(out@) =~= done.take(0));
    while k < order.len()
        invariant
            gs == groups_of(groups@),
            done == finished(gs),
            order::positions(order@) == order::stable_order(
                gs.map_values(|g: Group| group_key(g)),
            ),
            forall|i: int| 0 <= i < groups@.len() ==> (#[trigger] groups@[i]).members@.len() > 1,
            forall|i: int| 0 <= i < order@.len() ==> (#[trigger] order@[i]) < groups@.len(),
            k <= order@.len(),
            groups_of(out@) == done.take(k as int),
            forall|i: int| 0 <= i < out@.len() ==> (#[trigger] out@[i]).members@.len() > 1,
        decreases order@.len() - k,
    {
        let ghost before = out@;
        let group: DupGroup = groups[order[k]].clone();
        assert(order::positions(order@)[k as int] == order@[k as int]);
        assert(group@ == done[k as int]);
        let ghost g = group@;
        out.push(group);
        assert(groups_of(out@) =~= groups_of(before).push(g));
        assert(done.take(k + 1) =~= done.take(k as int).push(done[k as int]));
        k += 1;
    }
    assert(done.take(k as int) =~= done);
    DupReport { groups: out }
}

/// The groups among some rows, whatever their kinds.
pub open spec fn found(rows: Seq<catalog::Row>, cfg: DupConfig) -> Seq<Group> {
    let exact = if cfg.find_exact {
        exact_of(rows)
    } else {
        Seq::empty()
    };
    let near = if cfg.find_near {
        near_of(rows, cfg.near_threshold as nat)
    } else {
        Seq::empty()
    };
    let burst = if cfg.find_burst {
        burst_of(rows, cfg.burst_window_secs as int)
    } else {
        Seq::empty()
    };
    finished(exact + near + burst)
}

/// The rows whose kind in force is `k`.
pub open spec fn of_kind(rows: Seq<catalog::Row>, k: MediaKind) -> Seq<catalog::Row>
    decreases rows.len(),
{
    if rows.len() == 0 {
        Seq::empty()
    } else if kind::effective_kind(rows.last()) == k {
        of_kind(rows.drop_last(), k).push(rows.last())
    } else {
        of_kind(rows.drop_last(), k)
    }
}

/// The groups among some rows. With `same_kind_only` each kind is searched by
/// itself, so that a saved image never pairs with a photograph.
pub open spec fn duplicates_of(rows: Seq<catalog::Row>, cfg: DupConfig) -> Seq<Group> {
    if cfg.same_kind_only {
        finished(
            found(of_kind(rows, MediaKind::Photo), cfg) + found(
                of_kind(rows, MediaKind::Screenshot),
                cfg,
            ) + found(of_kind(rows, MediaKind::Saved), cfg),
        )
    } else {
        found(rows, cfg)
    }
}

fn append_groups(all: &mut Vec<DupGroup>, more: Vec<DupGroup>)
    requires
        forall|i: int| 0 <= i < old(all)@.len() ==> (#[trigger] old(all)@[i]).members@.len() > 1,
        forall|i: int| 0 <= i < more@.len() ==> (#[trigger] more@[i]).members@.len() > 1,
    ensures
        groups_of(final(all)@) == groups_of(old(all)@) + groups_of(more@),
        forall|i: int| 0 <= i < final(all)@.len() ==> (#[trigger] final(all)@[i]).members@.len() > 1,
{
    let mut more: Vec<DupGroup> = more;
    let ghost before = all@;
    let ghost added = more@;
    all.append(&mut more);
    assert(all@ =~= before + added);
    assert(groups_of(all@) =~= groups_of(before) + groups_of(added));
}

fn find_in(rows: &[MediaRow], cfg: &DupConfig) -> (r: DupReport)
    requires
        total_size(catalog::rows_of(rows@)) <= u64::MAX,
    ensures
        r@ == found(catalog::rows_of(rows@), *cfg),
        forall|i: int| 0 <= i < r.groups@.len() ==> (#[trigger] r.groups@[i]).members@.len() > 1,
{
    let ghost rs = catalog::rows_of(rows@);
    let mut groups: Vec<DupGroup> = Vec::new();
    assert(groups_of(groups@) =~= Seq::<Group>::empty());
    if cfg.find_exact {
        append_groups(&mut groups, exact_groups(rows));
        assert(Seq::<Group>::empty() + exact_of(rs) =~= exact_of(rs));
    }
    let ghost first = groups_of(groups@);
    if cfg.find_near {
        append_groups(&mut groups, near_groups(rows, cfg.near_threshold));
    } else {
        assert(first + Seq::<Group>::empty() =~= first);
    }
    let ghost second = groups_of(groups@);
    if cfg.find_burst {
        append_groups(&mut groups, burst_groups(rows, cfg.burst_window_secs));
    } else {
        assert(second + Seq::<Group>::empty() =~= second);
    }
    finish(groups)
}

fn rows_of_kind(rows: &[MediaRow], k: MediaKind) -> (r: Vec<MediaRow>)
    ensures
        catalog::rows_of(r@) == of_kind(catalog::rows_of(rows@), k),
        total_size(catalog::rows_of(r@)) <= total_size(catalog::rows_of(rows@)),
{
    let ghost rs = catalog::rows_of(rows@);
    let mut out: Vec<MediaRow> = Vec::new();
    let mut i: usize = 0;
    assert(rs.take(0) =~= Seq::<catalog::Row>::empty());
    assert(catalog::rows_of(out@) =~= of_kind(rs.take(0), k));
    while i < rows.len()
        invariant
            rs == catalog::rows_of(rows@),
            i <= rows@.len(),
            catalog::rows_of(out@) == of_kind(rs.take(i as int), k),
            total_size(catalog::rows_of(out@)) <= total_size(rs.take(i as int)),
        decreases rows@.len() - i,
    {
        let row: &MediaRow = &rows[i];
        let ghost before = out@;
        proof {
            assert(rs.take(i + 1).drop_last() =~= rs.take(i as int));
            assert(rs.take(i + 1).last() == row@);
        }
        if effective(row) == k {
            out.push(row.clone());
            proof {
                assert(catalog::rows_of(out@) =~= catalog::rows_of(before).push(row@));
                assert(catalog::rows_of(out@).drop_last() =~= catalog::rows_of(before));
            }
        }
        i += 1;
    }
    assert(rs.take(i as int) =~= rs);
    out
}

/// Whether the sizes of some rows add up to a number of 64 bits, as
/// [`find_duplicates`] requires.
pub fn sizes_fit(rows: &[MediaRow]) -> (r: bool)
    ensures
        r == (total_size(catalog::rows_of(rows@)) <= u64::MAX),
{
    let ghost rs = catalog::rows_of(rows@);
    let mut total: u64 = 0;
    let mut i: usize = 0;
    assert(rs.take(0) =~= Seq::<catalog::Row>::empty());
    while i < rows.len()
        invariant
            rs == catalog::rows_of(rows@),
            i <= rows@.len(),
            total == total_size(rs.take(i as int)),
        decreases rows@.len() - i,
    {
        proof {
            assert(rs.take(i + 1).drop_last() =~= rs.take(i as int));
            assert(rs.take(i + 1).last() == rows@[i as int]@);
            lemma_total_take(rs, i + 1);
        }
        match total.checked_add(rows[i].size) {
            Some(t) => {
                total = t;
            },
            None => {
                return false;
            },
        }
        i += 1;
    }
    assert(rs.take(i as int) =~= rs);
    true
}

/// Finds duplicate groups.
pub fn find_duplicates(rows: &[MediaRow], cfg: &DupConfig) -> (r: DupReport)
    requires
        total_size(catalog::rows_of(rows@)) <= u64::MAX,
    ensures
        r@ == duplicates_of(catalog::rows_of(rows@), *cfg),
        forall|i: int| 0 <= i < r.groups@.len() ==> (#[trigger] r.groups@[i]).members@.len() > 1,
{
    if !cfg.same_kind_only {
        return find_in(rows, cfg);
    }
    let photos: Vec<MediaRow> = rows_of_kind(rows, MediaKind::Photo);
    let mut groups: Vec<DupGroup> = find_in(photos.as_slice(), cfg).groups;
    let screenshots: Vec<MediaRow> = rows_of_kind(rows, MediaKind::Screenshot);
    append_groups(&mut groups, find_in(screenshots.as_slice(), cfg).groups);
    let saved: Vec<MediaRow> = rows_of_kind(rows, MediaKind::Saved);
    append_groups(&mut groups, find_in(saved.as_slice(), cfg).groups);
    finish(groups)
}

/// Whether something holds of every group.
pub open spec fn every(groups: Seq<Group>, p: spec_fn(Group) -> bool) -> bool {
    forall|i: int| 0 <= i < groups.len() ==> p(#[trigger] groups[i])
}

/// Whether something holds of every row.
pub open spec fn every_row(rows: Seq<catalog::Row>, p: spec_fn(catalog::Row) -> bool) -> bool {
    forall|i: int| 0 <= i < rows.len() ==> p(#[trigger] rows[i])
}

/// Sorting rows by path keeps them all.
pub proof fn sorting_keeps_every_row(rows: Seq<catalog::Row>, p: spec_fn(catalog::Row) -> bool)
    ensures
        by_path(rows).len() == rows.len(),
        every_row(rows, p) ==> every_row(by_path(rows), p),
        forall|i: int| 0 <= i < rows.len() ==> by_path(rows).contains(#[trigger] rows[i]),
{
    let ks = rows.map_values(|r: catalog::Row| path_key(r));
    order::stable_order_is_in_order(ks);
    let q = order::stable_order(ks);
    assert forall|i: int| 0 <= i < rows.len() implies by_path(rows).contains(#[trigger] rows[i]) by {
        assert(q.contains(i));
        let k = choose|k: int| 0 <= k < q.len() && q[k] == i;
        assert(by_path(rows)[k] == rows[i]);
    }
    if every_row(rows, p) {
        assert forall|k: int| 0 <= k < by_path(rows).len() implies p(#[trigger] by_path(rows)[k]) by {
            assert(0 <= q[k] < rows.len());
            assert(by_path(rows)[k] == rows[q[k]]);
        }
    }
}

/// Ordering the report keeps every group, and lists none after one that comes
/// later by evidence, gain and path.
pub proof fn finishing_keeps_and_orders_groups(groups: Seq<Group>, p: spec_fn(Group) -> bool)
    ensures
        finished(groups).len() == groups.len(),
        every(groups, p) ==> every(finished(groups), p),
        forall|i: int| 0 <= i < groups.len() ==> finished(groups).contains(#[trigger] groups[i]),
        forall|a: int, b: int|
            0 <= a < b < groups.len() ==> !order::key_lt(
                group_key(#[trigger] finished(groups)[b]),
                group_key(#[trigger] finished(groups)[a]),
            ),
{
    let ks = groups.map_values(|g: Group| group_key(g));
    order::stable_order_is_in_order(ks);
    let q = order::stable_order(ks);
    let done = finished(groups);
    assert forall|i: int| 0 <= i < groups.len() implies done.contains(#[trigger] groups[i]) by {
        assert(q.contains(i));
        let k = choose|k: int| 0 <= k < q.len() && q[k] == i;
        assert(done[k] == groups[i]);
    }
    if every(groups, p) {
        assert forall|k: int| 0 <= k < done.len() implies p(#[trigger] done[k]) by {
            assert(0 <= q[k] < groups.len());
            assert(done[k] == groups[q[k]]);
        }
    }
    assert forall|a: int, b: int| 0 <= a < b < groups.len() implies !order::key_lt(
        group_key(#[trigger] done[b]),
        group_key(#[trigger] done[a]),
    ) by {
        assert(order::before(ks, q[a], q[b]));
        assert(done[a] == groups[q[a]] && done[b] == groups[q[b]]);
        order::lemma_key_order(ks[q[a]], ks[q[b]], ks[q[a]]);
    }
}

/// No member of a group comes before the suggested keeper by resolution, size,
/// age and path.
pub proof fn keeper_is_never_beaten(kind: DupKind, rows: Seq<catalog::Row>, spread: nat, i: int)
    requires
        0 <= i < rows.len(),
    ensures
        ({
            let g = group_of(kind, rows, spread);
            &&& 0 <= g.keeper < g.members.len()
            &&& !order::key_lt(keeper_key(rows[i]), keeper_key(g.members[g.keeper]))
        }),
{
    let members = by_path(rows);
    sorting_keeps_every_row(rows, |r: catalog::Row| true);
    let ks = members.map_values(|r: catalog::Row| keeper_key(r));
    order::lemma_least(ks);
    assert(members.contains(rows[i]));
    let k = choose|k: int| 0 <= k < members.len() && members[k] == rows[i];
    assert(!order::key_lt(ks[k], ks[order::least(ks)]));
}

/// Which copy is suggested does not depend on the order the rows come in.
pub proof fn keeper_ignores_order(
    kind: DupKind,
    a: Seq<catalog::Row>,
    b: Seq<catalog::Row>,
    spread: nat,
)
    requires
        a.len() > 0,
        b.len() > 0,
        forall|i: int| 0 <= i < a.len() ==> b.contains(#[trigger] a[i]),
        forall|i: int| 0 <= i < b.len() ==> a.contains(#[trigger] b[i]),
    ensures
        ({
            let x = group_of(kind, a, spread);
            let y = group_of(kind, b, spread);
            keeper_key(x.members[x.keeper]) == keeper_key(y.members[y.keeper])
        }),
{
    let x = by_path(a);
    let y = by_path(b);
    lemma_same_rows(a, b);
    lemma_same_rows(b, a);
    sorting_keeps_every_row(a, |r: catalog::Row| true);
    sorting_keeps_every_row(b, |r: catalog::Row| true);
    let kx = x.map_values(|r: catalog::Row| keeper_key(r));
    let ky = y.map_values(|r: catalog::Row| keeper_key(r));
    assert forall|i: int| 0 <= i < kx.len() implies ky.contains(#[trigger] kx[i]) by {
        assert(y.contains(x[i]));
        let k = choose|k: int| 0 <= k < y.len() && y[k] == x[i];
        assert(ky[k] == kx[i]);
    }
    assert forall|i: int| 0 <= i < ky.len() implies kx.contains(#[trigger] ky[i]) by {
        assert(x.contains(y[i]));
        let k = choose|k: int| 0 <= k < x.len() && x[k] == y[i];
        assert(kx[k] == ky[i]);
    }
    order::least_ignores_order(kx, ky);
    order::lemma_least(kx);
    order::lemma_least(ky);
}

proof fn lemma_same_rows(a: Seq<catalog::Row>, b: Seq<catalog::Row>)
    requires
        forall|i: int| 0 <= i < a.len() ==> b.contains(#[trigger] a[i]),
    ensures
        forall|i: int| 0 <= i < by_path(a).len() ==> by_path(b).contains(#[trigger] by_path(a)[i]),
{
    let p = |r: catalog::Row| by_path(b).contains(r);
    sorting_keeps_every_row(b, p);
    assert forall|i: int| 0 <= i < a.len() implies p(#[trigger] a[i]) by {
        assert(b.contains(a[i]));
        let k = choose|k: int| 0 <= k < b.len() && b[k] == a[i];
        assert(by_path(b).contains(b[k]));
    }
    sorting_keeps_every_row(a, p);
    assert forall|i: int| 0 <= i < by_path(a).len() implies by_path(b).contains(
        #[trigger] by_path(a)[i],
    ) by {
        assert(p(by_path(a)[i]));
    }
}

pub(crate) proof fn lemma_same_contents_sorted(rows: Seq<catalog::Row>)
    requires
        rows.len() > 0,
    ensures
        same_contents(by_path(rows)) == same_contents(rows),
{
    let sorted = by_path(rows);
    if same_contents(rows) {
        let h = rows[0].content_hash;
        sorting_keeps_every_row(rows, |r: catalog::Row| r.content_hash == h);
        assert(forall|i: int| 0 <= i < sorted.len() ==> (#[trigger] sorted[i]).content_hash == h);
    }
    sorting_keeps_every_row(rows, |r: catalog::Row| true);
    if same_contents(sorted) {
        let h = sorted[0].content_hash;
        assert forall|i: int| 0 <= i < rows.len() implies (#[trigger] rows[i]).content_hash == h by {
            assert(sorted.contains(rows[i]));
            let k = choose|k: int| 0 <= k < sorted.len() && sorted[k] == rows[i];
            assert(sorted[k].content_hash == h);
        }
        assert(rows[0].content_hash == h);
    }
}

proof fn lemma_exact_class(rows: Seq<catalog::Row>, l: int)
    requires
        0 <= l < rows.len(),
    ensures
        ({
            let members = picked(rows, clusters::class_of(exact_labels(rows), l));
            members.len() > 0 ==> same_contents(members)
        }),
{
    let labels = exact_labels(rows);
    let at = clusters::class_of(labels, l);
    let members = picked(rows, at);
    let ks = rows.map_values(|r: catalog::Row| hash_key(r));
    clusters::lemma_positions_with(labels, l, labels.len() as int);
    assert forall|k: int| 0 <= k < at.len() implies ks[#[trigger] at[k]] == ks[l]
        && rows[at[k]].content_hash is Some by {
        let i = at[k];
        assert(labels[i] == Some(l));
        let p = |j: int| ks[j] == ks[i];
        clusters::lemma_first_is(p, 0, rows.len() as int, i);
        assert(clusters::first_where(p, 0, rows.len() as int) == l);
    }
    if members.len() > 0 {
        assert(ks[at[0]] == ks[l]);
        assert forall|i: int| 0 <= i < members.len() implies (#[trigger] members[i]).content_hash
            == members[0].content_hash by {
            assert(ks[at[i]] == ks[l]);
        }
    }
}

/// Exact groups have no false positives: all members of one have the same known
/// content hash, and there are at least two.
pub proof fn exact_groups_are_byte_identical(rows: Seq<catalog::Row>)
    ensures
        every(
            exact_of(rows),
            |g: Group| g.kind == DupKind::Exact && g.members.len() > 1 && same_contents(g.members),
        ),
{
    lemma_exact_upto(rows, rows.len() as int);
}

proof fn lemma_exact_upto(rows: Seq<catalog::Row>, n: int)
    requires
        0 <= n <= rows.len(),
    ensures
        every(
            exact_upto(rows, n),
            |g: Group| g.kind == DupKind::Exact && g.members.len() > 1 && same_contents(g.members),
        ),
    decreases n,
{
    if n > 0 {
        lemma_exact_upto(rows, n - 1);
        let members = picked(rows, clusters::class_of(exact_labels(rows), n - 1));
        if members.len() > 1 {
            lemma_exact_class(rows, n - 1);
            lemma_same_contents_sorted(members);
            sorting_keeps_every_row(members, |r: catalog::Row| true);
        }
    }
}

/// A near group is never one whose members are all the same file: those are
/// reported as exact only.
pub proof fn near_groups_are_not_byte_identical(rows: Seq<catalog::Row>, threshold: nat)
    ensures
        every(
            near_of(rows, threshold),
            |g: Group| g.kind == DupKind::Near && g.members.len() > 1 && !same_contents(g.members),
        ),
{
    lemma_near_upto(rows, threshold, rows.len() as int);
}

proof fn lemma_near_upto(rows: Seq<catalog::Row>, threshold: nat, n: int)
    requires
        0 <= n <= rows.len(),
    ensures
        every(
            near_upto(rows, threshold, n),
            |g: Group| g.kind == DupKind::Near && g.members.len() > 1 && !same_contents(g.members),
        ),
    decreases n,
{
    if n > 0 {
        lemma_near_upto(rows, threshold, n - 1);
        let members = picked(rows, clusters::class_of(near_labels(rows, threshold), n - 1));
        if members.len() > 1 && !same_contents(members) {
            lemma_same_contents_sorted(members);
            sorting_keeps_every_row(members, |r: catalog::Row| true);
        }
    }
}

/// Near grouping is transitive and goes no further: two rows with a perceptual
/// hash carry the same label exactly if a chain of rows that look alike leads
/// from one to the other.
pub proof fn near_labels_follow_chains(rows: Seq<catalog::Row>, threshold: nat, i: int, j: int)
    requires
        0 <= i < rows.len(),
        0 <= j < rows.len(),
        rows[i].phash is Some,
        rows[j].phash is Some,
    ensures
        near_labels(rows, threshold)[i] == near_labels(rows, threshold)[j] <==> clusters::linked(
            alike(rows, threshold),
            i,
            j,
        ),
{
    lemma_alike_is_mutual(rows, threshold);
    clusters::lemma_labels_follow_links(alike(rows, threshold), rows.len(), i, j);
}

/// A burst group holds more than one shot, and not only copies of one file.
pub proof fn burst_groups_are_several_shots(rows: Seq<catalog::Row>, window: int)
    ensures
        every(
            burst_of(rows, window),
            |g: Group| g.kind == DupKind::Burst && g.members.len() > 1 && !same_contents(g.members),
        ),
{
    let shots = shots_of(rows);
    let n = shots.len() as int;
    lemma_closed_bursts(shots, n, window);
    lemma_burst_group(shots.subrange(run_start(shots, n, window), n));
}

proof fn lemma_burst_group(run: Seq<catalog::Row>)
    ensures
        every(
            burst_group(run),
            |g: Group| g.kind == DupKind::Burst && g.members.len() > 1 && !same_contents(g.members),
        ),
{
    if run.len() > 1 && !same_contents(run) {
        lemma_same_contents_sorted(run);
        sorting_keeps_every_row(run, |r: catalog::Row| true);
    }
}

proof fn lemma_closed_bursts(shots: Seq<catalog::Row>, n: int, window: int)
    ensures
        every(
            closed_bursts(shots, n, window),
            |g: Group| g.kind == DupKind::Burst && g.members.len() > 1 && !same_contents(g.members),
        ),
    decreases n,
{
    if n > 1 {
        lemma_closed_bursts(shots, n - 1, window);
        if !extends_run(shots[n - 2], shots[n - 1], window) {
            lemma_burst_group(shots.subrange(run_start(shots, n - 1, window), n - 1));
        }
    }
}

/// What a scan reports: groups of kinds that were asked for only, each of at
/// least two files, and exact ones of identical files.
pub open spec fn is_sound(g: Group, cfg: DupConfig) -> bool {
    &&& g.members.len() > 1
    &&& g.kind == DupKind::Exact ==> cfg.find_exact && same_contents(g.members)
    &&& g.kind == DupKind::Near ==> cfg.find_near && !same_contents(g.members)
    &&& g.kind == DupKind::Burst ==> cfg.find_burst && !same_contents(g.members)
}

proof fn lemma_found_is_sound(rows: Seq<catalog::Row>, cfg: DupConfig)
    ensures
        every(found(rows, cfg), |g: Group| is_sound(g, cfg)),
{
    exact_groups_are_byte_identical(rows);
    near_groups_are_not_byte_identical(rows, cfg.near_threshold as nat);
    burst_groups_are_several_shots(rows, cfg.burst_window_secs as int);
    let exact = if cfg.find_exact {
        exact_of(rows)
    } else {
        Seq::empty()
    };
    let near = if cfg.find_near {
        near_of(rows, cfg.near_threshold as nat)
    } else {
        Seq::empty()
    };
    let burst = if cfg.find_burst {
        burst_of(rows, cfg.burst_window_secs as int)
    } else {
        Seq::empty()
    };
    let all = exact + near + burst;
    assert forall|i: int| 0 <= i < all.len() implies is_sound(#[trigger] all[i], cfg) by {
        if i < exact.len() {
            assert(all[i] == exact[i]);
        } else if i < exact.len() + near.len() {
            assert(all[i] == near[i - exact.len()]);
        } else {
            assert(all[i] == burst[i - exact.len() - near.len()]);
        }
    }
    finishing_keeps_and_orders_groups(all, |g: Group| is_sound(g, cfg));
}

/// A scan reports groups of the kinds that were asked for only, each of at least
/// two files; exact groups are of identical files, and the others are not.
pub proof fn reports_are_sound(rows: Seq<catalog::Row>, cfg: DupConfig)
    ensures
        every(duplicates_of(rows, cfg), |g: Group| is_sound(g, cfg)),
{
    if cfg.same_kind_only {
        let a = found(of_kind(rows, MediaKind::Photo), cfg);
        let b = found(of_kind(rows, MediaKind::Screenshot), cfg);
        let c = found(of_kind(rows, MediaKind::Saved), cfg);
        lemma_found_is_sound(of_kind(rows, MediaKind::Photo), cfg);
        lemma_found_is_sound(of_kind(rows, MediaKind::Screenshot), cfg);
        lemma_found_is_sound(of_kind(rows, MediaKind::Saved), cfg);
        let all = a + b + c;
        assert forall|i: int| 0 <= i < all.len() implies is_sound(#[trigger] all[i], cfg) by {
            if i < a.len() {
                assert(all[i] == a[i]);
            } else if i < a.len() + b.len() {
                assert(all[i] == b[i - a.len()]);
            } else {
                assert(all[i] == c[i - a.len() - b.len()]);
            }
        }
        finishing_keeps_and_orders_groups(all, |g: Group| is_sound(g, cfg));
    } else {
        lemma_found_is_sound(rows, cfg);
    }
}

proof fn lemma_picked_keeps(rows: Seq<catalog::Row>, at: Seq<int>, p: spec_fn(catalog::Row) -> bool)
    requires
        every_row(rows, p),
        forall|k: int| 0 <= k < at.len() ==> 0 <= #[trigger] at[k] < rows.len(),
    ensures
        every_row(by_path(picked(rows, at)), p),
{
    let some = picked(rows, at);
    assert forall|k: int| 0 <= k < some.len() implies p(#[trigger] some[k]) by {
        assert(some[k] == rows[at[k]]);
    }
    sorting_keeps_every_row(some, p);
}

proof fn lemma_exact_members(rows: Seq<catalog::Row>, n: int, p: spec_fn(catalog::Row) -> bool)
    requires
        every_row(rows, p),
        0 <= n <= rows.len(),
    ensures
        every(exact_upto(rows, n), |g: Group| every_row(g.members, p)),
    decreases n,
{
    if n > 0 {
        lemma_exact_members(rows, n - 1, p);
        lemma_class_in_range(exact_labels(rows), n - 1);
        lemma_picked_keeps(rows, clusters::class_of(exact_labels(rows), n - 1), p);
    }
}

proof fn lemma_near_members(
    rows: Seq<catalog::Row>,
    threshold: nat,
    n: int,
    p: spec_fn(catalog::Row) -> bool,
)
    requires
        every_row(rows, p),
        0 <= n <= rows.len(),
    ensures
        every(near_upto(rows, threshold, n), |g: Group| every_row(g.members, p)),
    decreases n,
{
    if n > 0 {
        lemma_near_members(rows, threshold, n - 1, p);
        lemma_class_in_range(near_labels(rows, threshold), n - 1);
        lemma_picked_keeps(rows, clusters::class_of(near_labels(rows, threshold), n - 1), p);
    }
}

proof fn lemma_dated_keeps(rows: Seq<catalog::Row>, p: spec_fn(catalog::Row) -> bool)
    requires
        every_row(rows, p),
    ensures
        every_row(dated(rows), p),
    decreases rows.len(),
{
    if rows.len() > 0 {
        let rest = rows.drop_last();
        assert forall|i: int| 0 <= i < rest.len() implies p(#[trigger] rest[i]) by {
            assert(rest[i] == rows[i]);
        }
        lemma_dated_keeps(rest, p);
        assert(p(rows[rows.len() - 1]));
    }
}

proof fn lemma_shots_keep(rows: Seq<catalog::Row>, p: spec_fn(catalog::Row) -> bool)
    requires
        every_row(rows, p),
    ensures
        every_row(shots_of(rows), p),
{
    lemma_dated_keeps(rows, p);
    let d = dated(rows);
    let ks = d.map_values(|r: catalog::Row| shot_key(r));
    order::stable_order_is_in_order(ks);
    let q = order::stable_order(ks);
    assert forall|k: int| 0 <= k < shots_of(rows).len() implies p(#[trigger] shots_of(rows)[k]) by {
        assert(0 <= q[k] < d.len());
        assert(shots_of(rows)[k] == d[q[k]]);
    }
}

proof fn lemma_run_members(run: Seq<catalog::Row>, p: spec_fn(catalog::Row) -> bool)
    requires
        every_row(run, p),
    ensures
        every(burst_group(run), |g: Group| every_row(g.members, p)),
{
    sorting_keeps_every_row(run, p);
}

proof fn lemma_run_start(shots: Seq<catalog::Row>, n: int, window: int)
    requires
        0 <= n,
    ensures
        0 <= run_start(shots, n, window) <= n,
    decreases n,
{
    if n > 1 {
        lemma_run_start(shots, n - 1, window);
    }
}

proof fn lemma_subrange_keeps(rows: Seq<catalog::Row>, lo: int, hi: int, p: spec_fn(catalog::Row) -> bool)
    requires
        every_row(rows, p),
        0 <= lo <= hi <= rows.len(),
    ensures
        every_row(rows.subrange(lo, hi), p),
{
    let some = rows.subrange(lo, hi);
    assert forall|k: int| 0 <= k < some.len() implies p(#[trigger] some[k]) by {
        assert(some[k] == rows[lo + k]);
    }
}

proof fn lemma_closed_members(
    shots: Seq<catalog::Row>,
    n: int,
    window: int,
    p: spec_fn(catalog::Row) -> bool,
)
    requires
        every_row(shots, p),
        0 <= n <= shots.len(),
    ensures
        every(closed_bursts(shots, n, window), |g: Group| every_row(g.members, p)),
    decreases n,
{
    if n > 1 {
        lemma_closed_members(shots, n - 1, window, p);
        if !extends_run(shots[n - 2], shots[n - 1], window) {
            lemma_run_start(shots, n - 1, window);
            let start = run_start(shots, n - 1, window);
            lemma_subrange_keeps(shots, start, n - 1, p);
            lemma_run_members(shots.subrange(start, n - 1), p);
        }
    }
}

proof fn lemma_found_members(
    rows: Seq<catalog::Row>,
    cfg: DupConfig,
    p: spec_fn(catalog::Row) -> bool,
)
    requires
        every_row(rows, p),
    ensures
        every(found(rows, cfg), |g: Group| every_row(g.members, p)),
{
    let t = cfg.near_threshold as nat;
    let w = cfg.burst_window_secs as int;
    lemma_exact_members(rows, rows.len() as int, p);
    lemma_near_members(rows, t, rows.len() as int, p);
    lemma_shots_keep(rows, p);
    let shots = shots_of(rows);
    let n = shots.len() as int;
    lemma_closed_members(shots, n, w, p);
    lemma_run_start(shots, n, w);
    lemma_subrange_keeps(shots, run_start(shots, n, w), n, p);
    lemma_run_members(shots.subrange(run_start(shots, n, w), n), p);
    let exact = if cfg.find_exact {
        exact_of(rows)
    } else {
        Seq::empty()
    };
    let near = if cfg.find_near {
        near_of(rows, t)
    } else {
        Seq::empty()
    };
    let burst = if cfg.find_burst {
        burst_of(rows, w)
    } else {
        Seq::empty()
    };
    let all = exact + near + burst;
    assert forall|i: int| 0 <= i < all.len() implies every_row((#[trigger] all[i]).members, p) by {
        if i < exact.len() {
            assert(all[i] == exact[i]);
        } else if i < exact.len() + near.len() {
            assert(all[i] == near[i - exact.len()]);
        } else {
            assert(all[i] == burst[i - exact.len() - near.len()]);
        }
    }
    finishing_keeps_and_orders_groups(all, |g: Group| every_row(g.members, p));
}

proof fn lemma_of_kind_keeps(
    rows: Seq<catalog::Row>,
    k: MediaKind,
    p: spec_fn(catalog::Row) -> bool,
)
    requires
        every_row(rows, p),
    ensures
        every_row(of_kind(rows, k), p),
    decreases rows.len(),
{
    if rows.len() > 0 {
        let rest = rows.drop_last();
        assert forall|i: int| 0 <= i < rest.len() implies p(#[trigger] rest[i]) by {
            assert(rest[i] == rows[i]);
        }
        lemma_of_kind_keeps(rest, k, p);
        assert(p(rows[rows.len() - 1]));
    }
}

/// Whatever holds of all rows holds of all members: a scan reports nothing but
/// what it was given.
pub proof fn groups_hold_given_rows_only(
    rows: Seq<catalog::Row>,
    cfg: DupConfig,
    p: spec_fn(catalog::Row) -> bool,
)
    requires
        every_row(rows, p),
    ensures
        every(duplicates_of(rows, cfg), |g: Group| every_row(g.members, p)),
{
    if cfg.same_kind_only {
        let a = found(of_kind(rows, MediaKind::Photo), cfg);
        let b = found(of_kind(rows, MediaKind::Screenshot), cfg);
        let c = found(of_kind(rows, MediaKind::Saved), cfg);
        lemma_of_kind_keeps(rows, MediaKind::Photo, p);
        lemma_of_kind_keeps(rows, MediaKind::Screenshot, p);
        lemma_of_kind_keeps(rows, MediaKind::Saved, p);
        lemma_found_members(of_kind(rows, MediaKind::Photo), cfg, p);
        lemma_found_members(of_kind(rows, MediaKind::Screenshot), cfg, p);
        lemma_found_members(of_kind(rows, MediaKind::Saved), cfg, p);
        let all = a + b + c;
        assert forall|i: int| 0 <= i < all.len() implies every_row(
            (#[trigger] all[i]).members,
            p,
        ) by {
            if i < a.len() {
                assert(all[i] == a[i]);
            } else if i < a.len() + b.len() {
                assert(all[i] == b[i - a.len()]);
            } else {
                assert(all[i] == c[i - a.len() - b.len()]);
            }
        }
        finishing_keeps_and_orders_groups(all, |g: Group| every_row(g.members, p));
    } else {
        lemma_found_members(rows, cfg, p);
    }
}

/// Whether all members of a group are of one kind.
pub open spec fn is_of_one_kind(g: Group) -> bool {
    exists|k: MediaKind|
        every_row(g.members, #[trigger] has_kind(k))
}

/// Whether a row's kind in force is `k`.
pub open spec fn has_kind(k: MediaKind) -> spec_fn(catalog::Row) -> bool {
    |r: catalog::Row| kind::effective_kind(r) == k
}

proof fn lemma_of_kind(rows: Seq<catalog::Row>, k: MediaKind)
    ensures
        every_row(of_kind(rows, k), has_kind(k)),
    decreases rows.len(),
{
    if rows.len() > 0 {
        lemma_of_kind(rows.drop_last(), k);
    }
}

/// With `same_kind_only` no group mixes kinds: a saved image is never grouped
/// with a photograph.
pub proof fn kinds_are_kept_apart(rows: Seq<catalog::Row>, cfg: DupConfig)
    requires
        cfg.same_kind_only,
    ensures
        every(duplicates_of(rows, cfg), |g: Group| is_of_one_kind(g)),
{
    let a = found(of_kind(rows, MediaKind::Photo), cfg);
    let b = found(of_kind(rows, MediaKind::Screenshot), cfg);
    let c = found(of_kind(rows, MediaKind::Saved), cfg);
    lemma_of_kind(rows, MediaKind::Photo);
    lemma_of_kind(rows, MediaKind::Screenshot);
    lemma_of_kind(rows, MediaKind::Saved);
    lemma_found_members(of_kind(rows, MediaKind::Photo), cfg, has_kind(MediaKind::Photo));
    lemma_found_members(of_kind(rows, MediaKind::Screenshot), cfg, has_kind(MediaKind::Screenshot));
    lemma_found_members(of_kind(rows, MediaKind::Saved), cfg, has_kind(MediaKind::Saved));
    let all = a + b + c;
    assert forall|i: int| 0 <= i < all.len() implies is_of_one_kind(#[trigger] all[i]) by {
        if i < a.len() {
            assert(all[i] == a[i]);
            assert(every_row(a[i].members, has_kind(MediaKind::Photo)));
        } else if i < a.len() + b.len() {
            assert(all[i] == b[i - a.len()]);
            assert(every_row(b[i - a.len()].members, has_kind(MediaKind::Screenshot)));
        } else {
            let j = i - a.len() - b.len();
            assert(all[i] == c[j]);
            assert(every_row(c[j].members, has_kind(MediaKind::Saved)));
        }
    }
    finishing_keeps_and_orders_groups(all, |g: Group| is_of_one_kind(g));
}

/// The reports on each kind by itself, one after the other.
pub open spec fn kind_by_kind(rows: Seq<catalog::Row>, cfg: DupConfig) -> Seq<Group> {
    let each = DupConfig { same_kind_only: false, ..cfg };
    duplicates_of(of_kind(rows, MediaKind::Photo), each) + duplicates_of(
        of_kind(rows, MediaKind::Screenshot),
        each,
    ) + duplicates_of(of_kind(rows, MediaKind::Saved), each)
}

/// With `same_kind_only` the report is that on each kind by itself: the same groups, put
/// in the order of the report.
pub proof fn each_kind_is_searched_by_itself(rows: Seq<catalog::Row>, cfg: DupConfig)
    requires
        cfg.same_kind_only,
    ensures
        duplicates_of(rows, cfg) == finished(kind_by_kind(rows, cfg)),
        duplicates_of(rows, cfg).to_multiset() == kind_by_kind(rows, cfg).to_multiset(),
{
    let all = kind_by_kind(rows, cfg);
    let keys = all.map_values(|g: Group| group_key(g));
    order::rearranging_keeps_every_item(all, keys);
    assert(finished(all) =~= order::rearranged(all, keys));
}

/// Whether a group is of a kind and has two rows among its members.
pub open spec fn has_both(g: Group, kind: DupKind, x: catalog::Row, y: catalog::Row) -> bool {
    g.kind == kind && g.members.contains(x) && g.members.contains(y)
}

/// Whether two rows are in one group of a kind.
pub open spec fn grouped(
    groups: Seq<Group>,
    kind: DupKind,
    x: catalog::Row,
    y: catalog::Row,
) -> bool {
    exists|i: int| 0 <= i < groups.len() && has_both(#[trigger] groups[i], kind, x, y)
}

proof fn lemma_grouped_in_sum(
    a: Seq<Group>,
    b: Seq<Group>,
    kind: DupKind,
    x: catalog::Row,
    y: catalog::Row,
)
    requires
        grouped(a, kind, x, y) || grouped(b, kind, x, y),
    ensures
        grouped(a + b, kind, x, y),
{
    if grouped(a, kind, x, y) {
        let i = choose|i: int| 0 <= i < a.len() && has_both(#[trigger] a[i], kind, x, y);
        assert((a + b)[i] == a[i]);
    } else {
        let i = choose|i: int| 0 <= i < b.len() && has_both(#[trigger] b[i], kind, x, y);
        assert((a + b)[a.len() + i] == b[i]);
    }
}

proof fn lemma_grouped_in_report(
    groups: Seq<Group>,
    kind: DupKind,
    x: catalog::Row,
    y: catalog::Row,
)
    requires
        grouped(groups, kind, x, y),
    ensures
        grouped(finished(groups), kind, x, y),
{
    let i = choose|i: int| 0 <= i < groups.len() && has_both(#[trigger] groups[i], kind, x, y);
    finishing_keeps_and_orders_groups(groups, |g: Group| true);
    assert(finished(groups).contains(groups[i]));
    let k = choose|k: int| 0 <= k < finished(groups).len() && finished(groups)[k] == groups[i];
    assert(has_both(finished(groups)[k], kind, x, y));
}

proof fn lemma_class_has_both(
    rows: Seq<catalog::Row>,
    labels: Seq<Option<int>>,
    l: int,
    i: int,
    j: int,
)
    requires
        labels.len() == rows.len(),
        0 <= i < rows.len(),
        0 <= j < rows.len(),
        i != j,
        labels[i] == Some(l),
        labels[j] == Some(l),
    ensures
        ({
            let members = picked(rows, clusters::class_of(labels, l));
            &&& members.len() > 1
            &&& members.contains(rows[i]) && members.contains(rows[j])
            &&& by_path(members).contains(rows[i]) && by_path(members).contains(rows[j])
        }),
{
    let at = clusters::class_of(labels, l);
    let members = picked(rows, at);
    clusters::lemma_positions_with(labels, l, labels.len() as int);
    assert(at.contains(i) && at.contains(j));
    let a = choose|a: int| 0 <= a < at.len() && at[a] == i;
    let b = choose|b: int| 0 <= b < at.len() && at[b] == j;
    assert(members[a] == rows[i] && members[b] == rows[j]);
    sorting_keeps_every_row(members, |r: catalog::Row| true);
    assert(by_path(members).contains(members[a]) && by_path(members).contains(members[b]));
}

proof fn lemma_copies_found_upto(rows: Seq<catalog::Row>, n: int, i: int, j: int)
    requires
        0 <= i < rows.len(),
        0 <= j < rows.len(),
        i != j,
        rows[i].content_hash is Some,
        rows[i].content_hash == rows[j].content_hash,
        exact_labels(rows)[i]->0 < n <= rows.len(),
    ensures
        grouped(exact_upto(rows, n), DupKind::Exact, rows[i], rows[j]),
    decreases n,
{
    let labels = exact_labels(rows);
    let ks = rows.map_values(|r: catalog::Row| hash_key(r));
    assert(ks[i] == ks[j]);
    let p = |k: int| ks[k] == ks[i];
    let q = |k: int| ks[k] == ks[j];
    clusters::lemma_first_is(p, 0, rows.len() as int, i);
    clusters::lemma_first_is(q, 0, rows.len() as int, j);
    let l = clusters::first_where(p, 0, rows.len() as int);
    let m = clusters::first_where(q, 0, rows.len() as int);
    assert(l == m) by {
        if l < m {
            assert(q(l));
        }
        if m < l {
            assert(p(m));
        }
    }
    assert(labels[i] == Some(l) && labels[j] == Some(l));
    let before = exact_upto(rows, n - 1);
    let now = exact_upto(rows, n);
    if l == n - 1 {
        lemma_class_has_both(rows, labels, l, i, j);
        assert(has_both(now[before.len() as int], DupKind::Exact, rows[i], rows[j]));
    } else {
        lemma_copies_found_upto(rows, n - 1, i, j);
        let k = choose|k: int|
            0 <= k < before.len() && has_both(
                #[trigger] before[k],
                DupKind::Exact,
                rows[i],
                rows[j],
            );
        assert(now[k] == before[k]);
    }
}

proof fn lemma_copies_found(rows: Seq<catalog::Row>, cfg: DupConfig, i: int, j: int)
    requires
        cfg.find_exact,
        0 <= i < rows.len(),
        0 <= j < rows.len(),
        i != j,
        rows[i].content_hash is Some,
        rows[i].content_hash == rows[j].content_hash,
    ensures
        grouped(found(rows, cfg), DupKind::Exact, rows[i], rows[j]),
{
    let ks = rows.map_values(|r: catalog::Row| hash_key(r));
    let p = |k: int| ks[k] == ks[i];
    clusters::lemma_first_is(p, 0, rows.len() as int, i);
    assert(exact_labels(rows)[i] == Some(clusters::first_where(p, 0, rows.len() as int)));
    lemma_copies_found_upto(rows, rows.len() as int, i, j);
    lemma_in_report(rows, cfg, DupKind::Exact, rows[i], rows[j]);
}

/// What is in a group of a kind that was asked for is in the report.
proof fn lemma_in_report(
    rows: Seq<catalog::Row>,
    cfg: DupConfig,
    kind: DupKind,
    x: catalog::Row,
    y: catalog::Row,
)
    requires
        match kind {
            DupKind::Exact => cfg.find_exact && grouped(exact_of(rows), kind, x, y),
            DupKind::Near => cfg.find_near && grouped(
                near_of(rows, cfg.near_threshold as nat),
                kind,
                x,
                y,
            ),
            DupKind::Burst => cfg.find_burst && grouped(
                burst_of(rows, cfg.burst_window_secs as int),
                kind,
                x,
                y,
            ),
        },
    ensures
        grouped(found(rows, cfg), kind, x, y),
{
    let exact = if cfg.find_exact {
        exact_of(rows)
    } else {
        Seq::empty()
    };
    let near = if cfg.find_near {
        near_of(rows, cfg.near_threshold as nat)
    } else {
        Seq::empty()
    };
    let burst = if cfg.find_burst {
        burst_of(rows, cfg.burst_window_secs as int)
    } else {
        Seq::empty()
    };
    if kind != DupKind::Burst {
        lemma_grouped_in_sum(exact, near, kind, x, y);
    }
    lemma_grouped_in_sum(exact + near, burst, kind, x, y);
    lemma_grouped_in_report(exact + near + burst, kind, x, y);
}

/// Where two rows of one kind come to stand among the rows of that kind.
proof fn lemma_among_kind(rows: Seq<catalog::Row>, k: MediaKind, i: int, j: int) -> (at: (int, int))
    requires
        0 <= i < j < rows.len(),
        kind::effective_kind(rows[i]) == k,
        kind::effective_kind(rows[j]) == k,
    ensures
        0 <= at.0 < at.1 < of_kind(rows, k).len(),
        of_kind(rows, k)[at.0] == rows[i],
        of_kind(rows, k)[at.1] == rows[j],
    decreases rows.len(),
{
    let rest = rows.drop_last();
    if j < rows.len() - 1 {
        lemma_among_kind(rest, k, i, j)
    } else {
        (lemma_one_among_kind(rest, k, i), of_kind(rest, k).len() as int)
    }
}

proof fn lemma_one_among_kind(rows: Seq<catalog::Row>, k: MediaKind, i: int) -> (at: int)
    requires
        0 <= i < rows.len(),
        kind::effective_kind(rows[i]) == k,
    ensures
        0 <= at < of_kind(rows, k).len(),
        of_kind(rows, k)[at] == rows[i],
    decreases rows.len(),
{
    if i < rows.len() - 1 {
        lemma_one_among_kind(rows.drop_last(), k, i)
    } else {
        of_kind(rows.drop_last(), k).len() as int
    }
}

/// What is reported for the rows of one kind is reported for all rows.
proof fn lemma_kind_in_report(
    rows: Seq<catalog::Row>,
    cfg: DupConfig,
    k: MediaKind,
    dup: DupKind,
    x: catalog::Row,
    y: catalog::Row,
)
    requires
        cfg.same_kind_only,
        grouped(found(of_kind(rows, k), cfg), dup, x, y),
    ensures
        grouped(duplicates_of(rows, cfg), dup, x, y),
{
    let a = found(of_kind(rows, MediaKind::Photo), cfg);
    let b = found(of_kind(rows, MediaKind::Screenshot), cfg);
    let c = found(of_kind(rows, MediaKind::Saved), cfg);
    if k != MediaKind::Saved {
        lemma_grouped_in_sum(a, b, dup, x, y);
    }
    lemma_grouped_in_sum(a + b, c, dup, x, y);
    lemma_grouped_in_report(a + b + c, dup, x, y);
}

/// Whether two rows may be grouped with each other: they are of one kind, if kinds are
/// kept apart.
pub open spec fn may_pair(cfg: DupConfig, x: catalog::Row, y: catalog::Row) -> bool {
    cfg.same_kind_only ==> kind::effective_kind(x) == kind::effective_kind(y)
}

/// Identical files are always found: two rows with the same known content hash are in
/// one exact group.
pub proof fn copies_are_always_found(rows: Seq<catalog::Row>, cfg: DupConfig, i: int, j: int)
    requires
        cfg.find_exact,
        0 <= i < j < rows.len(),
        may_pair(cfg, rows[i], rows[j]),
        rows[i].content_hash is Some,
        rows[i].content_hash == rows[j].content_hash,
    ensures
        grouped(duplicates_of(rows, cfg), DupKind::Exact, rows[i], rows[j]),
{
    if cfg.same_kind_only {
        let k = kind::effective_kind(rows[i]);
        let (a, b) = lemma_among_kind(rows, k, i, j);
        lemma_copies_found(of_kind(rows, k), cfg, a, b);
        lemma_kind_in_report(rows, cfg, k, DupKind::Exact, rows[i], rows[j]);
    } else {
        lemma_copies_found(rows, cfg, i, j);
    }
}

/// Whether two rows are known to be the same file.
pub open spec fn known_copies(x: catalog::Row, y: catalog::Row) -> bool {
    x.content_hash is Some && x.content_hash == y.content_hash
}

proof fn lemma_differing_contents(rows: Seq<catalog::Row>, x: catalog::Row, y: catalog::Row)
    requires
        rows.contains(x),
        rows.contains(y),
        !known_copies(x, y),
    ensures
        !same_contents(rows),
{
    let a = choose|a: int| 0 <= a < rows.len() && rows[a] == x;
    let b = choose|b: int| 0 <= b < rows.len() && rows[b] == y;
    if same_contents(rows) {
        assert(rows[a].content_hash == rows[0].content_hash);
        assert(rows[b].content_hash == rows[0].content_hash);
    }
}

proof fn lemma_near_found_upto(rows: Seq<catalog::Row>, threshold: nat, n: int, l: int, i: int, j: int)
    requires
        0 <= i < rows.len(),
        0 <= j < rows.len(),
        i != j,
        near_labels(rows, threshold)[i] == Some(l),
        near_labels(rows, threshold)[j] == Some(l),
        !known_copies(rows[i], rows[j]),
        0 <= l < n <= rows.len(),
    ensures
        grouped(near_upto(rows, threshold, n), DupKind::Near, rows[i], rows[j]),
    decreases n,
{
    let labels = near_labels(rows, threshold);
    let before = near_upto(rows, threshold, n - 1);
    let now = near_upto(rows, threshold, n);
    if l == n - 1 {
        lemma_class_has_both(rows, labels, l, i, j);
        lemma_differing_contents(picked(rows, clusters::class_of(labels, l)), rows[i], rows[j]);
        assert(has_both(now[before.len() as int], DupKind::Near, rows[i], rows[j]));
    } else {
        lemma_near_found_upto(rows, threshold, n - 1, l, i, j);
        let k = choose|k: int|
            0 <= k < before.len() && has_both(
                #[trigger] before[k],
                DupKind::Near,
                rows[i],
                rows[j],
            );
        assert(now[k] == before[k]);
    }
}

proof fn lemma_look_alikes_found(rows: Seq<catalog::Row>, cfg: DupConfig, i: int, j: int)
    requires
        cfg.find_near,
        0 <= i < rows.len(),
        0 <= j < rows.len(),
        i != j,
        alike(rows, cfg.near_threshold as nat)(i, j),
        !known_copies(rows[i], rows[j]),
    ensures
        grouped(found(rows, cfg), DupKind::Near, rows[i], rows[j]),
{
    let t = cfg.near_threshold as nat;
    clusters::lemma_close_is_linked(alike(rows, t), i, j);
    near_labels_follow_chains(rows, t, i, j);
    lemma_alike_is_mutual(rows, t);
    clusters::lemma_labels_follow_links(alike(rows, t), rows.len(), i, j);
    let l = clusters::link_labels(alike(rows, t), rows.len())[i];
    lemma_near_found_upto(rows, t, rows.len() as int, l, i, j);
    lemma_in_report(rows, cfg, DupKind::Near, rows[i], rows[j]);
}

/// Pictures that look alike are always found: two rows whose perceptual hashes differ by
/// no more than the tolerance are in one near group, unless they are known to be the
/// same file.
pub proof fn look_alikes_are_always_found(rows: Seq<catalog::Row>, cfg: DupConfig, i: int, j: int)
    requires
        cfg.find_near,
        0 <= i < j < rows.len(),
        may_pair(cfg, rows[i], rows[j]),
        alike(rows, cfg.near_threshold as nat)(i, j),
        !known_copies(rows[i], rows[j]),
    ensures
        grouped(duplicates_of(rows, cfg), DupKind::Near, rows[i], rows[j]),
{
    if cfg.same_kind_only {
        let k = kind::effective_kind(rows[i]);
        let (a, b) = lemma_among_kind(rows, k, i, j);
        lemma_look_alikes_found(of_kind(rows, k), cfg, a, b);
        lemma_kind_in_report(rows, cfg, k, DupKind::Near, rows[i], rows[j]);
    } else {
        lemma_look_alikes_found(rows, cfg, i, j);
    }
}

/// Where two rows with a capture time come to stand among such rows.
proof fn lemma_among_dated(rows: Seq<catalog::Row>, i: int, j: int) -> (at: (int, int))
    requires
        0 <= i < j < rows.len(),
        rows[i].date_taken is Some,
        rows[j].date_taken is Some,
    ensures
        0 <= at.0 < at.1 < dated(rows).len(),
        dated(rows)[at.0] == rows[i],
        dated(rows)[at.1] == rows[j],
    decreases rows.len(),
{
    let rest = rows.drop_last();
    if j < rows.len() - 1 {
        lemma_among_dated(rest, i, j)
    } else {
        (lemma_one_among_dated(rest, i), dated(rest).len() as int)
    }
}

proof fn lemma_one_among_dated(rows: Seq<catalog::Row>, i: int) -> (at: int)
    requires
        0 <= i < rows.len(),
        rows[i].date_taken is Some,
    ensures
        0 <= at < dated(rows).len(),
        dated(rows)[at] == rows[i],
    decreases rows.len(),
{
    if i < rows.len() - 1 {
        lemma_one_among_dated(rows.drop_last(), i)
    } else {
        dated(rows.drop_last()).len() as int
    }
}

/// Where two rows with a capture time come to stand among the shots.
proof fn lemma_among_shots(rows: Seq<catalog::Row>, i: int, j: int) -> (at: (int, int))
    requires
        0 <= i < j < rows.len(),
        rows[i].date_taken is Some,
        rows[j].date_taken is Some,
    ensures
        0 <= at.0 < shots_of(rows).len(),
        0 <= at.1 < shots_of(rows).len(),
        at.0 != at.1,
        shots_of(rows)[at.0] == rows[i],
        shots_of(rows)[at.1] == rows[j],
{
    let (x, y) = lemma_among_dated(rows, i, j);
    let d = dated(rows);
    let ks = d.map_values(|r: catalog::Row| shot_key(r));
    order::stable_order_is_in_order(ks);
    let q = order::stable_order(ks);
    assert(q.contains(x) && q.contains(y));
    let a = choose|a: int| 0 <= a < q.len() && q[a] == x;
    let b = choose|b: int| 0 <= b < q.len() && q[b] == y;
    (a, b)
}

/// Shots are listed by camera, and those of one camera by time.
proof fn lemma_shots_in_order(rows: Seq<catalog::Row>, a: int, b: int)
    requires
        0 <= a < b < shots_of(rows).len(),
    ensures
        ({
            let x = shots_of(rows)[a];
            let y = shots_of(rows)[b];
            if camera(x) == camera(y) {
                x.date_taken->0 <= y.date_taken->0
            } else {
                order::text_lt(camera(x), camera(y))
            }
        }),
{
    let d = dated(rows);
    let ks = d.map_values(|r: catalog::Row| shot_key(r));
    order::stable_order_is_in_order(ks);
    let q = order::stable_order(ks);
    assert(0 <= q[a] < d.len() && 0 <= q[b] < d.len());
    assert(order::before(ks, q[a], q[b]));
    order::lemma_key_order(ks[q[a]], ks[q[b]], ks[q[a]]);
    order::lemma_text_lt_total(ks[q[a]].lead, ks[q[b]].lead);
    assert(!order::key_lt(ks[q[b]], ks[q[a]]));
}

/// Between two shots of one camera that are close in time, each shot belongs to the
/// burst of the one before it.
proof fn lemma_run_between(rows: Seq<catalog::Row>, window: int, a: int, b: int, k: int)
    requires
        0 <= a < k <= b < shots_of(rows).len(),
        camera(shots_of(rows)[a]) == camera(shots_of(rows)[b]),
        shots_of(rows)[b].date_taken->0 - shots_of(rows)[a].date_taken->0 <= window,
    ensures
        extends_run(shots_of(rows)[k - 1], shots_of(rows)[k], window),
{
    let shots = shots_of(rows);
    lemma_of_one_camera(rows, a, b, k);
    if k - 1 > a {
        lemma_of_one_camera(rows, a, b, k - 1);
        lemma_shots_in_order(rows, a, k - 1);
    }
    if k < b {
        lemma_shots_in_order(rows, k, b);
    }
}

proof fn lemma_of_one_camera(rows: Seq<catalog::Row>, a: int, b: int, k: int)
    requires
        0 <= a < k <= b < shots_of(rows).len(),
        camera(shots_of(rows)[a]) == camera(shots_of(rows)[b]),
    ensures
        camera(shots_of(rows)[k]) == camera(shots_of(rows)[a]),
{
    if k < b {
        lemma_shots_in_order(rows, a, k);
        lemma_shots_in_order(rows, k, b);
        order::lemma_text_lt_asym(camera(shots_of(rows)[a]), camera(shots_of(rows)[k]));
    }
}

proof fn lemma_run_reaches_back(rows: Seq<catalog::Row>, window: int, a: int, b: int, n: int)
    requires
        0 <= a < n <= b + 1,
        a < b < shots_of(rows).len(),
        camera(shots_of(rows)[a]) == camera(shots_of(rows)[b]),
        shots_of(rows)[b].date_taken->0 - shots_of(rows)[a].date_taken->0 <= window,
    ensures
        0 <= run_start(shots_of(rows), n, window) <= a,
    decreases n,
{
    let shots = shots_of(rows);
    lemma_run_start(shots, n, window);
    if n > a + 1 {
        lemma_run_reaches_back(rows, window, a, b, n - 1);
        lemma_run_between(rows, window, a, b, n - 1);
    } else if n > 1 {
        lemma_run_start(shots, n - 1, window);
    }
}

proof fn lemma_run_has_both(shots: Seq<catalog::Row>, lo: int, hi: int, a: int, b: int)
    requires
        0 <= lo <= a < b < hi <= shots.len(),
        !known_copies(shots[a], shots[b]),
    ensures
        grouped(burst_group(shots.subrange(lo, hi)), DupKind::Burst, shots[a], shots[b]),
{
    let run = shots.subrange(lo, hi);
    assert(run[a - lo] == shots[a] && run[b - lo] == shots[b]);
    lemma_differing_contents(run, shots[a], shots[b]);
    sorting_keeps_every_row(run, |r: catalog::Row| true);
    assert(by_path(run).contains(run[a - lo]) && by_path(run).contains(run[b - lo]));
    assert(has_both(burst_group(run)[0], DupKind::Burst, shots[a], shots[b]));
}

proof fn lemma_burst_is_closed(rows: Seq<catalog::Row>, window: int, a: int, b: int, n: int)
    requires
        0 <= a < b < n <= shots_of(rows).len(),
        camera(shots_of(rows)[a]) == camera(shots_of(rows)[b]),
        shots_of(rows)[b].date_taken->0 - shots_of(rows)[a].date_taken->0 <= window,
        !known_copies(shots_of(rows)[a], shots_of(rows)[b]),
    ensures
        0 <= run_start(shots_of(rows), n, window) <= a || grouped(
            closed_bursts(shots_of(rows), n, window),
            DupKind::Burst,
            shots_of(rows)[a],
            shots_of(rows)[b],
        ),
    decreases n,
{
    let shots = shots_of(rows);
    if n == b + 1 {
        lemma_run_reaches_back(rows, window, a, b, n);
    } else {
        lemma_burst_is_closed(rows, window, a, b, n - 1);
        if !extends_run(shots[n - 2], shots[n - 1], window) {
            let start = run_start(shots, n - 1, window);
            if 0 <= start <= a {
                lemma_run_has_both(shots, start, n - 1, a, b);
            }
            lemma_grouped_in_sum(
                closed_bursts(shots, n - 1, window),
                burst_group(shots.subrange(start, n - 1)),
                DupKind::Burst,
                shots[a],
                shots[b],
            );
        }
    }
}

proof fn lemma_shots_found(rows: Seq<catalog::Row>, window: int, a: int, b: int)
    requires
        0 <= a < b < shots_of(rows).len(),
        camera(shots_of(rows)[a]) == camera(shots_of(rows)[b]),
        shots_of(rows)[b].date_taken->0 - shots_of(rows)[a].date_taken->0 <= window,
        !known_copies(shots_of(rows)[a], shots_of(rows)[b]),
    ensures
        grouped(
            burst_of(rows, window),
            DupKind::Burst,
            shots_of(rows)[a],
            shots_of(rows)[b],
        ),
{
    let shots = shots_of(rows);
    let n = shots.len() as int;
    lemma_burst_is_closed(rows, window, a, b, n);
    let start = run_start(shots, n, window);
    if 0 <= start <= a {
        lemma_run_has_both(shots, start, n, a, b);
    }
    lemma_grouped_in_sum(
        closed_bursts(shots, n, window),
        burst_group(shots.subrange(start, n)),
        DupKind::Burst,
        shots[a],
        shots[b],
    );
}

/// Whether one camera took two pictures within some seconds of each other.
pub open spec fn shot_together(x: catalog::Row, y: catalog::Row, window: int) -> bool {
    &&& x.date_taken is Some && y.date_taken is Some
    &&& camera(x) == camera(y)
    &&& -window <= x.date_taken->0 - y.date_taken->0 <= window
}

proof fn lemma_bursts_found(rows: Seq<catalog::Row>, cfg: DupConfig, i: int, j: int)
    requires
        cfg.find_burst,
        0 <= i < j < rows.len(),
        shot_together(rows[i], rows[j], cfg.burst_window_secs as int),
        !known_copies(rows[i], rows[j]),
    ensures
        grouped(found(rows, cfg), DupKind::Burst, rows[i], rows[j]),
{
    let w = cfg.burst_window_secs as int;
    let (a, b) = lemma_among_shots(rows, i, j);
    if a < b {
        lemma_shots_found(rows, w, a, b);
    } else {
        lemma_shots_found(rows, w, b, a);
        let groups = burst_of(rows, w);
        let k = choose|k: int|
            0 <= k < groups.len() && has_both(
                #[trigger] groups[k],
                DupKind::Burst,
                rows[j],
                rows[i],
            );
        assert(has_both(groups[k], DupKind::Burst, rows[i], rows[j]));
    }
    lemma_in_report(rows, cfg, DupKind::Burst, rows[i], rows[j]);
}

/// Frames of a burst are always found: two pictures that one camera took within the
/// window are in one burst group, unless they are known to be the same file.
pub proof fn bursts_are_always_found(rows: Seq<catalog::Row>, cfg: DupConfig, i: int, j: int)
    requires
        cfg.find_burst,
        0 <= i < j < rows.len(),
        may_pair(cfg, rows[i], rows[j]),
        shot_together(rows[i], rows[j], cfg.burst_window_secs as int),
        !known_copies(rows[i], rows[j]),
    ensures
        grouped(duplicates_of(rows, cfg), DupKind::Burst, rows[i], rows[j]),
{
    if cfg.same_kind_only {
        let k = kind::effective_kind(rows[i]);
        let (a, b) = lemma_among_kind(rows, k, i, j);
        lemma_bursts_found(of_kind(rows, k), cfg, a, b);
        lemma_kind_in_report(rows, cfg, k, DupKind::Burst, rows[i], rows[j]);
    } else {
        lemma_bursts_found(rows, cfg, i, j);
    }
}

/// How far the perceptual hashes of two rows are apart, where both have one.
pub open spec fn difference(x: catalog::Row, y: catalog::Row) -> Option<nat> {
    match (x.phash, y.phash) {
        (Some(a), Some(b)) => Some(hashing::distance(a, b)),
        _ => None,
    }
}

proof fn lemma_farthest(rows: Seq<catalog::Row>, hash: u64)
    ensures
        forall|i: int|
            0 <= i < rows.len() && (#[trigger] rows[i]).phash is Some ==> hashing::distance(
                rows[i].phash->0,
                hash,
            ) <= farthest(rows, hash),
        farthest(rows, hash) > 0 ==> exists|i: int|
            0 <= i < rows.len() && (#[trigger] rows[i]).phash is Some && hashing::distance(
                rows[i].phash->0,
                hash,
            ) == farthest(rows, hash),
    decreases rows.len(),
{
    if rows.len() > 0 {
        let rest = rows.drop_last();
        lemma_farthest(rest, hash);
        assert forall|i: int|
            0 <= i < rows.len() && (#[trigger] rows[i]).phash is Some implies hashing::distance(
            rows[i].phash->0,
            hash,
        ) <= farthest(rows, hash) by {
            if i < rest.len() {
                assert(rest[i] == rows[i]);
            }
        }
        if farthest(rows, hash) > 0 {
            if farthest(rows, hash) == farthest(rest, hash) {
                let i = choose|i: int|
                    0 <= i < rest.len() && (#[trigger] rest[i]).phash is Some && hashing::distance(
                        rest[i].phash->0,
                        hash,
                    ) == farthest(rest, hash);
                assert(rows[i] == rest[i]);
            } else {
                assert(rows[rows.len() - 1].phash is Some);
            }
        }
    }
}

/// What a near group is said to span is the widest difference in it: no two members
/// differ more, and unless it is zero two differ as much.
pub proof fn spread_is_the_widest_difference(rows: Seq<catalog::Row>)
    ensures
        forall|i: int, j: int|
            0 <= i < j < rows.len() && (#[trigger] difference(rows[i], rows[j])) is Some
                ==> difference(rows[i], rows[j])->0 <= spread_of(rows),
        spread_of(rows) > 0 ==> exists|i: int, j: int|
            0 <= i < j < rows.len() && #[trigger] difference(rows[i], rows[j]) == Some(
                spread_of(rows),
            ),
    decreases rows.len(),
{
    if rows.len() > 0 {
        let rest = rows.drop_last();
        let last = rows.len() - 1;
        spread_is_the_widest_difference(rest);
        if rows[last].phash is Some {
            lemma_farthest(rest, rows[last].phash->0);
        }
        assert forall|i: int, j: int|
            0 <= i < j < rows.len() && (#[trigger] difference(
                rows[i],
                rows[j],
            )) is Some implies difference(rows[i], rows[j])->0 <= spread_of(rows) by {
            assert(rest[i] == rows[i]);
            if j < last {
                assert(rest[j] == rows[j]);
                assert(difference(rest[i], rest[j]) is Some);
            }
        }
        if spread_of(rows) > 0 {
            if spread_of(rows) == spread_of(rest) {
                let (i, j) = choose|i: int, j: int|
                    0 <= i < j < rest.len() && #[trigger] difference(rest[i], rest[j]) == Some(
                        spread_of(rest),
                    );
                assert(rows[i] == rest[i] && rows[j] == rest[j]);
                assert(difference(rows[i], rows[j]) == Some(spread_of(rows)));
            } else {
                let hash = rows[last].phash->0;
                let i = choose|i: int|
                    0 <= i < rest.len() && (#[trigger] rest[i]).phash is Some && hashing::distance(
                        rest[i].phash->0,
                        hash,
                    ) == farthest(rest, hash);
                assert(rows[i] == rest[i]);
                assert(difference(rows[i], rows[last]) == Some(spread_of(rows)));
            }
        }
    }
}

/// A chain of members, each close to the one before it, from one member to another.
pub open spec fn is_chain(
    members: Seq<catalog::Row>,
    chain: Seq<catalog::Row>,
    tolerance: nat,
    x: catalog::Row,
    y: catalog::Row,
) -> bool {
    &&& chain.len() > 0 && chain[0] == x && chain.last() == y
    &&& forall|k: int| 0 <= k < chain.len() ==> members.contains(#[trigger] chain[k])
    &&& forall|k: int|
        0 <= k < chain.len() - 1 ==> (#[trigger] chain[k]).phash is Some && chain[k + 1].phash is Some
            && hashing::distance(chain[k].phash->0, chain[k + 1].phash->0) <= tolerance
}

/// Whether such a chain leads from one row to another.
pub open spec fn has_chain(
    members: Seq<catalog::Row>,
    tolerance: nat,
    x: catalog::Row,
    y: catalog::Row,
) -> bool {
    exists|chain: Seq<catalog::Row>| is_chain(members, chain, tolerance, x, y)
}

/// Whether such chains join every two of some rows.
pub open spec fn is_chained(run: Seq<catalog::Row>, tolerance: nat) -> bool {
    forall|a: int, b: int|
        0 <= a < run.len() && 0 <= b < run.len() ==> has_chain(
            run,
            tolerance,
            #[trigger] run[a],
            #[trigger] run[b],
        )
}

/// Whether some rows are shots of one camera, one after the other, with no more than
/// some seconds between each two that follow one another.
pub open spec fn is_burst(run: Seq<catalog::Row>, seconds: int) -> bool {
    &&& forall|k: int|
        0 <= k < run.len() ==> (#[trigger] run[k]).date_taken is Some && camera(run[k]) == camera(
            run[0],
        )
    &&& forall|k: int|
        0 <= k < run.len() - 1 ==> 0 <= run[k + 1].date_taken->0 - (
        #[trigger] run[k]).date_taken->0 <= seconds
}

/// Whether a group is made of some rows, as its kind asks for.
spec fn is_made_of(g: Group, run: Seq<catalog::Row>, cfg: DupConfig) -> bool {
    &&& run.len() > 1
    &&& g == group_of(g.kind, run, g.spread)
    &&& g.kind == DupKind::Near ==> is_chained(run, cfg.near_threshold as nat)
    &&& g.kind == DupKind::Burst ==> is_burst(run, cfg.burst_window_secs as int)
    &&& g.spread == if g.kind == DupKind::Near {
        spread_of(run)
    } else {
        0
    }
}

spec fn is_made(g: Group, cfg: DupConfig) -> bool {
    exists|run: Seq<catalog::Row>| is_made_of(g, run, cfg)
}

proof fn lemma_class_is_chained(rows: Seq<catalog::Row>, threshold: nat, l: int)
    ensures
        is_chained(picked(rows, clusters::class_of(near_labels(rows, threshold), l)), threshold),
{
    let labels = near_labels(rows, threshold);
    let at = clusters::class_of(labels, l);
    let run = picked(rows, at);
    let edge = alike(rows, threshold);
    lemma_alike_is_mutual(rows, threshold);
    clusters::lemma_positions_with(labels, l, labels.len() as int);
    assert forall|a: int, b: int| 0 <= a < run.len() && 0 <= b < run.len() implies has_chain(
        run,
        threshold,
        #[trigger] run[a],
        #[trigger] run[b],
    ) by {
        let i = at[a];
        let j = at[b];
        assert(labels[i] == Some(l) && labels[j] == Some(l));
        clusters::lemma_labels_follow_links(edge, rows.len(), i, j);
        let walk = choose|walk: Seq<int>| #[trigger]
            clusters::is_walk(edge, walk) && walk[0] == i && walk.last() == j;
        let chain = walk.map_values(|k: int| rows[k]);
        assert forall|k: int| 0 <= k < chain.len() implies run.contains(#[trigger] chain[k]) by {
            let part = walk.take(k + 1);
            assert forall|n: int| 0 <= n < part.len() - 1 implies edge(
                #[trigger] part[n],
                part[n + 1],
            ) by {
                assert(part[n] == walk[n] && part[n + 1] == walk[n + 1]);
            }
            assert(clusters::is_walk(edge, part));
            assert(part[0] == i && part.last() == walk[k]);
            assert(clusters::linked(edge, i, walk[k]));
            if k > 0 {
                assert(edge(walk[k - 1], walk[k - 1 + 1]));
            }
            clusters::lemma_labels_follow_links(edge, rows.len(), i, walk[k]);
            assert(labels[walk[k]] == Some(l));
            assert(at.contains(walk[k]));
            let m = choose|m: int| 0 <= m < at.len() && at[m] == walk[k];
            assert(run[m] == chain[k]);
        }
        assert forall|k: int| 0 <= k < chain.len() - 1 implies (
        #[trigger] chain[k]).phash is Some && chain[k + 1].phash is Some && hashing::distance(
            chain[k].phash->0,
            chain[k + 1].phash->0,
        ) <= threshold by {
            assert(edge(walk[k], walk[k + 1]));
        }
        assert(is_chain(run, chain, threshold, run[a], run[b]));
    }
}

proof fn lemma_near_made(rows: Seq<catalog::Row>, cfg: DupConfig, n: int)
    requires
        0 <= n <= rows.len(),
    ensures
        every(near_upto(rows, cfg.near_threshold as nat, n), |g: Group| is_made(g, cfg)),
    decreases n,
{
    if n > 0 {
        let t = cfg.near_threshold as nat;
        lemma_near_made(rows, cfg, n - 1);
        lemma_class_is_chained(rows, t, n - 1);
        let members = picked(rows, clusters::class_of(near_labels(rows, t), n - 1));
        let g = group_of(DupKind::Near, members, spread_of(members));
        if members.len() > 1 {
            assert(is_made_of(g, members, cfg));
        }
    }
}

proof fn lemma_exact_made(rows: Seq<catalog::Row>, cfg: DupConfig, n: int)
    requires
        0 <= n <= rows.len(),
    ensures
        every(exact_upto(rows, n), |g: Group| is_made(g, cfg)),
    decreases n,
{
    if n > 0 {
        lemma_exact_made(rows, cfg, n - 1);
        let members = picked(rows, clusters::class_of(exact_labels(rows), n - 1));
        let g = group_of(DupKind::Exact, members, 0);
        if members.len() > 1 {
            assert(is_made_of(g, members, cfg));
        }
    }
}

proof fn lemma_run_extends(shots: Seq<catalog::Row>, n: int, window: int, k: int)
    requires
        run_start(shots, n, window) <= k < n - 1,
    ensures
        extends_run(shots[k], shots[k + 1], window),
    decreases n,
{
    if k < n - 2 {
        lemma_run_extends(shots, n - 1, window, k);
    }
}

proof fn lemma_run_has_one_camera(shots: Seq<catalog::Row>, n: int, window: int, j: int, k: int)
    requires
        run_start(shots, n, window) <= j <= k < n,
    ensures
        camera(shots[j]) == camera(shots[k]),
    decreases k - j,
{
    if j < k {
        lemma_run_has_one_camera(shots, n, window, j, k - 1);
        lemma_run_extends(shots, n, window, k - 1);
    }
}

proof fn lemma_run_made(rows: Seq<catalog::Row>, cfg: DupConfig, n: int)
    requires
        0 <= n <= shots_of(rows).len(),
    ensures
        ({
            let shots = shots_of(rows);
            let start = run_start(shots, n, cfg.burst_window_secs as int);
            every(burst_group(shots.subrange(start, n)), |g: Group| is_made(g, cfg))
        }),
{
    let shots = shots_of(rows);
    let w = cfg.burst_window_secs as int;
    let start = run_start(shots, n, w);
    let run = shots.subrange(start, n);
    lemma_run_start(shots, n, w);
    if run.len() > 1 {
        lemma_run_is_burst(rows, cfg.burst_window_secs as int, n);
        let g = group_of(DupKind::Burst, run, 0);
        assert(is_made_of(g, run, cfg));
    }
}

proof fn lemma_run_is_burst(rows: Seq<catalog::Row>, window: int, n: int)
    requires
        0 <= n <= shots_of(rows).len(),
    ensures
        is_burst(shots_of(rows).subrange(run_start(shots_of(rows), n, window), n), window),
{
    let shots = shots_of(rows);
    let start = run_start(shots, n, window);
    let run = shots.subrange(start, n);
    lemma_run_start(shots, n, window);
    lemma_dated_shots(rows);
    assert forall|k: int| 0 <= k < run.len() implies (#[trigger] run[k]).date_taken is Some && camera(
        run[k],
    ) == camera(run[0]) by {
        assert(run[k] == shots[start + k]);
        lemma_run_has_one_camera(shots, n, window, start, start + k);
    }
    assert forall|k: int| 0 <= k < run.len() - 1 implies 0 <= run[k + 1].date_taken->0 - (
    #[trigger] run[k]).date_taken->0 <= window by {
        assert(run[k] == shots[start + k] && run[k + 1] == shots[start + k + 1]);
        lemma_run_extends(shots, n, window, start + k);
        lemma_shots_in_order(rows, start + k, start + k + 1);
    }
}

proof fn lemma_all_dated(rows: Seq<catalog::Row>)
    ensures
        every_row(dated(rows), |r: catalog::Row| r.date_taken is Some),
    decreases rows.len(),
{
    if rows.len() > 0 {
        lemma_all_dated(rows.drop_last());
    }
}

proof fn lemma_dated_shots(rows: Seq<catalog::Row>)
    ensures
        every_row(shots_of(rows), |r: catalog::Row| r.date_taken is Some),
{
    lemma_all_dated(rows);
    let d = dated(rows);
    let ks = d.map_values(|r: catalog::Row| shot_key(r));
    order::stable_order_is_in_order(ks);
    let q = order::stable_order(ks);
    assert forall|k: int| 0 <= k < shots_of(rows).len() implies (
    #[trigger] shots_of(rows)[k]).date_taken is Some by {
        assert(0 <= q[k] < d.len());
        assert(shots_of(rows)[k] == d[q[k]]);
    }
}

proof fn lemma_closed_made(rows: Seq<catalog::Row>, cfg: DupConfig, n: int)
    requires
        0 <= n <= shots_of(rows).len(),
    ensures
        every(
            closed_bursts(shots_of(rows), n, cfg.burst_window_secs as int),
            |g: Group| is_made(g, cfg),
        ),
    decreases n,
{
    let shots = shots_of(rows);
    if n > 1 {
        lemma_closed_made(rows, cfg, n - 1);
        if !extends_run(shots[n - 2], shots[n - 1], cfg.burst_window_secs as int) {
            lemma_run_made(rows, cfg, n - 1);
        }
    }
}

proof fn lemma_found_made(rows: Seq<catalog::Row>, cfg: DupConfig)
    ensures
        every(found(rows, cfg), |g: Group| is_made(g, cfg)),
{
    let t = cfg.near_threshold as nat;
    let w = cfg.burst_window_secs as int;
    lemma_exact_made(rows, cfg, rows.len() as int);
    lemma_near_made(rows, cfg, rows.len() as int);
    let shots = shots_of(rows);
    let n = shots.len() as int;
    lemma_closed_made(rows, cfg, n);
    lemma_run_made(rows, cfg, n);
    let exact = if cfg.find_exact {
        exact_of(rows)
    } else {
        Seq::empty()
    };
    let near = if cfg.find_near {
        near_of(rows, t)
    } else {
        Seq::empty()
    };
    let burst = if cfg.find_burst {
        burst_of(rows, w)
    } else {
        Seq::empty()
    };
    let all = exact + near + burst;
    assert forall|i: int| 0 <= i < all.len() implies is_made(#[trigger] all[i], cfg) by {
        if i < exact.len() {
            assert(all[i] == exact[i]);
        } else if i < exact.len() + near.len() {
            assert(all[i] == near[i - exact.len()]);
        } else {
            assert(all[i] == burst[i - exact.len() - near.len()]);
        }
    }
    finishing_keeps_and_orders_groups(all, |g: Group| is_made(g, cfg));
}

proof fn lemma_reported_made(rows: Seq<catalog::Row>, cfg: DupConfig)
    ensures
        every(duplicates_of(rows, cfg), |g: Group| is_made(g, cfg)),
{
    if cfg.same_kind_only {
        let a = found(of_kind(rows, MediaKind::Photo), cfg);
        let b = found(of_kind(rows, MediaKind::Screenshot), cfg);
        let c = found(of_kind(rows, MediaKind::Saved), cfg);
        lemma_found_made(of_kind(rows, MediaKind::Photo), cfg);
        lemma_found_made(of_kind(rows, MediaKind::Screenshot), cfg);
        lemma_found_made(of_kind(rows, MediaKind::Saved), cfg);
        let all = a + b + c;
        assert forall|i: int| 0 <= i < all.len() implies is_made(#[trigger] all[i], cfg) by {
            if i < a.len() {
                assert(all[i] == a[i]);
            } else if i < a.len() + b.len() {
                assert(all[i] == b[i - a.len()]);
            } else {
                assert(all[i] == c[i - a.len() - b.len()]);
            }
        }
        finishing_keeps_and_orders_groups(all, |g: Group| is_made(g, cfg));
    } else {
        lemma_found_made(rows, cfg);
    }
}

proof fn lemma_group_is_made(rows: Seq<catalog::Row>, cfg: DupConfig, i: int) -> (run: Seq<
    catalog::Row,
>)
    requires
        0 <= i < duplicates_of(rows, cfg).len(),
    ensures
        is_made_of(duplicates_of(rows, cfg)[i], run, cfg),
        duplicates_of(rows, cfg)[i].members == by_path(run),
        duplicates_of(rows, cfg)[i].members.len() == run.len(),
        duplicates_of(rows, cfg)[i].members.to_multiset() == run.to_multiset(),
{
    lemma_reported_made(rows, cfg);
    let g = duplicates_of(rows, cfg)[i];
    assert(is_made(g, cfg));
    let run = choose|run: Seq<catalog::Row>| is_made_of(g, run, cfg);
    sorting_keeps_every_row(run, |r: catalog::Row| true);
    let keys = run.map_values(|r: catalog::Row| path_key(r));
    order::rearranging_keeps_every_item(run, keys);
    assert(order::rearranged(run, keys) =~= by_path(run));
    run
}

/// The file that a group suggests to keep has at least as many pixels as any other: width
/// times height, and none where they are not known. Of those with as many it is one of the
/// largest files, of these one of the oldest, of these one with the shortest path, and of
/// these the first by path.
pub proof fn keepers_have_the_most_pixels(rows: Seq<catalog::Row>, cfg: DupConfig, i: int, k: int)
    requires
        0 <= i < duplicates_of(rows, cfg).len(),
        0 <= k < duplicates_of(rows, cfg)[i].members.len(),
    ensures
        ({
            let g = duplicates_of(rows, cfg)[i];
            let best = g.members[g.keeper];
            let m = g.members[k];
            let kept = if best.width is Some && best.height is Some {
                best.width->0 * best.height->0
            } else {
                0
            };
            let other = if m.width is Some && m.height is Some {
                m.width->0 * m.height->0
            } else {
                0
            };
            let kept_len = encode_utf8(best.path).len();
            let other_len = encode_utf8(m.path).len();
            &&& 0 <= g.keeper < g.members.len()
            &&& other <= kept
            &&& other == kept ==> m.size <= best.size
            &&& other == kept && m.size == best.size ==> m.mtime >= best.mtime
            &&& other == kept && m.size == best.size && m.mtime == best.mtime ==> other_len
                >= kept_len
            &&& other == kept && m.size == best.size && m.mtime == best.mtime && other_len
                == kept_len ==> !order::words_lt(
                pathname::components(m.path),
                pathname::components(best.path),
            )
        }),
{
    let g = duplicates_of(rows, cfg)[i];
    let run = lemma_group_is_made(rows, cfg, i);
    let ks = g.members.map_values(|r: catalog::Row| keeper_key(r));
    order::lemma_least(ks);
    assert(!order::key_lt(ks[k], ks[order::least(ks)]));
    let best = g.members[g.keeper];
    let m = g.members[k];
    assert(ks[k] == keeper_key(m) && ks[g.keeper] == keeper_key(best));
    assert(best.width is Some && best.height is Some ==> 0 <= best.width->0 * best.height->0)
        by (nonlinear_arith);
    assert(m.width is Some && m.height is Some ==> 0 <= m.width->0 * m.height->0)
        by (nonlinear_arith);
}

/// A group lists its members by path, and what it says can be freed is what the members
/// take up together but for the one it suggests to keep.
pub proof fn groups_free_all_but_the_keeper(rows: Seq<catalog::Row>, cfg: DupConfig, i: int)
    requires
        0 <= i < duplicates_of(rows, cfg).len(),
    ensures
        ({
            let g = duplicates_of(rows, cfg)[i];
            &&& g.members.len() >= 2
            &&& g.reclaimable == g.members.remove(g.keeper).fold_left(
                0,
                |n: int, r: catalog::Row| n + r.size,
            )
            &&& forall|a: int, b: int|
                0 <= a < b < g.members.len() ==> !order::words_lt(
                    pathname::components((#[trigger] g.members[b]).path),
                    pathname::components((#[trigger] g.members[a]).path),
                )
        }),
{
    let g = duplicates_of(rows, cfg)[i];
    let run = lemma_group_is_made(rows, cfg, i);
    let keys = run.map_values(|r: catalog::Row| path_key(r));
    let at = order::sorting_goes_by_key(run, keys);
    assert(order::rearranged(run, keys) =~= by_path(run));
    assert forall|a: int, b: int| 0 <= a < b < g.members.len() implies !order::words_lt(
        pathname::components((#[trigger] g.members[b]).path),
        pathname::components((#[trigger] g.members[a]).path),
    ) by {
        assert(at[a] != at[b]);
        assert(order::rearranged(run, keys)[a] == run[at[a]]);
        assert(order::rearranged(run, keys)[b] == run[at[b]]);
    }
    keepers_have_the_most_pixels(rows, cfg, i, 0);
    lemma_total_remove(g.members, g.keeper);
    lemma_sizes_add_up(g.members.remove(g.keeper));
}

proof fn lemma_sizes_add_up(rows: Seq<catalog::Row>)
    ensures
        total_size(rows) == rows.fold_left(0, |n: int, r: catalog::Row| n + r.size),
    decreases rows.len(),
{
    if rows.len() > 0 {
        lemma_sizes_add_up(rows.drop_last());
    }
}

/// A report lists identical files first, then files that look alike, then bursts; groups
/// of one kind by what they free, the most first, and where that is equal by the path of
/// their first members.
pub proof fn reports_go_by_evidence_and_gain(
    rows: Seq<catalog::Row>,
    cfg: DupConfig,
    a: int,
    b: int,
)
    requires
        0 <= a < b < duplicates_of(rows, cfg).len(),
    ensures
        ({
            let x = duplicates_of(rows, cfg)[a];
            let y = duplicates_of(rows, cfg)[b];
            &&& y.kind == DupKind::Exact ==> x.kind == DupKind::Exact
            &&& x.kind == DupKind::Burst ==> y.kind == DupKind::Burst
            &&& x.kind == y.kind ==> x.reclaimable >= y.reclaimable
            &&& x.kind == y.kind && x.reclaimable == y.reclaimable ==> !order::words_lt(
                pathname::components(y.members[0].path),
                pathname::components(x.members[0].path),
            )
        }),
{
    if cfg.same_kind_only {
        finishing_keeps_and_orders_groups(
            found(of_kind(rows, MediaKind::Photo), cfg) + found(
                of_kind(rows, MediaKind::Screenshot),
                cfg,
            ) + found(of_kind(rows, MediaKind::Saved), cfg),
            |g: Group| true,
        );
    } else {
        let exact = if cfg.find_exact {
            exact_of(rows)
        } else {
            Seq::empty()
        };
        let near = if cfg.find_near {
            near_of(rows, cfg.near_threshold as nat)
        } else {
            Seq::empty()
        };
        let burst = if cfg.find_burst {
            burst_of(rows, cfg.burst_window_secs as int)
        } else {
            Seq::empty()
        };
        finishing_keeps_and_orders_groups(exact + near + burst, |g: Group| true);
    }
    let x = duplicates_of(rows, cfg)[a];
    let y = duplicates_of(rows, cfg)[b];
    assert(!order::key_lt(group_key(y), group_key(x)));
}

/// The members of an exact group have one content hash, and it is known.
pub proof fn exact_members_share_a_hash(
    rows: Seq<catalog::Row>,
    cfg: DupConfig,
    i: int,
    a: int,
    b: int,
)
    requires
        0 <= i < duplicates_of(rows, cfg).len(),
        duplicates_of(rows, cfg)[i].kind == DupKind::Exact,
        0 <= a < duplicates_of(rows, cfg)[i].members.len(),
        0 <= b < duplicates_of(rows, cfg)[i].members.len(),
    ensures
        ({
            let g = duplicates_of(rows, cfg)[i];
            &&& cfg.find_exact
            &&& g.spread == 0
            &&& g.members[a].content_hash is Some
            &&& g.members[a].content_hash == g.members[b].content_hash
        }),
{
    reports_are_sound(rows, cfg);
    let g = duplicates_of(rows, cfg)[i];
    let run = lemma_group_is_made(rows, cfg, i);
    assert(is_sound(g, cfg));
}

/// The members of a near group are joined by chains of members whose perceptual hashes
/// differ in no more bits than the tolerance, and not all have one known content hash.
pub proof fn near_members_are_chained(
    rows: Seq<catalog::Row>,
    cfg: DupConfig,
    i: int,
    a: int,
    b: int,
) -> (chain: Seq<catalog::Row>)
    requires
        0 <= i < duplicates_of(rows, cfg).len(),
        duplicates_of(rows, cfg)[i].kind == DupKind::Near,
        0 <= a < duplicates_of(rows, cfg)[i].members.len(),
        0 <= b < duplicates_of(rows, cfg)[i].members.len(),
    ensures
        ({
            let g = duplicates_of(rows, cfg)[i];
            &&& cfg.find_near
            &&& chain.len() > 0 && chain[0] == g.members[a] && chain.last() == g.members[b]
            &&& forall|k: int| 0 <= k < chain.len() ==> g.members.contains(#[trigger] chain[k])
            &&& forall|k: int|
                0 <= k < chain.len() - 1 ==> (#[trigger] chain[k]).phash is Some
                    && chain[k + 1].phash is Some && hashing::distance(
                    chain[k].phash->0,
                    chain[k + 1].phash->0,
                ) <= cfg.near_threshold
        }),
        duplicates_of(rows, cfg)[i].members[a].content_hash is Some ==> exists|k: int|
            0 <= k < duplicates_of(rows, cfg)[i].members.len() && (
            #[trigger] duplicates_of(rows, cfg)[i].members[k]).content_hash != duplicates_of(
                rows,
                cfg,
            )[i].members[a].content_hash,
{
    reports_are_sound(rows, cfg);
    let g = duplicates_of(rows, cfg)[i];
    let run = lemma_group_is_made(rows, cfg, i);
    assert(is_sound(g, cfg));
    let x = lemma_where_from(run, g.members, a);
    let y = lemma_where_from(run, g.members, b);
    assert(has_chain(run, cfg.near_threshold as nat, run[x], run[y]));
    let chain = choose|chain: Seq<catalog::Row>|
        is_chain(run, chain, cfg.near_threshold as nat, run[x], run[y]);
    lemma_all_among(run, g.members, chain);
    if g.members[a].content_hash is Some {
        lemma_not_all_copies(g.members, a);
    }
    chain
}

proof fn lemma_all_among(a: Seq<catalog::Row>, b: Seq<catalog::Row>, chain: Seq<catalog::Row>)
    requires
        a.to_multiset() == b.to_multiset(),
        forall|k: int| 0 <= k < chain.len() ==> a.contains(#[trigger] chain[k]),
    ensures
        forall|k: int| 0 <= k < chain.len() ==> b.contains(#[trigger] chain[k]),
{
    assert forall|k: int| 0 <= k < chain.len() implies b.contains(#[trigger] chain[k]) by {
        assert(a.contains(chain[k]));
        let m = choose|m: int| 0 <= m < a.len() && a[m] == chain[k];
        let n = lemma_where_from(b, a, m);
        assert(b[n] == chain[k]);
    }
}

proof fn lemma_not_all_copies(members: Seq<catalog::Row>, a: int)
    requires
        0 <= a < members.len(),
        members[a].content_hash is Some,
        !same_contents(members),
    ensures
        exists|k: int|
            0 <= k < members.len() && (#[trigger] members[k]).content_hash
                != members[a].content_hash,
{
    if forall|k: int|
        0 <= k < members.len() ==> (#[trigger] members[k]).content_hash
            == members[a].content_hash {
        assert(members[0].content_hash == members[a].content_hash);
    }
}

proof fn lemma_where_from(a: Seq<catalog::Row>, b: Seq<catalog::Row>, k: int) -> (at: int)
    requires
        a.to_multiset() == b.to_multiset(),
        0 <= k < b.len(),
    ensures
        0 <= at < a.len(),
        a[at] == b[k],
{
    broadcast use vstd::seq_lib::group_to_multiset_ensures;

    vstd::seq_lib::to_multiset_contains(b, b[k]);
    vstd::seq_lib::to_multiset_contains(a, b[k]);
    assert(b.contains(b[k]));
    assert(a.contains(b[k]));
    choose|at: int| 0 <= at < a.len() && a[at] == b[k]
}

/// The members of a burst group are, put in order, shots of one camera with no more than
/// the given seconds between each and the next; a file without a camera counts as of the
/// camera without a name.
pub proof fn burst_members_follow_one_another(rows: Seq<catalog::Row>, cfg: DupConfig, i: int) -> (
    shots: Seq<catalog::Row>)
    requires
        0 <= i < duplicates_of(rows, cfg).len(),
        duplicates_of(rows, cfg)[i].kind == DupKind::Burst,
    ensures
        cfg.find_burst,
        shots.to_multiset() == duplicates_of(rows, cfg)[i].members.to_multiset(),
        shots.len() == duplicates_of(rows, cfg)[i].members.len(),
        forall|k: int| 0 <= k < shots.len() ==> (#[trigger] shots[k]).date_taken is Some,
        forall|k: int|
            0 <= k < shots.len() - 1 ==> 0 <= shots[k + 1].date_taken->0 - (
            #[trigger] shots[k]).date_taken->0 <= cfg.burst_window_secs,
        forall|k: int|
            0 <= k < shots.len() ==> (if (#[trigger] shots[k]).camera_model is Some {
                shots[k].camera_model->0
            } else {
                Seq::empty()
            }) == (if shots[0].camera_model is Some {
                shots[0].camera_model->0
            } else {
                Seq::empty()
            }),
{
    reports_are_sound(rows, cfg);
    let g = duplicates_of(rows, cfg)[i];
    assert(is_sound(g, cfg));
    lemma_group_is_made(rows, cfg, i)
}

/// The difference that a near group is shown with is the widest in it: no two members
/// differ in more bits, and unless it is zero two differ in as many.
pub proof fn reported_spreads_are_the_widest(
    rows: Seq<catalog::Row>,
    cfg: DupConfig,
    i: int,
    a: int,
    b: int,
) -> (at: (int, int))
    requires
        0 <= i < duplicates_of(rows, cfg).len(),
        duplicates_of(rows, cfg)[i].kind == DupKind::Near,
        0 <= a < duplicates_of(rows, cfg)[i].members.len(),
        0 <= b < duplicates_of(rows, cfg)[i].members.len(),
    ensures
        ({
            let g = duplicates_of(rows, cfg)[i];
            let x = g.members[a].phash;
            let y = g.members[b].phash;
            let p = g.members[at.0].phash;
            let q = g.members[at.1].phash;
            &&& x is Some && y is Some ==> hashing::distance(x->0, y->0) <= g.spread
            &&& g.spread > 0 ==> 0 <= at.0 < g.members.len() && 0 <= at.1 < g.members.len()
                && p is Some && q is Some && hashing::distance(p->0, q->0) == g.spread
        }),
{
    let g = duplicates_of(rows, cfg)[i];
    let run = lemma_group_is_made(rows, cfg, i);
    spread_is_the_widest_difference(run);
    let x = lemma_where_from(run, g.members, a);
    let y = lemma_where_from(run, g.members, b);
    if run[x].phash is Some && run[y].phash is Some {
        let (c, d) = (run[x].phash->0, run[y].phash->0);
        hashing::distance_is_symmetric(c, d);
        hashing::distance_zero_is_equality(c, d);
        if x < y {
            assert(difference(run[x], run[y]) == Some(hashing::distance(c, d)));
        } else if y < x {
            assert(difference(run[y], run[x]) == Some(hashing::distance(d, c)));
        }
    }
    if g.spread > 0 {
        let (p, q) = choose|p: int, q: int|
            0 <= p < q < run.len() && #[trigger] difference(run[p], run[q]) == Some(
                spread_of(run),
            );
        (lemma_where_from(g.members, run, p), lemma_where_from(g.members, run, q))
    } else {
        (0, 0)
    }
}

/// Files with the same known content hash are always reported together; with kinds kept
/// apart, where they are of one kind.
pub proof fn same_hashes_are_grouped(rows: Seq<catalog::Row>, cfg: DupConfig, i: int, j: int) -> (
    at: int)
    requires
        cfg.find_exact,
        0 <= i < j < rows.len(),
        cfg.same_kind_only ==> kind::effective_kind(rows[i]) == kind::effective_kind(rows[j]),
        rows[i].content_hash is Some,
        rows[i].content_hash == rows[j].content_hash,
    ensures
        0 <= at < duplicates_of(rows, cfg).len(),
        duplicates_of(rows, cfg)[at].kind == DupKind::Exact,
        duplicates_of(rows, cfg)[at].members.contains(rows[i]),
        duplicates_of(rows, cfg)[at].members.contains(rows[j]),
{
    copies_are_always_found(rows, cfg, i, j);
    lemma_group_of_both(duplicates_of(rows, cfg), DupKind::Exact, rows[i], rows[j])
}

proof fn lemma_group_of_both(
    groups: Seq<Group>,
    kind: DupKind,
    x: catalog::Row,
    y: catalog::Row,
) -> (at: int)
    requires
        grouped(groups, kind, x, y),
    ensures
        0 <= at < groups.len(),
        groups[at].kind == kind,
        groups[at].members.contains(x),
        groups[at].members.contains(y),
{
    choose|at: int| 0 <= at < groups.len() && has_both(#[trigger] groups[at], kind, x, y)
}

/// Files whose perceptual hashes differ in no more bits than the tolerance are always
/// reported together, unless they are known to be the same.
pub proof fn close_hashes_are_grouped(rows: Seq<catalog::Row>, cfg: DupConfig, i: int, j: int) -> (
    at: int)
    requires
        cfg.find_near,
        0 <= i < j < rows.len(),
        cfg.same_kind_only ==> kind::effective_kind(rows[i]) == kind::effective_kind(rows[j]),
        rows[i].phash is Some,
        rows[j].phash is Some,
        hashing::distance(rows[i].phash->0, rows[j].phash->0) <= cfg.near_threshold,
        rows[i].content_hash is None || rows[i].content_hash != rows[j].content_hash,
    ensures
        0 <= at < duplicates_of(rows, cfg).len(),
        duplicates_of(rows, cfg)[at].kind == DupKind::Near,
        duplicates_of(rows, cfg)[at].members.contains(rows[i]),
        duplicates_of(rows, cfg)[at].members.contains(rows[j]),
{
    look_alikes_are_always_found(rows, cfg, i, j);
    lemma_group_of_both(duplicates_of(rows, cfg), DupKind::Near, rows[i], rows[j])
}

/// Shots of one camera no more than the given seconds apart are always reported together,
/// unless they are known to be the same file.
pub proof fn close_shots_are_grouped(rows: Seq<catalog::Row>, cfg: DupConfig, i: int, j: int) -> (
    at: int)
    requires
        cfg.find_burst,
        0 <= i < j < rows.len(),
        cfg.same_kind_only ==> kind::effective_kind(rows[i]) == kind::effective_kind(rows[j]),
        rows[i].date_taken is Some,
        rows[j].date_taken is Some,
        (if rows[i].camera_model is Some {
            rows[i].camera_model->0
        } else {
            Seq::empty()
        }) == (if rows[j].camera_model is Some {
            rows[j].camera_model->0
        } else {
            Seq::empty()
        }),
        -cfg.burst_window_secs <= rows[i].date_taken->0 - rows[j].date_taken->0
            <= cfg.burst_window_secs,
        rows[i].content_hash is None || rows[i].content_hash != rows[j].content_hash,
    ensures
        0 <= at < duplicates_of(rows, cfg).len(),
        duplicates_of(rows, cfg)[at].kind == DupKind::Burst,
        duplicates_of(rows, cfg)[at].members.contains(rows[i]),
        duplicates_of(rows, cfg)[at].members.contains(rows[j]),
{
    bursts_are_always_found(rows, cfg, i, j);
    lemma_group_of_both(duplicates_of(rows, cfg), DupKind::Burst, rows[i], rows[j])
}

/// A report counts each of its groups once, by its kind; what it says can be freed is
/// the sum over its groups, and what it says can be removed is all members but one of
/// each group.
pub proof fn reports_add_up(groups: Seq<Group>, kind: DupKind)
    ensures
        count_kind(groups, kind) == groups.filter(|g: Group| g.kind == kind).len(),
        sum_reclaimable(groups) == groups.fold_left(0, |n: int, g: Group| n + g.reclaimable),
        sum_removable(groups) == groups.fold_left(0, |n: int, g: Group| n + g.members.len() - 1),
    decreases groups.len(),
{
    reveal(Seq::filter);
    if groups.len() > 0 {
        reports_add_up(groups.drop_last(), kind);
    }
}

/// How sure a group is goes by its kind.
pub proof fn confidence_goes_by_kind()
    ensures
        dup_label(DupKind::Exact) == "identical"@,
        dup_label(DupKind::Near) == "near-duplicate"@,
        dup_label(DupKind::Burst) == "burst"@,
        dup_confidence(DupKind::Exact) == "byte-identical"@,
        dup_confidence(DupKind::Near) == "same image, different encoding or size"@,
        dup_confidence(DupKind::Burst) == "shot seconds apart — review before removing"@,
{
}

} // verus!
