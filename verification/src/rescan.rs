//! Indexing a library again.
//!
//! The catalog exists so that a rescan only touches files that changed. What is stated
//! here is what that comes to: once a library has been indexed, indexing it again while
//! its files stay as they are examines no file, hashes none, decodes none but those that
//! could not be decoded, and leaves the catalog as it was.
use vstd::prelude::*;

use crate::catalog;
use crate::engine;
use crate::indexer;
use crate::indexer::{Decoded, HashResult, Look, Summary};
use crate::metadata::FileMeta;
use crate::order;
use crate::text;

verus! {

/// What reading the files of a library gave, stage by stage.
pub struct Readings {
    /// The size and modification time of each file, if they could be had.
    pub stats: Seq<Option<(u64, i64)>>,
    /// The metadata of each file that was examined.
    pub metas: Seq<Option<FileMeta>>,
    pub hashes: Seq<HashResult>,
    pub decodes: Seq<Decoded>,
}

/// What a scan of some files found.
pub open spec fn scan_of(
    t: catalog::Tables,
    root: Seq<char>,
    paths: Seq<Seq<char>>,
    r: Readings,
) -> indexer::Run {
    indexer::scanned_upto(
        t,
        paths,
        indexer::events_of(indexer::looks_of(t, root, paths, r.stats), r.metas),
        paths.len() as int,
    )
}

/// The outcome and the tables once the scan is taken in and files that are gone are
/// marked.
pub open spec fn scanned(
    t: catalog::Tables,
    root: Seq<char>,
    paths: Seq<Seq<char>>,
    r: Readings,
) -> (Summary, catalog::Tables) {
    let scan = scan_of(t, root, paths, r);
    (
        Summary {
            missing: catalog::selected(
                scan.tables.media,
                catalog::unseen(root, scan.seen),
            ).len(),
            ..scan.out
        },
        indexer::reconciled(scan, root),
    )
}

/// The outcome and the tables once the hashes are taken in.
pub open spec fn hashed(
    t: catalog::Tables,
    root: Seq<char>,
    paths: Seq<Seq<char>>,
    r: Readings,
) -> (Summary, catalog::Tables) {
    let (out, u) = scanned(t, root, paths, r);
    indexer::hashed_upto(out, u, r.hashes, r.hashes.len() as int)
}

/// The outcome, but for the totals, and the tables at the end of a run.
pub open spec fn indexed(
    t: catalog::Tables,
    root: Seq<char>,
    paths: Seq<Seq<char>>,
    r: Readings,
) -> (Summary, catalog::Tables) {
    let (out, u) = hashed(t, root, paths, r);
    indexer::decoded_upto(out, u, r.decodes, r.decodes.len() as int)
}

/// The rows whose files are to be hashed.
pub open spec fn hash_work(t: catalog::Tables) -> Seq<(i64, Seq<char>)> {
    catalog::ids_and_paths(catalog::listed_rows(t, catalog::needs_hash(t.media)))
}

/// The rows whose files are to be decoded.
pub open spec fn decode_work(t: catalog::Tables) -> Seq<(i64, Seq<char>)> {
    indexer::decodable_among(
        catalog::ids_and_paths(catalog::listed_rows(t, catalog::needs_analysis())),
    )
}

/// Whether each of some files was hashed.
pub open spec fn all_hashed(work: Seq<(i64, Seq<char>)>, hashes: Seq<HashResult>) -> bool {
    forall|i: int|
        0 <= i < work.len() ==> exists|j: int|
            0 <= j < hashes.len() && (#[trigger] hashes[j]).id == (#[trigger] work[i]).0
                && hashes[j].hash is Ok
}

/// Whether hashing each of some files was tried.
pub open spec fn all_tried_to_hash(work: Seq<(i64, Seq<char>)>, hashes: Seq<HashResult>) -> bool {
    forall|i: int|
        0 <= i < work.len() ==> exists|j: int|
            0 <= j < hashes.len() && (#[trigger] hashes[j]).id == (#[trigger] work[i]).0
}

/// Whether a decode gave all that it can give, or nothing.
pub open spec fn is_whole(d: indexer::Gained) -> bool {
    &&& d.phash is Some <==> d.dom_color is Some
    &&& d.phash is None ==> d.dims is None && !d.thumb_written
}

/// Whether decoding each of some files was tried, and gave all or nothing.
pub open spec fn all_tried_to_decode(
    work: Seq<(i64, Seq<char>)>,
    decodes: Seq<Decoded>,
) -> bool {
    &&& forall|i: int|
        0 <= i < work.len() ==> exists|j: int|
            0 <= j < decodes.len() && (#[trigger] decodes[j]).id == (#[trigger] work[i]).0
    &&& forall|j: int| 0 <= j < decodes.len() ==> is_whole((#[trigger] decodes[j])@)
}

/// Whether each of some files was decoded, and every decode gave a hash and a colour.
pub open spec fn all_decoded(work: Seq<(i64, Seq<char>)>, decodes: Seq<Decoded>) -> bool {
    &&& forall|i: int|
        0 <= i < work.len() ==> exists|j: int|
            0 <= j < decodes.len() && (#[trigger] decodes[j]).id == (#[trigger] work[i]).0
    &&& forall|j: int|
        0 <= j < decodes.len() ==> (#[trigger] decodes[j]).phash is Some && decodes[j].dom_color
            is Some
}

/// Whether each path is beneath a root and none occurs twice.
pub open spec fn are_files_of(root: Seq<char>, paths: Seq<Seq<char>>) -> bool {
    &&& forall|i: int, j: int|
        0 <= i < j < paths.len() ==> #[trigger] paths[i] != #[trigger] paths[j]
    &&& forall|i: int| 0 <= i < paths.len() ==> catalog::is_under(root, #[trigger] paths[i])
}

/// Whether a reading can be taken in by a run over some files.
pub open spec fn fits(paths: Seq<Seq<char>>, r: Readings) -> bool {
    &&& r.stats.len() == paths.len()
    &&& r.metas.len() == paths.len()
    &&& forall|i: int| 0 <= i < r.stats.len() ==> indexer::size_fits(#[trigger] r.stats[i])
}

/// Whether a scan has a message about no file but those whose size and modification time
/// could not be had: no row was refused for want of a number.
pub open spec fn takes_in_all(
    t: catalog::Tables,
    root: Seq<char>,
    paths: Seq<Seq<char>>,
    r: Readings,
) -> bool {
    scan_of(t, root, paths, r).out.errors.len() + known(r.stats, paths.len() as int)
        == paths.len()
}

/// How many of the first `n` files' sizes and modification times could be had.
pub open spec fn known(stats: Seq<Option<(u64, i64)>>, n: int) -> nat
    decreases n,
{
    if n <= 0 {
        0
    } else if stats[n - 1] is Some {
        known(stats, n - 1) + 1
    } else {
        known(stats, n - 1)
    }
}

/// Whether two rows are for the same state of the same file.
pub open spec fn same_file(a: catalog::Stored, b: catalog::Stored) -> bool {
    &&& a.row.id == b.row.id
    &&& a.row.path == b.row.path
    &&& a.row.size == b.row.size
    &&& a.row.mtime == b.row.mtime
    &&& a.meta_version == b.meta_version
}

/// Whether rows are for the same states of the same files.
pub open spec fn same_files(a: Seq<catalog::Stored>, b: Seq<catalog::Stored>) -> bool {
    a.len() == b.len() && forall|k: int|
        0 <= k < a.len() ==> same_file(#[trigger] a[k], #[trigger] b[k])
}

proof fn lemma_same_place(a: Seq<catalog::Stored>, b: Seq<catalog::Stored>, path: Seq<char>)
    requires
        same_files(a, b),
    ensures
        catalog::row_at(a, path) == catalog::row_at(b, path),
    decreases a.len(),
{
    if a.len() > 0 {
        assert(same_file(a[a.len() - 1], b[b.len() - 1]));
        assert forall|k: int| 0 <= k < a.drop_last().len() implies same_file(
            #[trigger] a.drop_last()[k],
            #[trigger] b.drop_last()[k],
        ) by {
            assert(same_file(a[k], b[k]));
        }
        lemma_same_place(a.drop_last(), b.drop_last(), path);
    }
}

/// Tables whose rows are for the same states of the same files give the same answer to
/// what is to be done about a file.
proof fn lemma_same_look(
    t: catalog::Tables,
    u: catalog::Tables,
    root: Seq<char>,
    path: Seq<char>,
    stat: Option<(u64, i64)>,
)
    requires
        same_files(t.media, u.media),
    ensures
        indexer::look_of(t, root, path, stat) == indexer::look_of(u, root, path, stat),
{
    lemma_same_place(t.media, u.media, path);
    catalog::lemma_row_at(t.media, path);
    if let Some(k) = catalog::row_at(t.media, path) {
        assert(same_file(t.media[k], u.media[k]));
    }
}

proof fn lemma_max_id_bound(media: Seq<catalog::Stored>, m: int)
    requires
        0 <= m,
        forall|k: int| 0 <= k < media.len() ==> (#[trigger] media[k]).row.id <= m,
    ensures
        catalog::max_id(media) <= m,
    decreases media.len(),
{
    if media.len() > 0 {
        assert forall|k: int| 0 <= k < media.drop_last().len() implies (
        #[trigger] media.drop_last()[k]).row.id <= m by {
            assert(media.drop_last()[k] == media[k]);
        }
        lemma_max_id_bound(media.drop_last(), m);
        assert(media[media.len() - 1].row.id <= m);
    }
}

/// Whether there is no number left for a path that has no row.
spec fn is_refused(media: Seq<catalog::Stored>, path: Seq<char>) -> bool {
    catalog::row_at(media, path) is None && catalog::max_id(media) == i64::MAX
}

/// What inserting or updating a row does to it, and to the row of another path.
proof fn lemma_upsert(media: Seq<catalog::Stored>, row: catalog::Row, path: Seq<char>)
    requires
        catalog::media_ok(media),
        row.size <= i64::MAX,
        !is_refused(media, row.path),
    ensures
        ({
            let up = catalog::upserted(media, row);
            &&& catalog::media_ok(up)
            &&& catalog::row_at(up, row.path) matches Some(k) && {
                &&& 0 <= k < up.len()
                &&& up[k].row.id == catalog::upserted_id(media, row)
                &&& up[k].row.path == row.path
                &&& up[k].row.size == row.size
                &&& up[k].row.mtime == row.mtime
                &&& up[k].meta_version == catalog::META_VERSION
            }
            &&& path != row.path ==> match catalog::row_at(media, path) {
                Some(k) => 0 <= k < up.len() && k < media.len() && catalog::row_at(up, path)
                    == Some(k) && up[k] == media[k],
                None => catalog::row_at(up, path) is None,
            }
        }),
{
    let up = catalog::upserted(media, row);
    catalog::lemma_max_id(media);
    catalog::lemma_upserted_ok(media, row);
    catalog::lemma_row_at(media, row.path);
    catalog::lemma_row_at(media, path);
    catalog::lemma_row_at(up, path);
    let at = match catalog::row_at(media, row.path) {
        Some(k) => k,
        None => media.len() as int,
    };
    assert(up[at].row.path == row.path);
    catalog::lemma_row_at_is(up, row.path, at);
    if path != row.path {
        match catalog::row_at(media, path) {
            Some(k) => {
                assert(up[k] == media[k]);
                catalog::lemma_row_at_is(up, path, k);
            },
            None => {
                if let Some(j) = catalog::row_at(up, path) {
                    assert(up[j].row.path == path);
                    assert(j != at);
                    assert(media[j].row.path == path);
                }
            },
        }
    }
}

/// Whether a scan took in a file: its row says what its size and modification time were,
/// and counts as seen.
pub open spec fn is_taken_in(run: indexer::Run, path: Seq<char>, stat: (u64, i64)) -> bool {
    catalog::row_at(run.tables.media, path) matches Some(k) && {
        &&& 0 <= k < run.tables.media.len()
        &&& indexer::is_current(catalog::stamp_of(run.tables.media[k]), stat.0, stat.1)
        &&& run.seen.contains(run.tables.media[k].row.id)
    }
}

/// Whether a number is that of the row of one of the first `n` files that could be had.
spec fn is_row_of_one(
    run: indexer::Run,
    paths: Seq<Seq<char>>,
    stats: Seq<Option<(u64, i64)>>,
    n: int,
    id: i64,
) -> bool {
    exists|i: int|
        0 <= i < n && (#[trigger] stats[i]) is Some && has_number(run.tables.media, paths[i], id)
}

spec fn has_number(media: Seq<catalog::Stored>, path: Seq<char>, id: i64) -> bool {
    catalog::row_at(media, path) matches Some(k) && 0 <= k < media.len() && media[k].row.id == id
}

spec fn takes_in(
    t: catalog::Tables,
    root: Seq<char>,
    paths: Seq<Seq<char>>,
    stats: Seq<Option<(u64, i64)>>,
    run: indexer::Run,
    n: int,
) -> bool {
    &&& catalog::media_ok(run.tables.media)
    &&& forall|i: int|
        0 <= i < n && (#[trigger] stats[i]) is Some ==> is_taken_in(
            run,
            paths[i],
            stats[i]->0,
        )
    &&& forall|i: int|
        n <= i < paths.len() ==> catalog::stamp_at(run.tables.media, root, #[trigger] paths[i])
            == catalog::stamp_at(t.media, root, paths[i])
    &&& forall|x: int|
        0 <= x < run.seen.len() ==> is_row_of_one(run, paths, stats, n, #[trigger] run.seen[x])
}

proof fn lemma_scan_step(
    t: catalog::Tables,
    root: Seq<char>,
    paths: Seq<Seq<char>>,
    r: Readings,
    n: int,
    run: indexer::Run,
)
    requires
        fits(paths, r),
        are_files_of(root, paths),
        0 <= n < paths.len(),
        takes_in(t, root, paths, r.stats, run, n),
        indexer::look_of(t, root, paths[n], r.stats[n]) is Examine ==> !is_refused(
            run.tables.media,
            paths[n],
        ),
    ensures
        takes_in(
            t,
            root,
            paths,
            r.stats,
            indexer::after_scan(
                run,
                paths[n],
                indexer::event_of(
                    indexer::look_of(t, root, paths[n], r.stats[n]),
                    r.metas[n],
                ),
            ),
            n + 1,
        ),
{
    let stats = r.stats;
    let path = paths[n];
    let look = indexer::look_of(t, root, path, stats[n]);
    let next = indexer::after_scan(run, path, indexer::event_of(look, r.metas[n]));
    let media = run.tables.media;
    assert(catalog::is_under(root, path));
    assert(indexer::size_fits(stats[n]));
    assert(catalog::stamp_at(media, root, path) == catalog::stamp_at(t.media, root, path));
    catalog::lemma_row_at(media, path);
    match look {
        Look::NoStat => {
            assert forall|x: int| 0 <= x < next.seen.len() implies is_row_of_one(
                next,
                paths,
                stats,
                n + 1,
                #[trigger] next.seen[x],
            ) by {
                assert(is_row_of_one(run, paths, stats, n, run.seen[x]));
            }
        },
        Look::Current { id } => {
            assert(next.seen == run.seen.push(id));
            assert(next.seen[run.seen.len() as int] == id);
            assert(is_taken_in(next, path, stats[n]->0));
            assert forall|i: int| 0 <= i < n + 1 && (#[trigger] stats[i]) is Some implies is_taken_in(
                next,
                paths[i],
                stats[i]->0,
            ) by {
                if i < n {
                    assert(is_taken_in(run, paths[i], stats[i]->0));
                    let k = catalog::row_at(media, paths[i])->0;
                    let x = choose|x: int|
                        0 <= x < run.seen.len() && run.seen[x] == media[k].row.id;
                    assert(next.seen[x] == media[k].row.id);
                }
            }
            assert forall|x: int| 0 <= x < next.seen.len() implies is_row_of_one(
                next,
                paths,
                stats,
                n + 1,
                #[trigger] next.seen[x],
            ) by {
                if x < run.seen.len() {
                    assert(is_row_of_one(run, paths, stats, n, run.seen[x]));
                } else {
                    assert(stats[n] is Some && has_number(media, paths[n], id));
                }
            }
        },
        Look::Examine { size, mtime } => {
            let row = indexer::row_of(path, (r.metas[n]->0)@, size, mtime);
            let up = next.tables.media;
            lemma_upsert(media, row, path);
            catalog::lemma_max_id(media);
            assert(up == catalog::upserted(media, row));
            let fresh = catalog::upserted_id(media, row) as i64;
            assert(next.seen == run.seen.push(fresh));
            assert(next.seen[run.seen.len() as int] == fresh);
            assert forall|i: int| 0 <= i < n + 1 && (#[trigger] stats[i]) is Some implies is_taken_in(
                next,
                paths[i],
                stats[i]->0,
            ) by {
                if i < n {
                    assert(paths[i] != paths[n]);
                    lemma_upsert(media, row, paths[i]);
                    assert(is_taken_in(run, paths[i], stats[i]->0));
                    let k = catalog::row_at(media, paths[i])->0;
                    let x = choose|x: int|
                        0 <= x < run.seen.len() && run.seen[x] == media[k].row.id;
                    assert(next.seen[x] == media[k].row.id);
                }
            }
            assert forall|i: int| n + 1 <= i < paths.len() implies catalog::stamp_at(
                up,
                root,
                #[trigger] paths[i],
            ) == catalog::stamp_at(t.media, root, paths[i]) by {
                assert(paths[n] != paths[i]);
                lemma_upsert(media, row, paths[i]);
                assert(catalog::stamp_at(media, root, paths[i]) == catalog::stamp_at(
                    t.media,
                    root,
                    paths[i],
                ));
            }
            assert forall|x: int| 0 <= x < next.seen.len() implies is_row_of_one(
                next,
                paths,
                stats,
                n + 1,
                #[trigger] next.seen[x],
            ) by {
                if x < run.seen.len() {
                    assert(is_row_of_one(run, paths, stats, n, run.seen[x]));
                    let i = choose|i: int|
                        0 <= i < n && (#[trigger] stats[i]) is Some && has_number(
                            media,
                            paths[i],
                            run.seen[x],
                        );
                    assert(paths[i] != paths[n]);
                    lemma_upsert(media, row, paths[i]);
                    assert(stats[i] is Some && has_number(up, paths[i], run.seen[x]));
                } else {
                    assert(stats[n] is Some && has_number(up, paths[n], fresh));
                }
            }
        },
    }
}

/// The first `n` steps of a scan.
spec fn steps_of(
    t: catalog::Tables,
    root: Seq<char>,
    paths: Seq<Seq<char>>,
    r: Readings,
    n: int,
) -> indexer::Run {
    indexer::scanned_upto(
        t,
        paths,
        indexer::events_of(indexer::looks_of(t, root, paths, r.stats), r.metas),
        n,
    )
}

/// What one step of a scan does to the number of messages.
proof fn lemma_step(
    t: catalog::Tables,
    root: Seq<char>,
    paths: Seq<Seq<char>>,
    r: Readings,
    n: int,
)
    requires
        0 <= n < paths.len(),
    ensures
        ({
            let run = steps_of(t, root, paths, r, n);
            let next = steps_of(t, root, paths, r, n + 1);
            let look = indexer::look_of(t, root, paths[n], r.stats[n]);
            let refused = look is Examine && is_refused(run.tables.media, paths[n]);
            &&& next == indexer::after_scan(
                run,
                paths[n],
                indexer::event_of(look, r.metas[n]),
            )
            &&& next.out.errors.len() == run.out.errors.len() + (if look is NoStat || refused {
                1nat
            } else {
                0nat
            })
            &&& look is NoStat <==> r.stats[n] is None
        }),
{
    let events = indexer::events_of(indexer::looks_of(t, root, paths, r.stats), r.metas);
    assert(events[n] == indexer::event_of(
        indexer::look_of(t, root, paths[n], r.stats[n]),
        r.metas[n],
    ));
}

proof fn lemma_messages(
    t: catalog::Tables,
    root: Seq<char>,
    paths: Seq<Seq<char>>,
    r: Readings,
    n: int,
)
    requires
        0 <= n <= paths.len(),
    ensures
        steps_of(t, root, paths, r, n).out.errors.len() + known(r.stats, n) >= n,
    decreases n,
{
    if n > 0 {
        lemma_messages(t, root, paths, r, n - 1);
        lemma_step(t, root, paths, r, n - 1);
    }
}

proof fn lemma_scan(
    t: catalog::Tables,
    root: Seq<char>,
    paths: Seq<Seq<char>>,
    r: Readings,
    n: int,
)
    requires
        catalog::media_ok(t.media),
        fits(paths, r),
        are_files_of(root, paths),
        0 <= n <= paths.len(),
        steps_of(t, root, paths, r, n).out.errors.len() + known(r.stats, n) == n,
    ensures
        takes_in(t, root, paths, r.stats, steps_of(t, root, paths, r, n), n),
    decreases n,
{
    if n > 0 {
        lemma_step(t, root, paths, r, n - 1);
        lemma_messages(t, root, paths, r, n - 1);
        lemma_scan(t, root, paths, r, n - 1);
        lemma_scan_step(t, root, paths, r, n - 1, steps_of(t, root, paths, r, n - 1));
    }
}

/// No row is refused while there are numbers for all files.
pub proof fn row_numbers_last(
    t: catalog::Tables,
    root: Seq<char>,
    paths: Seq<Seq<char>>,
    r: Readings,
)
    requires
        catalog::max_id(t.media) + paths.len() <= i64::MAX,
    ensures
        takes_in_all(t, root, paths, r),
{
    lemma_numbers_last(t, root, paths, r, paths.len() as int);
}

proof fn lemma_numbers_last(
    t: catalog::Tables,
    root: Seq<char>,
    paths: Seq<Seq<char>>,
    r: Readings,
    n: int,
)
    requires
        0 <= n <= paths.len(),
        catalog::max_id(t.media) + paths.len() <= i64::MAX,
    ensures
        steps_of(t, root, paths, r, n).out.errors.len() + known(r.stats, n) == n,
        catalog::max_id(steps_of(t, root, paths, r, n).tables.media) <= catalog::max_id(t.media)
            + n,
    decreases n,
{
    if n > 0 {
        lemma_numbers_last(t, root, paths, r, n - 1);
        lemma_step(t, root, paths, r, n - 1);
        let media = steps_of(t, root, paths, r, n - 1).tables.media;
        let up = steps_of(t, root, paths, r, n).tables.media;
        catalog::lemma_max_id(media);
        catalog::lemma_row_at(media, paths[n - 1]);
        assert forall|k: int| 0 <= k < up.len() implies (
        #[trigger] up[k]).row.id <= catalog::max_id(media) + 1 by {
            if k < media.len() {
                assert(media[k].row.id <= catalog::max_id(media));
            }
        }
        lemma_max_id_bound(up, catalog::max_id(media) + 1);
    }
}

proof fn lemma_marking_keeps_files(
    media: Seq<catalog::Stored>,
    p: spec_fn(catalog::Stored) -> bool,
)
    ensures
        same_files(media, catalog::marked_missing(media, p)),
{
}

/// Once a scan is taken in, the catalog is current for every file whose size and
/// modification time could be had: those that were examined, and those that it had been
/// current for before.
pub proof fn scanned_files_are_current(
    t: catalog::Tables,
    root: Seq<char>,
    paths: Seq<Seq<char>>,
    r: Readings,
    i: int,
)
    requires
        catalog::media_ok(t.media),
        fits(paths, r),
        are_files_of(root, paths),
        takes_in_all(t, root, paths, r),
        0 <= i < paths.len(),
    ensures
        match r.stats[i] {
            Some(stat) => indexer::look_of(
                scanned(t, root, paths, r).1,
                root,
                paths[i],
                Some(stat),
            ) is Current,
            None => true,
        },
{
    let scan = scan_of(t, root, paths, r);
    let u = indexer::reconciled(scan, root);
    lemma_scan(t, root, paths, r, paths.len() as int);
    lemma_marking_keeps_files(scan.tables.media, catalog::unseen(root, scan.seen));
    assert(catalog::is_under(root, paths[i]));
    if let Some(stat) = r.stats[i] {
        assert(is_taken_in(scan, paths[i], stat));
        lemma_same_look(scan.tables, u, root, paths[i], Some(stat));
    }
}

/// Whether two rows are for the same state of the same file, which is there in both or
/// in neither.
pub open spec fn same_entry(a: catalog::Stored, b: catalog::Stored) -> bool {
    same_file(a, b) && a.row.missing == b.row.missing
}

/// Whether the rows of two catalogs differ only in what hashing or decoding gives.
pub open spec fn same_entries(a: Seq<catalog::Stored>, b: Seq<catalog::Stored>) -> bool {
    a.len() == b.len() && forall|k: int|
        0 <= k < a.len() ==> same_entry(#[trigger] a[k], #[trigger] b[k])
}

proof fn lemma_shared(a: Seq<catalog::Stored>, b: Seq<catalog::Stored>, size: u64)
    requires
        same_entries(a, b),
        catalog::is_shared_size(b, size),
    ensures
        catalog::is_shared_size(a, size),
{
    let k = choose|k: int|
        0 <= k < b.len() && (#[trigger] b[k]).row.size == size && catalog::shares_size(b, k);
    assert(same_entry(a[k], b[k]));
    let j = choose|j: int|
        0 <= j < b.len() && j != k && !(#[trigger] b[j]).row.missing && b[j].row.size
            == b[k].row.size;
    assert(same_entry(a[j], b[j]));
    assert(catalog::shares_size(a, k));
}

/// Whether one of the first `n` hashes is that of a row.
spec fn has_hash(hashes: Seq<HashResult>, n: int, id: i64) -> bool {
    exists|j: int| 0 <= j < n && (#[trigger] hashes[j]).id == id && hashes[j].hash is Ok
}

proof fn lemma_hashes(out: Summary, t: catalog::Tables, hashes: Seq<HashResult>, n: int)
    requires
        0 <= n <= hashes.len(),
    ensures
        ({
            let u = indexer::hashed_upto(out, t, hashes, n).1;
            &&& same_entries(t.media, u.media)
            &&& forall|k: int|
                0 <= k < t.media.len() ==> {
                    let (a, b) = ((#[trigger] t.media[k]).row, u.media[k].row);
                    &&& b.phash == a.phash
                    &&& b.dom_color == a.dom_color
                    &&& a.content_hash is Some || has_hash(hashes, n, a.id)
                        ==> b.content_hash is Some
                }
        }),
    decreases n,
{
    if n > 0 {
        lemma_hashes(out, t, hashes, n - 1);
        let before = indexer::hashed_upto(out, t, hashes, n - 1).1;
        let u = indexer::hashed_upto(out, t, hashes, n).1;
        assert forall|k: int| 0 <= k < t.media.len() implies same_entry(
            #[trigger] t.media[k],
            #[trigger] u.media[k],
        ) by {
            assert(same_entry(t.media[k], before.media[k]));
        }
        assert forall|k: int| 0 <= k < t.media.len() implies {
            let (a, b) = ((#[trigger] t.media[k]).row, u.media[k].row);
            &&& b.phash == a.phash
            &&& b.dom_color == a.dom_color
            &&& a.content_hash is Some || has_hash(hashes, n, a.id) ==> b.content_hash is Some
        } by {
            let a = t.media[k].row;
            assert(same_entry(t.media[k], before.media[k]));
            if has_hash(hashes, n, a.id) && !(hashes[n - 1].id == a.id && hashes[n - 1].hash is Ok) {
                let j = choose|j: int|
                    0 <= j < n && (#[trigger] hashes[j]).id == a.id && hashes[j].hash is Ok;
                assert(j < n - 1);
                assert(has_hash(hashes, n - 1, a.id));
            }
        }
    }
}

/// Once every file that was to be hashed has been, none is left to be.
pub proof fn hashing_leaves_nothing_to_hash(
    out: Summary,
    t: catalog::Tables,
    hashes: Seq<HashResult>,
)
    requires
        all_hashed(hash_work(t), hashes),
    ensures
        hash_work(indexer::hashed_upto(out, t, hashes, hashes.len() as int).1).len() == 0,
{
    let n = hashes.len() as int;
    let u = indexer::hashed_upto(out, t, hashes, n).1;
    lemma_hashes(out, t, hashes, n);
    lemma_nothing_left_to_hash(t, u, hashes);
}

proof fn lemma_nothing_left_to_hash(
    t: catalog::Tables,
    u: catalog::Tables,
    hashes: Seq<HashResult>,
)
    requires
        all_hashed(hash_work(t), hashes),
        same_entries(t.media, u.media),
        forall|k: int|
            0 <= k < t.media.len() ==> ((#[trigger] t.media[k]).row.content_hash is Some
                || has_hash(hashes, hashes.len() as int, t.media[k].row.id)
                ==> u.media[k].row.content_hash is Some),
    ensures
        hash_work(u).len() == 0,
{
    let p = catalog::needs_hash(t.media);
    let q = catalog::needs_hash(u.media);
    let before = catalog::listed_rows(t, p);
    let after = catalog::listed_rows(u, q);
    catalog::lemma_listed(t, p);
    catalog::lemma_listed(u, q);
    if after.len() > 0 {
        assert(catalog::comes_from(u, q, after[0]));
        let k = choose|k: int|
            0 <= k < u.media.len() && q(#[trigger] u.media[k]) && after[0] == catalog::joined_row(
                u.users,
                u.media[k].row,
            );
        assert(same_entry(t.media[k], u.media[k]));
        lemma_shared(t.media, u.media, u.media[k].row.size);
        assert(p(t.media[k]));
        let row = catalog::joined_row(t.users, t.media[k].row);
        assert(before.contains(row));
        let i = choose|i: int| 0 <= i < before.len() && before[i] == row;
        assert(hash_work(t)[i].0 == t.media[k].row.id);
        assert(has_hash(hashes, hashes.len() as int, t.media[k].row.id));
    }
}

/// The last of the first `n` decodes that is a row's.
spec fn last_decode(decodes: Seq<Decoded>, n: int, id: i64) -> Option<int>
    decreases n,
{
    if n <= 0 {
        None
    } else if decodes[n - 1].id == id {
        Some(n - 1)
    } else {
        last_decode(decodes, n - 1, id)
    }
}

proof fn lemma_last_decode(decodes: Seq<Decoded>, n: int, id: i64)
    ensures
        match last_decode(decodes, n, id) {
            Some(j) => 0 <= j < n && decodes[j].id == id,
            None => forall|j: int| 0 <= j < n ==> (#[trigger] decodes[j]).id != id,
        },
    decreases n,
{
    if n > 0 {
        lemma_last_decode(decodes, n - 1, id);
    }
}

proof fn lemma_decodes(out: Summary, t: catalog::Tables, decodes: Seq<Decoded>, n: int)
    requires
        0 <= n <= decodes.len(),
    ensures
        ({
            let u = indexer::decoded_upto(out, t, decodes, n).1;
            &&& same_entries(t.media, u.media)
            &&& forall|k: int|
                0 <= k < t.media.len() ==> {
                    let (a, b) = ((#[trigger] t.media[k]).row, u.media[k].row);
                    &&& b.content_hash == a.content_hash
                    &&& match last_decode(decodes, n, a.id) {
                        Some(j) => b.phash == decodes[j].phash && b.dom_color
                            == decodes[j].dom_color,
                        None => b.phash == a.phash && b.dom_color == a.dom_color,
                    }
                }
        }),
    decreases n,
{
    if n > 0 {
        lemma_decodes(out, t, decodes, n - 1);
        let before = indexer::decoded_upto(out, t, decodes, n - 1).1;
        let u = indexer::decoded_upto(out, t, decodes, n).1;
        assert forall|k: int| 0 <= k < t.media.len() implies same_entry(
            #[trigger] t.media[k],
            #[trigger] u.media[k],
        ) by {
            assert(same_entry(t.media[k], before.media[k]));
        }
        assert forall|k: int| 0 <= k < t.media.len() implies {
            let (a, b) = ((#[trigger] t.media[k]).row, u.media[k].row);
            &&& b.content_hash == a.content_hash
            &&& match last_decode(decodes, n, a.id) {
                Some(j) => b.phash == decodes[j].phash && b.dom_color == decodes[j].dom_color,
                None => b.phash == a.phash && b.dom_color == a.dom_color,
            }
        } by {
            assert(same_entry(t.media[k], before.media[k]));
        }
    }
}

/// Whether a file can be decoded.
spec fn is_decodable(path: Seq<char>) -> bool {
    text::listed(
        indexer::DECODABLE_EXTS@,
        text::lowercase(indexer::ext_or_empty(path)),
    )
}

proof fn lemma_decodable(work: Seq<(i64, Seq<char>)>)
    ensures
        forall|i: int|
            0 <= i < indexer::decodable_among(work).len() ==> is_decodable(
                (#[trigger] indexer::decodable_among(work)[i]).1,
            ) && work.contains(indexer::decodable_among(work)[i]),
        forall|i: int|
            0 <= i < work.len() && is_decodable((#[trigger] work[i]).1)
                ==> indexer::decodable_among(work).contains(work[i]),
    decreases work.len(),
{
    if work.len() > 0 {
        let rest = work.drop_last();
        let prev = indexer::decodable_among(rest);
        let cur = indexer::decodable_among(work);
        lemma_decodable(rest);
        assert forall|i: int| 0 <= i < cur.len() implies is_decodable((#[trigger] cur[i]).1)
            && work.contains(cur[i]) by {
            if i < prev.len() {
                assert(cur[i] == prev[i]);
                assert(rest.contains(prev[i]));
                let k = choose|k: int| 0 <= k < rest.len() && rest[k] == prev[i];
                assert(work[k] == cur[i]);
            } else {
                assert(cur[i] == work[work.len() - 1]);
            }
        }
        assert forall|i: int| 0 <= i < work.len() && is_decodable((#[trigger] work[i]).1) implies
            cur.contains(work[i]) by {
            if i < rest.len() {
                assert(rest[i] == work[i]);
                assert(prev.contains(rest[i]));
                let k = choose|k: int| 0 <= k < prev.len() && prev[k] == rest[i];
                assert(cur[k] == work[i]);
            } else {
                assert(cur[cur.len() - 1] == work[i]);
            }
        }
    }
}

/// The entry that a pair on the list of files to be decoded comes from.
proof fn lemma_decode_work(t: catalog::Tables, i: int) -> (k: int)
    requires
        0 <= i < decode_work(t).len(),
    ensures
        0 <= k < t.media.len(),
        catalog::needs_analysis()(t.media[k]),
        is_decodable(t.media[k].row.path),
        decode_work(t)[i] == (t.media[k].row.id, t.media[k].row.path),
{
    let p = catalog::needs_analysis();
    let rows = catalog::listed_rows(t, p);
    let pairs = catalog::ids_and_paths(rows);
    catalog::lemma_listed(t, p);
    lemma_decodable(pairs);
    assert(pairs.contains(decode_work(t)[i]));
    let m = choose|m: int| 0 <= m < pairs.len() && pairs[m] == decode_work(t)[i];
    assert(catalog::comes_from(t, p, rows[m]));
    choose|k: int|
        0 <= k < t.media.len() && p(#[trigger] t.media[k]) && rows[m] == catalog::joined_row(
            t.users,
            t.media[k].row,
        )
}

/// Every entry of a file to be decoded is on the list.
proof fn lemma_on_decode_work(t: catalog::Tables, k: int) -> (i: int)
    requires
        0 <= k < t.media.len(),
        catalog::needs_analysis()(t.media[k]),
        is_decodable(t.media[k].row.path),
    ensures
        0 <= i < decode_work(t).len(),
        decode_work(t)[i].0 == t.media[k].row.id,
{
    let p = catalog::needs_analysis();
    let rows = catalog::listed_rows(t, p);
    let pairs = catalog::ids_and_paths(rows);
    catalog::lemma_listed(t, p);
    lemma_decodable(pairs);
    let row = catalog::joined_row(t.users, t.media[k].row);
    assert(rows.contains(row));
    let m = choose|m: int| 0 <= m < rows.len() && rows[m] == row;
    assert(pairs[m] == (t.media[k].row.id, t.media[k].row.path));
    assert(decode_work(t).contains(pairs[m]));
    choose|i: int| 0 <= i < decode_work(t).len() && decode_work(t)[i] == pairs[m]
}

/// What is left to be decoded has been tried, and gave nothing.
proof fn lemma_left_to_decode(
    out: Summary,
    t: catalog::Tables,
    decodes: Seq<Decoded>,
    i: int,
) -> (j: int)
    requires
        all_tried_to_decode(decode_work(t), decodes),
        0 <= i < decode_work(
            indexer::decoded_upto(out, t, decodes, decodes.len() as int).1,
        ).len(),
    ensures
        ({
            let u = indexer::decoded_upto(out, t, decodes, decodes.len() as int).1;
            let id = decode_work(u)[i].0;
            &&& 0 <= j < decodes.len()
            &&& decodes[j].id == id
            &&& decodes[j].phash is None
            &&& forall|k: int|
                0 <= k < u.media.len() && (#[trigger] u.media[k]).row.id == id
                    ==> u.media[k].row.phash is None && u.media[k].row.dom_color is None
        }),
{
    let n = decodes.len() as int;
    let u = indexer::decoded_upto(out, t, decodes, n).1;
    lemma_decodes(out, t, decodes, n);
    let k = lemma_decode_work(u, i);
    let id = decode_work(u)[i].0;
    assert(same_entry(t.media[k], u.media[k]));
    lemma_last_decode(decodes, n, id);
    if last_decode(decodes, n, id) is None {
        assert(catalog::needs_analysis()(t.media[k]));
        let x = lemma_on_decode_work(t, k);
        assert(decode_work(t)[x].0 == id);
    }
    let j = last_decode(decodes, n, id)->0;
    assert(t.media[k].row.id == id);
    assert(is_whole(decodes[j]@));
    assert forall|m: int| 0 <= m < u.media.len() && (#[trigger] u.media[m]).row.id == id implies
        u.media[m].row.phash is None && u.media[m].row.dom_color is None by {
        assert(same_entry(t.media[m], u.media[m]));
        assert(t.media[m].row.id == id);
    }
    j
}

/// A file is left to be decoded only if that was tried and gave nothing.
pub proof fn only_what_gave_nothing_is_left_to_decode(
    out: Summary,
    t: catalog::Tables,
    decodes: Seq<Decoded>,
    i: int,
)
    requires
        all_tried_to_decode(decode_work(t), decodes),
        0 <= i < decode_work(
            indexer::decoded_upto(out, t, decodes, decodes.len() as int).1,
        ).len(),
    ensures
        exists|j: int|
            0 <= j < decodes.len() && (#[trigger] decodes[j]).id == decode_work(
                indexer::decoded_upto(out, t, decodes, decodes.len() as int).1,
            )[i].0 && decodes[j].phash is None,
{
    let j = lemma_left_to_decode(out, t, decodes, i);
    assert(decodes[j].phash is None);
}

/// Once every file that was to be decoded has been, and each decode gave a hash and a
/// colour, none is left to be.
pub proof fn decoding_leaves_nothing_to_decode(
    out: Summary,
    t: catalog::Tables,
    decodes: Seq<Decoded>,
)
    requires
        all_decoded(decode_work(t), decodes),
    ensures
        decode_work(indexer::decoded_upto(out, t, decodes, decodes.len() as int).1).len() == 0,
{
    let n = decodes.len() as int;
    let u = indexer::decoded_upto(out, t, decodes, n).1;
    if decode_work(u).len() > 0 {
        lemma_decodes(out, t, decodes, n);
        let k = lemma_decode_work(u, 0);
        assert(same_entry(t.media[k], u.media[k]));
        let id = t.media[k].row.id;
        lemma_last_decode(decodes, n, id);
        match last_decode(decodes, n, id) {
            Some(j) => {
                assert(decodes[j].phash is Some && decodes[j].dom_color is Some);
            },
            None => {
                assert(catalog::needs_analysis()(t.media[k]));
                let x = lemma_on_decode_work(t, k);
                assert(decode_work(t)[x].0 == id);
            },
        }
    }
}

/// Decoding a file gives a hash, a colour and dimensions together, or none of them.
pub proof fn decodes_give_all_or_nothing(id: i64, path: Seq<char>, event: indexer::DecodeEvent)
    ensures
        is_whole(indexer::gained(id, path, event)),
{
}

proof fn lemma_quiet_scan(
    t: catalog::Tables,
    root: Seq<char>,
    paths: Seq<Seq<char>>,
    r: Readings,
    n: int,
)
    requires
        0 <= n <= paths.len(),
        forall|i: int|
            0 <= i < paths.len() ==> !(indexer::look_of(t, root, #[trigger] paths[i], r.stats[i])
                is Examine),
    ensures
        ({
            let scan = indexer::scanned_upto(
                t,
                paths,
                indexer::events_of(indexer::looks_of(t, root, paths, r.stats), r.metas),
                n,
            );
            &&& scan.tables == t
            &&& scan.out == (Summary {
                scanned: n as nat,
                unchanged: known(r.stats, n),
                errors: scan.out.errors,
                ..indexer::blank_summary()
            })
            &&& scan.out.errors.len() + known(r.stats, n) == n
            &&& forall|i: int|
                0 <= i < n ==> match indexer::look_of(t, root, #[trigger] paths[i], r.stats[i]) {
                    Look::Current { id } => scan.seen.contains(id),
                    _ => true,
                }
        }),
    decreases n,
{
    let events = indexer::events_of(indexer::looks_of(t, root, paths, r.stats), r.metas);
    if n > 0 {
        lemma_quiet_scan(t, root, paths, r, n - 1);
        let before = indexer::scanned_upto(t, paths, events, n - 1);
        let scan = indexer::scanned_upto(t, paths, events, n);
        let look = indexer::look_of(t, root, paths[n - 1], r.stats[n - 1]);
        assert(!(look is Examine));
        assert(events[n - 1] == indexer::event_of(look, r.metas[n - 1]));
        assert forall|i: int| 0 <= i < n implies match indexer::look_of(
            t,
            root,
            #[trigger] paths[i],
            r.stats[i],
        ) {
            Look::Current { id } => scan.seen.contains(id),
            _ => true,
        } by {
            if let Look::Current { id } = indexer::look_of(t, root, paths[i], r.stats[i]) {
                if i < n - 1 {
                    assert(before.seen.contains(id));
                    let x = choose|x: int| 0 <= x < before.seen.len() && before.seen[x] == id;
                    assert(scan.seen[x] == id);
                } else {
                    assert(scan.seen[before.seen.len() as int] == id);
                }
            }
        }
    }
}

/// Whether every file that was to be decoded was tried, if images are analysed at all.
pub open spec fn is_decoded(
    t: catalog::Tables,
    root: Seq<char>,
    paths: Seq<Seq<char>>,
    analyse: bool,
    r: Readings,
) -> bool {
    if analyse {
        all_tried_to_decode(decode_work(hashed(t, root, paths, r).1), r.decodes)
    } else {
        r.decodes.len() == 0
    }
}

proof fn lemma_indexed_entries(
    t: catalog::Tables,
    root: Seq<char>,
    paths: Seq<Seq<char>>,
    r: Readings,
)
    ensures
        same_entries(scanned(t, root, paths, r).1.media, indexed(t, root, paths, r).1.media),
{
    let (out, u) = scanned(t, root, paths, r);
    let (mid, v) = hashed(t, root, paths, r);
    let w = indexed(t, root, paths, r).1;
    lemma_hashes(out, u, r.hashes, r.hashes.len() as int);
    lemma_decodes(mid, v, r.decodes, r.decodes.len() as int);
    assert forall|k: int| 0 <= k < u.media.len() implies same_entry(
        #[trigger] u.media[k],
        #[trigger] w.media[k],
    ) by {
        assert(same_entry(u.media[k], v.media[k]));
        assert(same_entry(v.media[k], w.media[k]));
    }
}

/// Once a library has been indexed, no file that is as it was has to be examined: the
/// catalog is current for each whose size and modification time can be had.
pub proof fn indexed_files_are_current(
    t: catalog::Tables,
    root: Seq<char>,
    paths: Seq<Seq<char>>,
    r: Readings,
    i: int,
)
    requires
        catalog::media_ok(t.media),
        fits(paths, r),
        are_files_of(root, paths),
        takes_in_all(t, root, paths, r),
        0 <= i < paths.len(),
    ensures
        match r.stats[i] {
            Some(stat) => indexer::look_of(
                indexed(t, root, paths, r).1,
                root,
                paths[i],
                Some(stat),
            ) is Current,
            None => true,
        },
{
    let u = scanned(t, root, paths, r).1;
    let w = indexed(t, root, paths, r).1;
    scanned_files_are_current(t, root, paths, r, i);
    lemma_indexed_entries(t, root, paths, r);
    assert forall|k: int| 0 <= k < u.media.len() implies same_file(
        #[trigger] u.media[k],
        #[trigger] w.media[k],
    ) by {
        assert(same_entry(u.media[k], w.media[k]));
    }
    lemma_same_look(u, w, root, paths[i], r.stats[i]);
}

/// Once a library has been indexed and all that was to be hashed was, nothing is left to
/// be hashed.
pub proof fn indexed_libraries_need_no_hashing(
    t: catalog::Tables,
    root: Seq<char>,
    paths: Seq<Seq<char>>,
    r: Readings,
)
    requires
        all_hashed(hash_work(scanned(t, root, paths, r).1), r.hashes),
    ensures
        hash_work(indexed(t, root, paths, r).1).len() == 0,
{
    let (out, u) = scanned(t, root, paths, r);
    let (mid, v) = hashed(t, root, paths, r);
    let w = indexed(t, root, paths, r).1;
    lemma_hashes(out, u, r.hashes, r.hashes.len() as int);
    lemma_decodes(mid, v, r.decodes, r.decodes.len() as int);
    lemma_indexed_entries(t, root, paths, r);
    assert forall|k: int| 0 <= k < u.media.len() implies ((
    #[trigger] u.media[k]).row.content_hash is Some || has_hash(
        r.hashes,
        r.hashes.len() as int,
        u.media[k].row.id,
    ) ==> w.media[k].row.content_hash is Some) by {
        assert(same_entry(u.media[k], v.media[k]));
        assert(w.media[k].row.content_hash == v.media[k].row.content_hash);
    }
    lemma_nothing_left_to_hash(u, w, r.hashes);
}

/// Scanning an indexed library again, while the sizes and modification times of its files
/// stay as they are, examines no file, whatever hashing and decoding came to: every file
/// counts as unchanged whose size and modification time can be had, and the catalog stays
/// as it was.
pub proof fn scanning_again_examines_nothing(
    t: catalog::Tables,
    root: Seq<char>,
    paths: Seq<Seq<char>>,
    r: Readings,
    again: Readings,
)
    requires
        catalog::media_ok(t.media),
        fits(paths, r),
        are_files_of(root, paths),
        takes_in_all(t, root, paths, r),
        again.stats == r.stats,
    ensures
        ({
            let w = indexed(t, root, paths, r).1;
            let (out, x) = scanned(w, root, paths, again);
            &&& x == w
            &&& out.scanned == paths.len()
            &&& out.unchanged == known(r.stats, paths.len() as int)
            &&& out.updated == 0
            &&& out.hashed == 0
            &&& out.phashed == 0
            &&& out.thumbs == 0
            &&& out.unchanged + out.errors.len() == out.scanned
        }),
{
    let n = paths.len() as int;
    let scan = scan_of(t, root, paths, r);
    let u = scanned(t, root, paths, r).1;
    let w = indexed(t, root, paths, r).1;
    assert forall|i: int| 0 <= i < paths.len() implies !(indexer::look_of(
        w,
        root,
        #[trigger] paths[i],
        again.stats[i],
    ) is Examine) by {
        indexed_files_are_current(t, root, paths, r, i);
    }
    lemma_quiet_scan(w, root, paths, again, n);
    lemma_scan(t, root, paths, r, n);
    lemma_indexed_entries(t, root, paths, r);
    let later = scan_of(w, root, paths, again);
    let gone = catalog::unseen(root, scan.seen);
    let still = catalog::unseen(root, later.seen);
    lemma_marking_keeps_files(scan.tables.media, gone);
    assert forall|k: int| 0 <= k < w.media.len() && still(#[trigger] w.media[k]) implies
        w.media[k].row.missing by {
        let before = scan.tables.media[k];
        assert(same_file(before, u.media[k]));
        assert(same_entry(u.media[k], w.media[k]));
        if scan.seen.contains(before.row.id) {
            let y = choose|y: int| 0 <= y < scan.seen.len() && scan.seen[y] == before.row.id;
            assert(is_row_of_one(scan, paths, r.stats, n, scan.seen[y]));
            let i = choose|i: int|
                0 <= i < n && (#[trigger] r.stats[i]) is Some && has_number(
                    scan.tables.media,
                    paths[i],
                    before.row.id,
                );
            indexed_files_are_current(t, root, paths, r, i);
            assert forall|m: int| 0 <= m < w.media.len() implies same_file(
                #[trigger] scan.tables.media[m],
                #[trigger] w.media[m],
            ) by {
                assert(same_file(scan.tables.media[m], u.media[m]));
                assert(same_entry(u.media[m], w.media[m]));
            }
            lemma_same_place(scan.tables.media, w.media, paths[i]);
            let m = catalog::row_at(w.media, paths[i])->0;
            assert(same_file(scan.tables.media[m], w.media[m]));
            assert(later.seen.contains(w.media[k].row.id));
        }
        assert(gone(before));
    }
    assert(catalog::marked_missing(w.media, still) =~= w.media);
    assert(indexer::reconciled(later, root) == w);
}

/// Whether decoding files again gives what it gave before: each is one that is still to
/// be decoded, and where it gave no hash it gives none again.
pub open spec fn repeats(
    work: Seq<(i64, Seq<char>)>,
    before: Seq<Decoded>,
    again: Seq<Decoded>,
) -> bool {
    forall|j: int|
        0 <= j < again.len() ==> {
            let d = #[trigger] again[j];
            &&& is_whole(d@)
            &&& exists|i: int| 0 <= i < work.len() && (#[trigger] work[i]).0 == d.id
            &&& forall|i: int|
                0 <= i < before.len() && (#[trigger] before[i]).id == d.id ==> d.phash
                    == before[i].phash
        }
}

/// Taking in decodes that gave nothing, of rows that lack everything that decoding gives,
/// changes nothing.
proof fn lemma_vain_decodes(out: Summary, t: catalog::Tables, decodes: Seq<Decoded>, n: int)
    requires
        0 <= n <= decodes.len(),
        forall|j: int|
            0 <= j < decodes.len() ==> (#[trigger] decodes[j]).phash is None && is_whole(
                decodes[j]@,
            ),
        forall|j: int, k: int|
            0 <= j < decodes.len() && 0 <= k < t.media.len() && (#[trigger] t.media[k]).row.id == (
            #[trigger] decodes[j]).id ==> t.media[k].row.phash is None && t.media[k].row.dom_color
                is None,
    ensures
        ({
            let (o, u) = indexer::decoded_upto(out, t, decodes, n);
            &&& u == t
            &&& o == (Summary { errors: o.errors, ..out })
            &&& (forall|j: int| 0 <= j < decodes.len() ==> (#[trigger] decodes[j]).error is None)
                ==> o.errors == out.errors
        }),
    decreases n,
{
    if n > 0 {
        lemma_vain_decodes(out, t, decodes, n - 1);
        let d = decodes[n - 1];
        let u = indexer::decoded_upto(out, t, decodes, n).1;
        assert(d.phash is None && is_whole(d@));
        assert forall|k: int| 0 <= k < t.media.len() implies u.media[k] == #[trigger] t.media[k] by {
            if t.media[k].row.id == d.id {
                assert(t.media[k].row.phash is None && t.media[k].row.dom_color is None);
                assert(u.media[k].row =~= t.media[k].row);
            }
        }
        assert(u.media =~= t.media);
    }
}

/// Indexing a library again, while its files stay as they are, does no work: no file is
/// examined or hashed, no decode gives anything, every file counts as unchanged whose
/// size and modification time can be had, and the catalog stays as it was. All it may do
/// is try again to decode what could not be decoded.
pub proof fn indexing_again_does_no_work(
    t: catalog::Tables,
    root: Seq<char>,
    paths: Seq<Seq<char>>,
    analyse: bool,
    r: Readings,
    again: Readings,
)
    requires
        catalog::media_ok(t.media),
        fits(paths, r),
        are_files_of(root, paths),
        takes_in_all(t, root, paths, r),
        all_hashed(hash_work(scanned(t, root, paths, r).1), r.hashes),
        is_decoded(t, root, paths, analyse, r),
        again.stats == r.stats,
        again.hashes.len() == hash_work(
            scanned(indexed(t, root, paths, r).1, root, paths, again).1,
        ).len(),
        if analyse {
            repeats(
                decode_work(hashed(indexed(t, root, paths, r).1, root, paths, again).1),
                r.decodes,
                again.decodes,
            )
        } else {
            again.decodes.len() == 0
        },
    ensures
        ({
            let w = indexed(t, root, paths, r).1;
            let (out, x) = indexed(w, root, paths, again);
            &&& x == w
            &&& out.scanned == paths.len()
            &&& out.unchanged == known(r.stats, paths.len() as int)
            &&& out.updated == 0
            &&& again.hashes.len() == 0
            &&& out.hashed == 0
            &&& out.phashed == 0
            &&& out.thumbs == 0
            &&& (forall|j: int|
                0 <= j < again.decodes.len() ==> (#[trigger] again.decodes[j]).error is None)
                ==> out.unchanged + out.errors.len() == out.scanned
        }),
{
    let (mid, v) = hashed(t, root, paths, r);
    let w = indexed(t, root, paths, r).1;
    scanning_again_examines_nothing(t, root, paths, r, again);
    indexed_libraries_need_no_hashing(t, root, paths, r);
    assert(hashed(w, root, paths, again) == scanned(w, root, paths, again));
    if analyse {
        let work = decode_work(w);
        assert forall|j: int| 0 <= j < again.decodes.len() implies (
        #[trigger] again.decodes[j]).phash is None && is_whole(again.decodes[j]@) by {
            let d = again.decodes[j];
            let i = choose|i: int| 0 <= i < work.len() && (#[trigger] work[i]).0 == d.id;
            let m = lemma_left_to_decode(mid, v, r.decodes, i);
            assert(d.phash == r.decodes[m].phash);
        }
        assert forall|j: int, k: int|
            0 <= j < again.decodes.len() && 0 <= k < w.media.len() && (
            #[trigger] w.media[k]).row.id == (#[trigger] again.decodes[j]).id implies
            w.media[k].row.phash is None && w.media[k].row.dom_color is None by {
            let d = again.decodes[j];
            let i = choose|i: int| 0 <= i < work.len() && (#[trigger] work[i]).0 == d.id;
            let m = lemma_left_to_decode(mid, v, r.decodes, i);
        }
    }
    lemma_vain_decodes(
        scanned(w, root, paths, again).0,
        w,
        again.decodes,
        again.decodes.len() as int,
    );
}

proof fn lemma_hash_errors(out: Summary, t: catalog::Tables, hashes: Seq<HashResult>, n: int)
    requires
        0 <= n <= hashes.len(),
        indexer::hashed_upto(out, t, hashes, n).0.errors.len() == 0,
    ensures
        out.errors.len() == 0,
        forall|j: int| 0 <= j < n ==> (#[trigger] hashes[j]).hash is Ok,
    decreases n,
{
    if n > 0 {
        lemma_hash_errors(out, t, hashes, n - 1);
    }
}

proof fn lemma_decode_errors(out: Summary, t: catalog::Tables, decodes: Seq<Decoded>, n: int)
    requires
        0 <= n <= decodes.len(),
        indexer::decoded_upto(out, t, decodes, n).0.errors.len() == 0,
    ensures
        out.errors.len() == 0,
        forall|j: int| 0 <= j < n ==> (#[trigger] decodes[j]).error is None,
    decreases n,
{
    if n > 0 {
        lemma_decode_errors(out, t, decodes, n - 1);
    }
}

/// After a run that reported no error, indexing the same library again while nothing has
/// changed finds every file unchanged, examines, hashes and decodes none with any gain,
/// writes no thumbnail, and leaves the catalog as it was, with what users said of images.
pub proof fn nothing_is_left_to_do_after_a_run_without_errors(
    t: catalog::Tables,
    root: Seq<char>,
    paths: Seq<Seq<char>>,
    analyse: bool,
    r: Readings,
    again: Readings,
)
    requires
        catalog::media_ok(t.media),
        fits(paths, r),
        are_files_of(root, paths),
        all_tried_to_hash(hash_work(scanned(t, root, paths, r).1), r.hashes),
        is_decoded(t, root, paths, analyse, r),
        indexed(t, root, paths, r).0.errors.len() == 0,
        again.stats == r.stats,
        again.hashes.len() == hash_work(
            scanned(indexed(t, root, paths, r).1, root, paths, again).1,
        ).len(),
        if analyse {
            repeats(
                decode_work(hashed(indexed(t, root, paths, r).1, root, paths, again).1),
                r.decodes,
                again.decodes,
            )
        } else {
            again.decodes.len() == 0
        },
    ensures
        ({
            let w = indexed(t, root, paths, r).1;
            let (out, x) = indexed(w, root, paths, again);
            &&& x == w
            &&& out.scanned == paths.len()
            &&& out.unchanged == out.scanned
            &&& out.updated == 0
            &&& out.hashed == 0
            &&& out.phashed == 0
            &&& out.thumbs == 0
            &&& (forall|j: int|
                0 <= j < again.decodes.len() ==> (#[trigger] again.decodes[j]).error is None)
                ==> out.errors.len() == 0
        }),
{
    let n = paths.len() as int;
    let (out, u) = scanned(t, root, paths, r);
    let (mid, v) = hashed(t, root, paths, r);
    lemma_decode_errors(mid, v, r.decodes, r.decodes.len() as int);
    lemma_hash_errors(out, u, r.hashes, r.hashes.len() as int);
    lemma_messages(t, root, paths, r, n);
    lemma_known(r.stats, n);
    let work = hash_work(u);
    assert forall|i: int| 0 <= i < work.len() implies exists|j: int|
        0 <= j < r.hashes.len() && (#[trigger] r.hashes[j]).id == (#[trigger] work[i]).0
            && r.hashes[j].hash is Ok by {
        let j = choose|j: int|
            0 <= j < r.hashes.len() && (#[trigger] r.hashes[j]).id == work[i].0;
        assert(r.hashes[j].hash is Ok);
    }
    indexing_again_does_no_work(t, root, paths, analyse, r, again);
}

proof fn lemma_known(stats: Seq<Option<(u64, i64)>>, n: int)
    requires
        0 <= n,
    ensures
        known(stats, n) <= n,
    decreases n,
{
    if n > 0 {
        lemma_known(stats, n - 1);
    }
}

proof fn lemma_media_are_files(root: Seq<char>, paths: Seq<Seq<char>>, images_only: bool)
    requires
        are_files_of(root, paths),
    ensures
        are_files_of(root, indexer::media_among(paths, images_only)),
        forall|i: int|
            0 <= i < indexer::media_among(paths, images_only).len() ==> paths.contains(
                #[trigger] indexer::media_among(paths, images_only)[i],
            ),
    decreases paths.len(),
{
    if paths.len() > 0 {
        let rest = paths.drop_last();
        let last = paths.len() - 1;
        assert(are_files_of(root, rest)) by {
            assert forall|i: int, j: int| 0 <= i < j < rest.len() implies #[trigger] rest[i]
                != #[trigger] rest[j] by {
                assert(rest[i] == paths[i] && rest[j] == paths[j]);
            }
            assert forall|i: int| 0 <= i < rest.len() implies catalog::is_under(
                root,
                #[trigger] rest[i],
            ) by {
                assert(rest[i] == paths[i]);
            }
        }
        lemma_media_are_files(root, rest, images_only);
        let prev = indexer::media_among(rest, images_only);
        let cur = indexer::media_among(paths, images_only);
        assert forall|i: int| 0 <= i < cur.len() implies paths.contains(#[trigger] cur[i])
            && catalog::is_under(root, cur[i]) by {
            if i < prev.len() {
                assert(cur[i] == prev[i]);
                assert(rest.contains(prev[i]));
                let m = choose|m: int| 0 <= m < rest.len() && rest[m] == prev[i];
                assert(paths[m] == cur[i]);
            } else {
                assert(cur[i] == paths[last]);
            }
        }
        assert forall|i: int, j: int| 0 <= i < j < cur.len() implies #[trigger] cur[i]
            != #[trigger] cur[j] by {
            assert(cur[i] == prev[i]);
            if j < prev.len() {
                assert(cur[j] == prev[j]);
            } else {
                assert(rest.contains(prev[i]));
                let m = choose|m: int| 0 <= m < rest.len() && rest[m] == prev[i];
                assert(paths[m] == cur[i] && paths[last] == cur[j]);
            }
        }
    }
}

proof fn lemma_kept_are_files(root: Seq<char>, paths: Seq<Seq<char>>)
    requires
        are_files_of(root, paths),
    ensures
        are_files_of(root, engine::without_log(paths)),
        forall|i: int|
            0 <= i < engine::without_log(paths).len() ==> paths.contains(
                #[trigger] engine::without_log(paths)[i],
            ),
    decreases paths.len(),
{
    if paths.len() > 0 {
        let rest = paths.drop_last();
        let last = paths.len() - 1;
        assert(are_files_of(root, rest)) by {
            assert forall|i: int, j: int| 0 <= i < j < rest.len() implies #[trigger] rest[i]
                != #[trigger] rest[j] by {
                assert(rest[i] == paths[i] && rest[j] == paths[j]);
            }
            assert forall|i: int| 0 <= i < rest.len() implies catalog::is_under(
                root,
                #[trigger] rest[i],
            ) by {
                assert(rest[i] == paths[i]);
            }
        }
        lemma_kept_are_files(root, rest);
        let prev = engine::without_log(rest);
        let cur = engine::without_log(paths);
        assert forall|i: int| 0 <= i < cur.len() implies paths.contains(#[trigger] cur[i])
            && catalog::is_under(root, cur[i]) by {
            if i < prev.len() {
                assert(cur[i] == prev[i]);
                assert(rest.contains(prev[i]));
                let m = choose|m: int| 0 <= m < rest.len() && rest[m] == prev[i];
                assert(paths[m] == cur[i]);
            } else {
                assert(cur[i] == paths[last]);
            }
        }
        assert forall|i: int, j: int| 0 <= i < j < cur.len() implies #[trigger] cur[i]
            != #[trigger] cur[j] by {
            assert(cur[i] == prev[i]);
            if j < prev.len() {
                assert(cur[j] == prev[j]);
            } else {
                assert(rest.contains(prev[i]));
                let m = choose|m: int| 0 <= m < rest.len() && rest[m] == prev[i];
                assert(paths[m] == cur[i] && paths[last] == cur[j]);
            }
        }
    }
}

/// The files that a run looks at are among those that were found: each is beneath the
/// root, and none occurs twice, if that is so of what was found.
pub proof fn files_to_index_are_files_of_the_root(
    root: Seq<char>,
    found: Seq<Seq<char>>,
    images_only: bool,
)
    requires
        are_files_of(root, found),
    ensures
        are_files_of(
            root,
            engine::sorted_paths(engine::without_log(indexer::media_among(found, images_only))),
        ),
{
    let media = indexer::media_among(found, images_only);
    let kept = engine::without_log(media);
    lemma_media_are_files(root, found, images_only);
    lemma_kept_are_files(root, media);
    let keys = kept.map_values(|p: Seq<char>| engine::path_key(p));
    let p = order::stable_order(keys);
    let sorted = engine::sorted_paths(kept);
    order::stable_order_is_in_order(keys);
    assert forall|i: int| 0 <= i < sorted.len() implies catalog::is_under(
        root,
        #[trigger] sorted[i],
    ) by {
        assert(0 <= p[i] < kept.len());
        assert(sorted[i] == kept[p[i]]);
    }
    assert forall|i: int, j: int| 0 <= i < j < sorted.len() implies #[trigger] sorted[i]
        != #[trigger] sorted[j] by {
        assert(order::before(keys, p[i], p[j]));
        order::lemma_key_order(keys[p[i]], keys[p[i]], keys[p[i]]);
        assert(p[i] != p[j]);
        assert(sorted[i] == kept[p[i]] && sorted[j] == kept[p[j]]);
        if p[i] < p[j] {
            assert(kept[p[i]] != kept[p[j]]);
        } else {
            assert(kept[p[j]] != kept[p[i]]);
        }
    }
}

/// The steps of a run add up: what it leaves behind is what its files' readings make of
/// the catalog.
pub proof fn runs_are_what_their_steps_give(
    before: indexer::IndexRun,
    t: catalog::Tables,
    looked: indexer::IndexRun,
    stats: Vec<Option<(u64, i64)>>,
    metas: Vec<Option<FileMeta>>,
    examined: indexer::IndexRun,
    u: catalog::Tables,
    hashes: Vec<HashResult>,
    hashing: indexer::IndexRun,
    v: catalog::Tables,
    decodes: Vec<Decoded>,
    after: indexer::IndexRun,
    w: catalog::Tables,
    steps: (indexer::IndexStep, indexer::IndexStep, indexer::IndexStep, indexer::IndexStep),
)
    requires
        indexer::run_goes_on(
            before,
            t,
            indexer::StepResult::Stats(stats),
            looked,
            t,
            steps.0,
        ),
        indexer::run_goes_on(
            looked,
            t,
            indexer::StepResult::Examined(metas),
            examined,
            u,
            steps.1,
        ),
        indexer::run_goes_on(
            examined,
            u,
            indexer::StepResult::Hashed(hashes),
            hashing,
            v,
            steps.2,
        ),
        if before.cfg.compute_phash {
            indexer::run_goes_on(
                hashing,
                v,
                indexer::StepResult::Decoded(decodes),
                after,
                w,
                steps.3,
            )
        } else {
            decodes@.len() == 0 && after == hashing && w == v && steps.3 == steps.2
        },
    ensures
        ({
            let root = before.cfg.root@;
            let paths = engine::views(before.files@);
            let r = Readings {
                stats: stats@,
                metas: metas@,
                hashes: hashes@,
                decodes: decodes@,
            };
            let (out, x) = indexed(t, root, paths, r);
            &&& w == x
            &&& indexer::with_stats(out, x, root, after.out@)
            &&& steps.1 matches indexer::IndexStep::Hash(work) && catalog::pairs_of(work@)
                == hash_work(scanned(t, root, paths, r).1)
            &&& before.cfg.compute_phash ==> (steps.2 matches indexer::IndexStep::Decode(work)
                && catalog::pairs_of(work@) == decode_work(hashed(t, root, paths, r).1))
            &&& steps.3 is Finished
        }),
{
    assert(engine::views(looked.files@) == engine::views(before.files@));
}

} // verus!
