//! The catalog of indexed media.
//!
//! The catalog exists so that opening a large library is instant and a rescan
//! only touches files that changed. Every expensive thing the indexer computes is
//! kept here by path, size and modification time.
//!
//! Two tables, and the split between them matters:
//!
//! * media is derived state. All of it can be recomputed from the file, so losing
//!   a row costs time, not information. It goes by path.
//! * user metadata is irreplaceable: things only the user can supply, such as
//!   whether an image is hidden. It goes by content hash, because a renamed or
//!   moved file gets a new media row but keeps its bytes.
//!
//! A third table is the ledger of quarantined files.
use vstd::hash_map::StringHashMap;
use vstd::prelude::*;

use crate::clusters;
use crate::clusters::{all_distinct, repeated};
use crate::kind::MediaKind;
use crate::metadata;
use crate::metadata::Degrees;
use crate::order;
use crate::order::{sorted_order, SortKey};
use crate::pathname;
use crate::pathname::{extension_of_path, file_name_of};
use crate::text;
use crate::text::{chars_of, clone_opt, starts_with};

verus! {

/// Version of the stored tables.
pub const SCHEMA_VERSION: i64 = 4;

/// Version of the metadata that indexing extracts: 1 was name, size, dates,
/// camera and dimensions, and 2 adds the geotag. Rows of an older version are
/// examined again even if their file is unchanged, which is how a new field
/// reaches files that were catalogued before it existed.
pub const META_VERSION: i64 = 2;

/// Whether a query includes images that the user has hidden. Every query that
/// returns media rows takes one of these, so that there is no way to read rows
/// without deciding.
#[derive(Debug, Clone, Copy, PartialEq, Eq, Structural)]
pub enum Visibility {
    /// Everything, hidden images too.
    All,
    /// Hidden images left out.
    VisibleOnly,
}

impl Visibility {
    /// The stored form.
    pub fn as_param(self) -> (r: i64)
        ensures
            r == (if self == Visibility::All {
                0i64
            } else {
                1i64
            }),
    {
        match self {
            Visibility::All => 0,
            Visibility::VisibleOnly => 1,
        }
    }
}

/// One file, with whatever has been computed for it.
#[derive(Debug, PartialEq)]
pub struct MediaRow {
    pub id: i64,
    pub path: String,
    pub file_name: String,
    pub ext: String,
    pub size: u64,
    /// Modification time, in seconds since the epoch.
    pub mtime: i64,
    /// EXIF capture time, in seconds since the epoch.
    pub date_taken: Option<i64>,
    pub camera_make: Option<String>,
    pub camera_model: Option<String>,
    pub lens: Option<String>,
    pub iso: Option<String>,
    pub width: Option<u32>,
    pub height: Option<u32>,
    /// Hash of the file's contents. Only files that share a size with another
    /// one, and those with user metadata, ever get one.
    pub content_hash: Option<String>,
    /// Perceptual hash, absent if the file could not be decoded.
    pub phash: Option<u64>,
    /// Whether a file that was indexed before is no longer there.
    pub missing: bool,
    /// Dominant colour as packed `0xRRGGBB`, absent if the file could not be
    /// decoded.
    pub dom_color: Option<u32>,
    /// Hidden by the user. It comes from the user metadata.
    pub hidden: bool,
    /// Up to five stars; none means unrated. It comes from the user metadata.
    pub rating: u8,
    /// The user's override of the guessed kind.
    pub kind_override: Option<MediaKind>,
    /// Geotag in decimal degrees, south and west negative. Set as a pair.
    pub lat: Option<Degrees>,
    pub lon: Option<Degrees>,
}

/// A media row as mathematical values.
#[verifier::ext_equal]
pub struct Row {
    pub id: i64,
    pub path: Seq<char>,
    pub file_name: Seq<char>,
    pub ext: Seq<char>,
    pub size: u64,
    pub mtime: i64,
    pub date_taken: Option<i64>,
    pub camera_make: Option<Seq<char>>,
    pub camera_model: Option<Seq<char>>,
    pub lens: Option<Seq<char>>,
    pub iso: Option<Seq<char>>,
    pub width: Option<u32>,
    pub height: Option<u32>,
    pub content_hash: Option<Seq<char>>,
    pub phash: Option<u64>,
    pub missing: bool,
    pub dom_color: Option<u32>,
    pub hidden: bool,
    pub rating: u8,
    pub kind_override: Option<MediaKind>,
    pub lat: Option<Degrees>,
    pub lon: Option<Degrees>,
}

impl View for MediaRow {
    type V = Row;

    open spec fn view(&self) -> Row {
        Row {
            id: self.id,
            path: self.path@,
            file_name: self.file_name@,
            ext: self.ext@,
            size: self.size,
            mtime: self.mtime,
            date_taken: self.date_taken,
            camera_make: text::opt_view(self.camera_make),
            camera_model: text::opt_view(self.camera_model),
            lens: text::opt_view(self.lens),
            iso: text::opt_view(self.iso),
            width: self.width,
            height: self.height,
            content_hash: text::opt_view(self.content_hash),
            phash: self.phash,
            missing: self.missing,
            dom_color: self.dom_color,
            hidden: self.hidden,
            rating: self.rating,
            kind_override: self.kind_override,
            lat: self.lat,
            lon: self.lon,
        }
    }
}

/// Media rows as mathematical values.
pub open spec fn rows_of(rows: Seq<MediaRow>) -> Seq<Row> {
    rows.map_values(|r: MediaRow| r@)
}

/// A row of which nothing is known.
pub open spec fn blank_row() -> Row {
    Row {
        id: 0,
        path: Seq::empty(),
        file_name: Seq::empty(),
        ext: Seq::empty(),
        size: 0,
        mtime: 0,
        date_taken: None,
        camera_make: None,
        camera_model: None,
        lens: None,
        iso: None,
        width: None,
        height: None,
        content_hash: None,
        phash: None,
        missing: false,
        dom_color: None,
        hidden: false,
        rating: 0,
        kind_override: None,
        lat: None,
        lon: None,
    }
}

impl Default for MediaRow {
    fn default() -> (r: Self)
        ensures
            r@ == blank_row(),
    {
        MediaRow {
            id: 0,
            path: String::new(),
            file_name: String::new(),
            ext: String::new(),
            size: 0,
            mtime: 0,
            date_taken: None,
            camera_make: None,
            camera_model: None,
            lens: None,
            iso: None,
            width: None,
            height: None,
            content_hash: None,
            phash: None,
            missing: false,
            dom_color: None,
            hidden: false,
            rating: 0,
            kind_override: None,
            lat: None,
            lon: None,
        }
    }
}

impl Clone for MediaRow {
    fn clone(&self) -> (r: Self)
        ensures
            r@ == self@,
    {
        MediaRow {
            id: self.id,
            path: self.path.clone(),
            file_name: self.file_name.clone(),
            ext: self.ext.clone(),
            size: self.size,
            mtime: self.mtime,
            date_taken: self.date_taken,
            camera_make: clone_opt(&self.camera_make),
            camera_model: clone_opt(&self.camera_model),
            lens: clone_opt(&self.lens),
            iso: clone_opt(&self.iso),
            width: self.width,
            height: self.height,
            content_hash: clone_opt(&self.content_hash),
            phash: self.phash,
            missing: self.missing,
            dom_color: self.dom_color,
            hidden: self.hidden,
            rating: self.rating,
            kind_override: self.kind_override,
            lat: self.lat,
            lon: self.lon,
        }
    }
}

impl MediaRow {
    /// The coordinates of a photo with a complete geotag.
    pub fn coords(&self) -> (r: Option<(Degrees, Degrees)>)
        ensures
            r == (match (self@.lat, self@.lon) {
                (Some(lat), Some(lon)) => Some((lat, lon)),
                _ => None,
            }),
    {
        match (self.lat, self.lon) {
            (Some(lat), Some(lon)) => Some((lat, lon)),
            _ => None,
        }
    }
}

/// A row as it is kept: what the indexer computed, and which version of metadata
/// extraction it comes from. What the user supplied is kept apart, so the row's
/// own fields for it are blank.
#[derive(Debug)]
pub struct Entry {
    pub row: MediaRow,
    pub meta_version: i64,
}

/// A kept row as mathematical values.
#[verifier::ext_equal]
pub struct Stored {
    pub row: Row,
    pub meta_version: i64,
}

impl View for Entry {
    type V = Stored;

    open spec fn view(&self) -> Stored {
        Stored { row: self.row@, meta_version: self.meta_version }
    }
}

impl Clone for Entry {
    fn clone(&self) -> (r: Self)
        ensures
            r@ == self@,
    {
        Entry { row: self.row.clone(), meta_version: self.meta_version }
    }
}

/// Kept rows as mathematical values.
pub open spec fn stored_of(entries: Seq<Entry>) -> Seq<Stored> {
    entries.map_values(|e: Entry| e@)
}

/// What the user supplied for the image with a content hash.
#[derive(Debug)]
pub struct UserMeta {
    pub content_hash: String,
    pub hidden: bool,
    pub rating: u8,
    pub kind: Option<MediaKind>,
}

/// What the user supplied for an image, as mathematical values.
pub struct UserMarks {
    pub hidden: bool,
    pub rating: u8,
    pub kind: Option<MediaKind>,
}

impl UserMeta {
    /// What the user supplied.
    pub open spec fn marks(&self) -> UserMarks {
        UserMarks { hidden: self.hidden, rating: self.rating, kind: self.kind }
    }
}

/// Nothing supplied.
pub open spec fn no_marks() -> UserMarks {
    UserMarks { hidden: false, rating: 0, kind: None }
}

/// What the user supplied, by content hash.
pub open spec fn users_of(users: Seq<UserMeta>) -> Map<Seq<char>, UserMarks>
    decreases users.len(),
{
    if users.len() == 0 {
        Map::empty()
    } else {
        users_of(users.drop_last()).insert(users.last().content_hash@, users.last().marks())
    }
}

/// A line of the quarantine ledger.
#[derive(Debug)]
pub struct LedgerLine {
    pub id: i64,
    pub batch: i64,
    pub original_path: String,
    pub quarantine_path: String,
    pub restored: bool,
}

/// A ledger line as mathematical values.
#[verifier::ext_equal]
pub struct Line {
    pub id: i64,
    pub batch: i64,
    pub original_path: Seq<char>,
    pub quarantine_path: Seq<char>,
    pub restored: bool,
}

impl View for LedgerLine {
    type V = Line;

    open spec fn view(&self) -> Line {
        Line {
            id: self.id,
            batch: self.batch,
            original_path: self.original_path@,
            quarantine_path: self.quarantine_path@,
            restored: self.restored,
        }
    }
}

/// Ledger lines as mathematical values.
pub open spec fn lines_of(lines: Seq<LedgerLine>) -> Seq<Line> {
    lines.map_values(|l: LedgerLine| l@)
}

/// One quarantined file: enough to put it back.
#[derive(Debug, PartialEq)]
pub struct QuarantineEntry {
    pub id: i64,
    pub batch: i64,
    pub original_path: String,
    pub quarantine_path: String,
}

/// A quarantined file as mathematical values.
#[verifier::ext_equal]
pub struct Held {
    pub id: i64,
    pub batch: i64,
    pub original_path: Seq<char>,
    pub quarantine_path: Seq<char>,
}

impl View for QuarantineEntry {
    type V = Held;

    open spec fn view(&self) -> Held {
        Held {
            id: self.id,
            batch: self.batch,
            original_path: self.original_path@,
            quarantine_path: self.quarantine_path@,
        }
    }
}

impl Clone for QuarantineEntry {
    fn clone(&self) -> (r: Self)
        ensures
            r@ == self@,
    {
        QuarantineEntry {
            id: self.id,
            batch: self.batch,
            original_path: self.original_path.clone(),
            quarantine_path: self.quarantine_path.clone(),
        }
    }
}

/// The minimum needed to decide whether a file has to be examined again.
#[derive(Debug, Clone, Copy, PartialEq, Eq, Structural)]
pub struct Stamp {
    pub id: i64,
    pub size: u64,
    pub mtime: i64,
    pub has_content_hash: bool,
    pub has_phash: bool,
    pub meta_version: i64,
}

#[derive(Debug, Clone, Copy, PartialEq, Eq, Structural)]
pub struct CatalogStats {
    pub files: usize,
    pub hashed: usize,
    pub phashed: usize,
    pub bytes: u64,
}

impl Default for CatalogStats {
    fn default() -> (r: Self)
        ensures
            r == (CatalogStats { files: 0, hashed: 0, phashed: 0, bytes: 0 }),
    {
        CatalogStats { files: 0, hashed: 0, phashed: 0, bytes: 0 }
    }
}

/// Why the catalog cannot do what it is asked.
#[derive(Debug, Clone, Copy, PartialEq, Eq, Structural)]
pub enum CatalogError {
    /// There is no number left for a new row.
    NoMoreIds,
    /// The sum of the sizes is beyond a signed number of 64 bits.
    SizeOverflow,
}

/// An error in words.
pub open spec fn error_words(e: CatalogError) -> Seq<char> {
    match e {
        CatalogError::NoMoreIds => "no row number left"@,
        CatalogError::SizeOverflow => "integer overflow"@,
    }
}

impl CatalogError {
    /// The error in words.
    pub fn message(self) -> (r: &'static str)
        ensures
            r@ == error_words(self),
    {
        match self {
            CatalogError::NoMoreIds => "no row number left",
            CatalogError::SizeOverflow => "integer overflow",
        }
    }
}

/// The catalog's tables as mathematical values.
#[verifier::ext_equal]
pub struct Tables {
    pub media: Seq<Stored>,
    pub users: Map<Seq<char>, UserMarks>,
    pub ledger: Seq<Line>,
}

/// A root with a slash at its end.
pub open spec fn with_slash(root: Seq<char>) -> Seq<char> {
    if root.len() > 0 && root.last() == '/' {
        root
    } else {
        root.push('/')
    }
}

/// Whether a path is beneath a root. The slash keeps `/photos/library` from
/// being beneath `/photos/lib`.
pub open spec fn is_under(root: Seq<char>, path: Seq<char>) -> bool {
    text::begins_with(path, with_slash(root))
}

/// Where the row for a path is, if there is one.
pub open spec fn row_at(media: Seq<Stored>, path: Seq<char>) -> Option<int>
    decreases media.len(),
{
    if media.len() == 0 {
        None
    } else if media.last().row.path == path {
        Some(media.len() - 1)
    } else {
        row_at(media.drop_last(), path)
    }
}

/// The largest number of a row, or zero if there is none.
pub open spec fn max_id(media: Seq<Stored>) -> int
    decreases media.len(),
{
    if media.len() == 0 {
        0
    } else {
        let rest = max_id(media.drop_last());
        if media.last().row.id > rest {
            media.last().row.id as int
        } else {
            rest
        }
    }
}

/// What is kept of a row: its number is the catalog's, and what the user
/// supplies is not part of it.
pub open spec fn kept(row: Row, id: i64) -> Row {
    Row { id, missing: false, hidden: false, rating: 0, kind_override: None, ..row }
}

/// Whether a file is unchanged: same size and modification time.
pub open spec fn unchanged(old_row: Row, new_row: Row) -> bool {
    old_row.size == new_row.size && old_row.mtime == new_row.mtime
}

/// What is kept of a row for a file that already has one. The hashes and colour
/// of an unchanged file stay; those of a changed file are dropped for the new
/// row's.
pub open spec fn refreshed(old_row: Row, new_row: Row) -> Row {
    let base = kept(new_row, old_row.id);
    if unchanged(old_row, new_row) {
        Row {
            content_hash: old_row.content_hash,
            phash: old_row.phash,
            dom_color: old_row.dom_color,
            ..base
        }
    } else {
        base
    }
}

/// The media rows after one is inserted or updated.
pub open spec fn upserted(media: Seq<Stored>, row: Row) -> Seq<Stored> {
    match row_at(media, row.path) {
        Some(k) => media.update(
            k,
            Stored { row: refreshed(media[k].row, row), meta_version: META_VERSION },
        ),
        None => media.push(
            Stored { row: kept(row, (max_id(media) + 1) as i64), meta_version: META_VERSION },
        ),
    }
}

/// The number of the row for a path after it is inserted or updated.
pub open spec fn upserted_id(media: Seq<Stored>, row: Row) -> int {
    match row_at(media, row.path) {
        Some(k) => media[k].row.id as int,
        None => max_id(media) + 1,
    }
}

/// The media rows with `f` applied to the row of the given number.
pub open spec fn with_row(media: Seq<Stored>, id: i64, f: spec_fn(Row) -> Row) -> Seq<Stored> {
    media.map_values(
        |s: Stored|
            if s.row.id == id {
                Stored { row: f(s.row), meta_version: s.meta_version }
            } else {
                s
            },
    )
}

/// The media rows that something holds of, in order.
pub open spec fn selected(media: Seq<Stored>, p: spec_fn(Stored) -> bool) -> Seq<Stored>
    decreases media.len(),
{
    if media.len() == 0 {
        Seq::empty()
    } else if p(media.last()) {
        selected(media.drop_last(), p).push(media.last())
    } else {
        selected(media.drop_last(), p)
    }
}

/// What the user supplied for a row: that of its content hash, if it has one.
pub open spec fn marks_of(users: Map<Seq<char>, UserMarks>, row: Row) -> UserMarks {
    if row.content_hash is Some && users.contains_key(row.content_hash->0) {
        users[row.content_hash->0]
    } else {
        no_marks()
    }
}

/// A row with what the user supplied for it.
pub open spec fn joined_row(users: Map<Seq<char>, UserMarks>, row: Row) -> Row {
    let m = marks_of(users, row);
    Row { hidden: m.hidden, rating: m.rating, kind_override: m.kind, ..row }
}

/// Whether a row is shown: its file is there, and it is not hidden or hidden
/// ones are asked for.
pub open spec fn is_shown(
    users: Map<Seq<char>, UserMarks>,
    row: Row,
    visibility: Visibility,
) -> bool {
    !row.missing && (visibility == Visibility::All || !marks_of(users, row).hidden)
}

/// Rows sorted by the text of their path.
pub open spec fn by_path_text(rows: Seq<Row>) -> Seq<Row> {
    order::stable_order(rows.map_values(|r: Row| path_text_key(r))).map_values(|i: int| rows[i])
}

/// What rows are sorted by.
pub open spec fn path_text_key(row: Row) -> order::Key {
    order::Key { lead: row.path, ..order::no_key() }
}

/// The rows that a query with the given condition on stored rows lists, with
/// what the user supplied, sorted by path.
pub open spec fn listed_rows(t: Tables, p: spec_fn(Stored) -> bool) -> Seq<Row> {
    by_path_text(selected(t.media, p).map_values(|s: Stored| joined_row(t.users, s.row)))
}

/// The condition of the query for all rows that are shown.
pub open spec fn shown(t: Tables, visibility: Visibility) -> spec_fn(Stored) -> bool {
    |s: Stored| is_shown(t.users, s.row, visibility)
}

/// The condition of the query for the rows beneath a root that are shown.
pub open spec fn shown_under(t: Tables, root: Seq<char>, visibility: Visibility) -> spec_fn(
    Stored,
) -> bool {
    |s: Stored| is_shown(t.users, s.row, visibility) && is_under(root, s.row.path)
}

/// The catalog.
#[derive(Debug)]
pub struct Catalog {
    media: Vec<Entry>,
    users: Vec<UserMeta>,
    ledger: Vec<LedgerLine>,
}

impl View for Catalog {
    type V = Tables;

    closed spec fn view(&self) -> Tables {
        Tables {
            media: stored_of(self.media@),
            users: users_of(self.users@),
            ledger: lines_of(self.ledger@),
        }
    }
}

/// Whether each row has its own number and path, and a size that fits a signed
/// number.
pub open spec fn media_ok(media: Seq<Stored>) -> bool {
    &&& forall|i: int, j: int|
        0 <= i < j < media.len() ==> (#[trigger] media[i]).row.id != (#[trigger] media[j]).row.id
            && media[i].row.path != media[j].row.path
    &&& forall|i: int| 0 <= i < media.len() ==> (#[trigger] media[i]).row.size <= i64::MAX
}

/// Whether each ledger line has its own number.
pub open spec fn ledger_ok(ledger: Seq<Line>) -> bool {
    forall|i: int, j: int|
        0 <= i < j < ledger.len() ==> (#[trigger] ledger[i]).id != (#[trigger] ledger[j]).id
}

pub(crate) proof fn lemma_row_at(media: Seq<Stored>, path: Seq<char>)
    ensures
        match row_at(media, path) {
            Some(k) => 0 <= k < media.len() && media[k].row.path == path,
            None => forall|i: int| 0 <= i < media.len() ==> (#[trigger] media[i]).row.path != path,
        },
    decreases media.len(),
{
    if media.len() > 0 && media.last().row.path != path {
        lemma_row_at(media.drop_last(), path);
        match row_at(media.drop_last(), path) {
            Some(k) => {
                assert(media[k] == media.drop_last()[k]);
            },
            None => {
                assert forall|i: int| 0 <= i < media.len() implies (#[trigger] media[i]).row.path
                    != path by {
                    if i < media.len() - 1 {
                        assert(media.drop_last()[i] == media[i]);
                    }
                }
            },
        }
    }
}

pub(crate) proof fn lemma_row_at_is(media: Seq<Stored>, path: Seq<char>, k: int)
    requires
        media_ok(media),
        0 <= k < media.len(),
        media[k].row.path == path,
    ensures
        row_at(media, path) == Some(k),
{
    lemma_row_at(media, path);
    match row_at(media, path) {
        Some(j) => {
            if j < k {
                assert(media[j].row.path != media[k].row.path);
            } else if k < j {
                assert(media[k].row.path != media[j].row.path);
            }
        },
        None => {
            assert(media[k].row.path != path);
        },
    }
}

pub(crate) proof fn lemma_max_id(media: Seq<Stored>)
    ensures
        0 <= max_id(media) <= i64::MAX,
        forall|i: int| 0 <= i < media.len() ==> (#[trigger] media[i]).row.id <= max_id(media),
    decreases media.len(),
{
    if media.len() > 0 {
        lemma_max_id(media.drop_last());
        assert forall|i: int| 0 <= i < media.len() implies (#[trigger] media[i]).row.id <= max_id(
            media,
        ) by {
            if i < media.len() - 1 {
                assert(media.drop_last()[i] == media[i]);
            }
        }
    }
}

/// Media rows stay well-formed when one is inserted or updated.
pub proof fn lemma_upserted_ok(media: Seq<Stored>, row: Row)
    requires
        media_ok(media),
        row.size <= i64::MAX,
        row_at(media, row.path) is None ==> max_id(media) < i64::MAX,
    ensures
        media_ok(upserted(media, row)),
{
    lemma_row_at(media, row.path);
    lemma_max_id(media);
    let next = upserted(media, row);
    match row_at(media, row.path) {
        Some(k) => {
            assert forall|i: int, j: int| 0 <= i < j < next.len() implies (
            #[trigger] next[i]).row.id != (#[trigger] next[j]).row.id && next[i].row.path
                != next[j].row.path by {
                assert(media[i].row.id != media[j].row.id);
            }
        },
        None => {
            assert forall|i: int, j: int| 0 <= i < j < next.len() implies (
            #[trigger] next[i]).row.id != (#[trigger] next[j]).row.id && next[i].row.path
                != next[j].row.path by {
                assert(next[i] == media[i]);
                if j < media.len() {
                    assert(next[j] == media[j]);
                } else {
                    assert(media[i].row.id <= max_id(media));
                }
            }
        },
    }
}

impl Catalog {
    /// Each row has its own number and path, each content hash one record, and
    /// each ledger line its own number.
    pub closed spec fn wf(&self) -> bool {
        &&& media_ok(stored_of(self.media@))
        &&& users_valid(self.users@)
        &&& ledger_ok(lines_of(self.ledger@))
    }

    /// What well-formedness promises.
    pub proof fn lemma_wf(&self)
        requires
            self.wf(),
        ensures
            media_ok(self@.media),
            ledger_ok(self@.ledger),
    {
    }

    /// An empty catalog.
    pub fn new() -> (r: Self)
        ensures
            r.wf(),
            r@ == (Tables {
                media: Seq::<Stored>::empty(),
                users: Map::<Seq<char>, UserMarks>::empty(),
                ledger: Seq::<Line>::empty(),
            }),
    {
        let r: Catalog = Catalog { media: Vec::new(), users: Vec::new(), ledger: Vec::new() };
        assert(stored_of(r.media@) =~= Seq::<Stored>::empty());
        assert(lines_of(r.ledger@) =~= Seq::<Line>::empty());
        r
    }

    fn find_path(&self, path: &String) -> (r: Option<usize>)
        requires
            self.wf(),
        ensures
            match r {
                Some(k) => k < self.media@.len() && row_at(self@.media, path@) == Some(k as int),
                None => row_at(self@.media, path@) is None,
            },
    {
        let ghost media = self@.media;
        let mut i: usize = 0;
        while i < self.media.len()
            invariant
                self.wf(),
                media == stored_of(self.media@),
                i <= self.media@.len(),
                forall|k: int| 0 <= k < i ==> (#[trigger] media[k]).row.path != path@,
            decreases self.media@.len() - i,
        {
            assert(media[i as int] == self.media@[i as int]@);
            if self.media[i].row.path == *path {
                proof {
                    lemma_row_at_is(media, path@, i as int);
                }
                return Some(i);
            }
            i += 1;
        }
        proof {
            lemma_row_at(media, path@);
        }
        None
    }

    fn largest_id(&self) -> (r: i64)
        ensures
            r == max_id(self@.media),
    {
        let ghost media = self@.media;
        let mut max: i64 = 0;
        let mut i: usize = 0;
        assert(media.take(0) =~= Seq::<Stored>::empty());
        while i < self.media.len()
            invariant
                media == stored_of(self.media@),
                i <= self.media@.len(),
                max == max_id(media.take(i as int)),
            decreases self.media@.len() - i,
        {
            proof {
                assert(media.take(i + 1).drop_last() =~= media.take(i as int));
                assert(media.take(i + 1).last() == self.media@[i as int]@);
            }
            if self.media[i].row.id > max {
                max = self.media[i].row.id;
            }
            i += 1;
        }
        assert(media.take(i as int) =~= media);
        max
    }

    /// Inserts or updates the part of a row that walking the library computes.
    /// Hashes of an unchanged file are kept; a changed size or modification time
    /// means that the bytes may differ, so they are dropped.
    pub fn upsert_media(&mut self, row: &MediaRow) -> (r: Result<i64, CatalogError>)
        requires
            old(self).wf(),
            row.size <= i64::MAX,
        ensures
            final(self).wf(),
            r is Err <==> row_at(old(self)@.media, row@.path) is None && max_id(
                old(self)@.media,
            ) == i64::MAX,
            r is Err ==> r->Err_0 == CatalogError::NoMoreIds && final(self)@ == old(self)@,
            r is Ok ==> r->Ok_0 == upserted_id(old(self)@.media, row@),
            r is Ok ==> final(self)@ == (Tables {
                media: upserted(old(self)@.media, row@),
                ..old(self)@
            }),
    {
        let ghost media = self@.media;
        let ghost tables = self@;
        let mut copy: MediaRow = row.clone();
        copy.missing = false;
        copy.hidden = false;
        copy.rating = 0;
        copy.kind_override = None;
        match self.find_path(&row.path) {
            Some(k) => {
                proof {
                    lemma_upserted_ok(media, row@);
                    assert(media[k as int] == self.media@[k as int]@);
                }
                let prior: &MediaRow = &self.media[k].row;
                let id: i64 = prior.id;
                copy.id = id;
                if prior.size == row.size && prior.mtime == row.mtime {
                    copy.content_hash = clone_opt(&prior.content_hash);
                    copy.phash = prior.phash;
                    copy.dom_color = prior.dom_color;
                }
                assert(copy@ =~= refreshed(media[k as int].row, row@));
                let entry: Entry = Entry { row: copy, meta_version: META_VERSION };
                self.media.set(k, entry);
                assert(stored_of(self.media@) =~= upserted(media, row@));
                Ok(id)
            },
            None => {
                let max: i64 = self.largest_id();
                if max == i64::MAX {
                    return Err(CatalogError::NoMoreIds);
                }
                proof {
                    lemma_upserted_ok(media, row@);
                }
                copy.id = max + 1;
                assert(copy@ =~= kept(row@, (max_id(media) + 1) as i64));
                let ghost before = self.media@;
                let entry: Entry = Entry { row: copy, meta_version: META_VERSION };
                self.media.push(entry);
                assert(stored_of(self.media@) =~= upserted(media, row@));
                Ok(max + 1)
            },
        }
    }
}

/// A row with a content hash.
pub open spec fn with_hash(hash: Seq<char>) -> spec_fn(Row) -> Row {
    |r: Row| Row { content_hash: Some(hash), ..r }
}

/// A row with what decoding its file gave.
pub open spec fn with_analysis(phash: Option<u64>, dom_color: Option<u32>) -> spec_fn(Row) -> Row {
    |r: Row| Row { phash, dom_color, ..r }
}

/// A row with measured dimensions.
pub open spec fn with_dimensions(width: u32, height: u32) -> spec_fn(Row) -> Row {
    |r: Row| Row { width: Some(width), height: Some(height), ..r }
}

/// The rows that a walk of `root` did not see: those beneath it whose number is
/// not among those seen.
pub open spec fn unseen(root: Seq<char>, seen: Seq<i64>) -> spec_fn(Stored) -> bool {
    |s: Stored| is_under(root, s.row.path) && !seen.contains(s.row.id)
}

/// The media rows once those that something holds of are marked missing.
pub open spec fn marked_missing(media: Seq<Stored>, p: spec_fn(Stored) -> bool) -> Seq<Stored> {
    media.map_values(
        |s: Stored|
            if p(s) {
                Stored { row: Row { missing: true, ..s.row }, meta_version: s.meta_version }
            } else {
                s
            },
    )
}

/// A row moved to another path.
pub open spec fn moved_row(row: Row, to: Seq<char>) -> Row {
    Row {
        path: to,
        file_name: metadata::or_empty(pathname::file_name(to)),
        ext: metadata::or_empty(pathname::extension(to)),
        missing: false,
        ..row
    }
}

/// The media rows after a file was moved: a stale row at the destination is
/// dropped, and the file's own row follows it.
pub open spec fn after_move(media: Seq<Stored>, from: Seq<char>, to: Seq<char>) -> Seq<Stored> {
    let cleared = selected(media, |s: Stored| s.row.path != to || s.row.path == from);
    cleared.map_values(
        |s: Stored|
            if s.row.path == from {
                Stored { row: moved_row(s.row, to), meta_version: s.meta_version }
            } else {
                s
            },
    )
}

/// The media rows after files were moved, one after another.
pub open spec fn after_moves(media: Seq<Stored>, moves: Seq<(Seq<char>, Seq<char>)>) -> Seq<Stored>
    decreases moves.len(),
{
    if moves.len() == 0 {
        media
    } else {
        after_move(after_moves(media, moves.drop_last()), moves.last().0, moves.last().1)
    }
}

/// How many of the moves were of a file with a row.
pub open spec fn followed(media: Seq<Stored>, moves: Seq<(Seq<char>, Seq<char>)>) -> nat
    decreases moves.len(),
{
    if moves.len() == 0 {
        0
    } else {
        followed(media, moves.drop_last()) + (if row_at(
            after_moves(media, moves.drop_last()),
            moves.last().0,
        ) is Some {
            1nat
        } else {
            0nat
        })
    }
}

/// Moves as mathematical values.
pub open spec fn moves_of(moves: Seq<(String, String)>) -> Seq<(Seq<char>, Seq<char>)> {
    moves.map_values(|m: (String, String)| (m.0@, m.1@))
}

proof fn lemma_selected(media: Seq<Stored>, p: spec_fn(Stored) -> bool)
    ensures
        selected(media, p).len() <= media.len(),
        forall|i: int|
            0 <= i < selected(media, p).len() ==> p(#[trigger] selected(media, p)[i])
                && media.contains(selected(media, p)[i]),
        forall|i: int|
            0 <= i < media.len() && p(#[trigger] media[i]) ==> selected(media, p).contains(media[i]),
        media_ok(media) ==> media_ok(selected(media, p)),
    decreases media.len(),
{
    if media.len() > 0 {
        let rest = media.drop_last();
        lemma_selected(rest, p);
        let prev = selected(rest, p);
        let cur = selected(media, p);
        assert forall|i: int| 0 <= i < cur.len() implies p(#[trigger] cur[i]) && media.contains(
            cur[i],
        ) by {
            if i < prev.len() {
                assert(cur[i] == prev[i]);
                assert(rest.contains(prev[i]));
                let k = choose|k: int| 0 <= k < rest.len() && rest[k] == prev[i];
                assert(media[k] == cur[i]);
            } else {
                assert(cur[i] == media[media.len() - 1]);
            }
        }
        assert forall|i: int| 0 <= i < media.len() && p(#[trigger] media[i]) implies cur.contains(
            media[i],
        ) by {
            if i < rest.len() {
                assert(rest[i] == media[i]);
                assert(prev.contains(rest[i]));
                let k = choose|k: int| 0 <= k < prev.len() && prev[k] == rest[i];
                assert(cur[k] == media[i]);
            } else {
                assert(cur[cur.len() - 1] == media[i]);
            }
        }
        if media_ok(media) {
            assert(media_ok(rest)) by {
                assert forall|i: int, j: int| 0 <= i < j < rest.len() implies (
                #[trigger] rest[i]).row.id != (#[trigger] rest[j]).row.id && rest[i].row.path
                    != rest[j].row.path by {
                    assert(rest[i] == media[i] && rest[j] == media[j]);
                }
                assert forall|i: int| 0 <= i < rest.len() implies (#[trigger] rest[i]).row.size
                    <= i64::MAX by {
                    assert(rest[i] == media[i]);
                }
            }
            assert forall|i: int, j: int| 0 <= i < j < cur.len() implies (#[trigger] cur[i]).row.id
                != (#[trigger] cur[j]).row.id && cur[i].row.path != cur[j].row.path by {
                assert(cur[i] == prev[i]);
                if j < prev.len() {
                    assert(cur[j] == prev[j]);
                } else {
                    assert(rest.contains(prev[i]));
                    let k = choose|k: int| 0 <= k < rest.len() && rest[k] == prev[i];
                    assert(media[k] == cur[i]);
                    assert(media[media.len() - 1] == cur[j]);
                }
            }
            assert forall|i: int| 0 <= i < cur.len() implies (#[trigger] cur[i]).row.size
                <= i64::MAX by {
                if i < prev.len() {
                    assert(cur[i] == prev[i]);
                } else {
                    assert(cur[i] == media[media.len() - 1]);
                }
            }
        }
    }
}

proof fn lemma_selected_push(media: Seq<Stored>, p: spec_fn(Stored) -> bool, n: int)
    requires
        0 <= n < media.len(),
    ensures
        selected(media.take(n + 1), p) == (if p(media[n]) {
            selected(media.take(n), p).push(media[n])
        } else {
            selected(media.take(n), p)
        }),
{
    assert(media.take(n + 1).drop_last() =~= media.take(n));
    assert(media.take(n + 1).last() == media[n]);
}

proof fn lemma_after_move_ok(media: Seq<Stored>, from: Seq<char>, to: Seq<char>)
    requires
        media_ok(media),
    ensures
        media_ok(after_move(media, from, to)),
{
    let p = |s: Stored| s.row.path != to || s.row.path == from;
    lemma_selected(media, p);
    let cleared = selected(media, p);
    let next = after_move(media, from, to);
    assert forall|i: int, j: int| 0 <= i < j < next.len() implies (#[trigger] next[i]).row.id != (
    #[trigger] next[j]).row.id && next[i].row.path != next[j].row.path by {
        assert(cleared[i].row.id != cleared[j].row.id && cleared[i].row.path
            != cleared[j].row.path);
        assert(p(cleared[i]) && p(cleared[j]));
    }
    assert forall|i: int| 0 <= i < next.len() implies (#[trigger] next[i]).row.size <= i64::MAX by {
        assert(cleared[i].row.size <= i64::MAX);
    }
}

impl Catalog {
    fn find_id(&self, id: i64) -> (r: Option<usize>)
        requires
            self.wf(),
        ensures
            match r {
                Some(k) => k < self.media@.len() && self.media@[k as int].row.id == id && forall|
                    i: int,
                |
                    0 <= i < self.media@.len() && i != k ==> (#[trigger] self.media@[i]).row.id
                        != id,
                None => forall|i: int|
                    0 <= i < self.media@.len() ==> (#[trigger] self.media@[i]).row.id != id,
            },
    {
        let ghost media = self@.media;
        let mut i: usize = 0;
        while i < self.media.len()
            invariant
                self.wf(),
                media == stored_of(self.media@),
                i <= self.media@.len(),
                forall|k: int| 0 <= k < i ==> (#[trigger] self.media@[k]).row.id != id,
            decreases self.media@.len() - i,
        {
            if self.media[i].row.id == id {
                proof {
                    assert forall|k: int| 0 <= k < self.media@.len() && k != i implies (
                    #[trigger] self.media@[k]).row.id != id by {
                        assert(media[k] == self.media@[k]@ && media[i as int]
                            == self.media@[i as int]@);
                    }
                }
                return Some(i);
            }
            i += 1;
        }
        None
    }

    /// Records a row's content hash.
    pub fn set_content_hash(&mut self, id: i64, hash: &str)
        requires
            old(self).wf(),
        ensures
            final(self).wf(),
            final(self)@ == (Tables {
                media: with_row(old(self)@.media, id, with_hash(hash@)),
                ..old(self)@
            }),
    {
        let ghost media = self@.media;
        let ghost next = with_row(media, id, with_hash(hash@));
        let ghost entries = self.media@;
        if let Some(k) = self.find_id(id) {
            let mut entry: Entry = self.media[k].clone();
            entry.row.content_hash = Some(chars_to_string(hash));
            self.media.set(k, entry);
        }
        assert(stored_of(self.media@) =~= next) by {
            assert forall|i: int| 0 <= i < next.len() implies stored_of(self.media@)[i]
                == next[i] by {
                assert(media[i] == entries[i]@);
            }
        }
        proof {
            lemma_with_row_ok(media, id, with_hash(hash@));
        }
    }

    /// Records everything that one decode gave. What is absent is tried again on
    /// the next scan.
    pub fn set_analysis(&mut self, id: i64, phash: Option<u64>, dom_color: Option<u32>)
        requires
            old(self).wf(),
        ensures
            final(self).wf(),
            final(self)@ == (Tables {
                media: with_row(old(self)@.media, id, with_analysis(phash, dom_color)),
                ..old(self)@
            }),
    {
        let ghost media = self@.media;
        let ghost next = with_row(media, id, with_analysis(phash, dom_color));
        let ghost entries = self.media@;
        if let Some(k) = self.find_id(id) {
            let mut entry: Entry = self.media[k].clone();
            entry.row.phash = phash;
            entry.row.dom_color = dom_color;
            self.media.set(k, entry);
        }
        assert(stored_of(self.media@) =~= next) by {
            assert forall|i: int| 0 <= i < next.len() implies stored_of(self.media@)[i]
                == next[i] by {
                assert(media[i] == entries[i]@);
            }
        }
        proof {
            lemma_with_row_ok(media, id, with_analysis(phash, dom_color));
        }
    }

    /// Records the dimensions that decoding measured, which are more to be
    /// trusted than what the file states.
    pub fn set_dimensions(&mut self, id: i64, width: u32, height: u32)
        requires
            old(self).wf(),
        ensures
            final(self).wf(),
            final(self)@ == (Tables {
                media: with_row(old(self)@.media, id, with_dimensions(width, height)),
                ..old(self)@
            }),
    {
        let ghost media = self@.media;
        let ghost next = with_row(media, id, with_dimensions(width, height));
        let ghost entries = self.media@;
        if let Some(k) = self.find_id(id) {
            let mut entry: Entry = self.media[k].clone();
            entry.row.width = Some(width);
            entry.row.height = Some(height);
            self.media.set(k, entry);
        }
        assert(stored_of(self.media@) =~= next) by {
            assert forall|i: int| 0 <= i < next.len() implies stored_of(self.media@)[i]
                == next[i] by {
                assert(media[i] == entries[i]@);
            }
        }
        proof {
            lemma_with_row_ok(media, id, with_dimensions(width, height));
        }
    }

    /// Marks the files beneath `root` that the latest walk did not see. Returns
    /// how many those are.
    pub fn mark_missing(&mut self, root: &str, seen_ids: &[i64]) -> (r: usize)
        requires
            old(self).wf(),
        ensures
            final(self).wf(),
            final(self)@ == (Tables {
                media: marked_missing(old(self)@.media, unseen(root@, seen_ids@)),
                ..old(self)@
            }),
            r == selected(old(self)@.media, unseen(root@, seen_ids@)).len(),
    {
        let ghost media = self@.media;
        let ghost p = unseen(root@, seen_ids@);
        let ghost next = marked_missing(media, p);
        let prefix: Vec<char> = slashed(root);
        let mut count: usize = 0;
        let mut i: usize = 0;
        assert(media.take(0) =~= Seq::<Stored>::empty());
        while i < self.media.len()
            invariant
                media == old(self)@.media,
                self.users@ == old(self).users@,
                self.ledger@ == old(self).ledger@,
                p == unseen(root@, seen_ids@),
                next == marked_missing(media, p),
                prefix@ == with_slash(root@),
                self.media@.len() == media.len(),
                i <= self.media@.len(),
                count <= i,
                count == selected(media.take(i as int), p).len(),
                forall|k: int| 0 <= k < i ==> (#[trigger] self.media@[k])@ == next[k],
                forall|k: int| i <= k < media.len() ==> (#[trigger] self.media@[k])@ == media[k],
            decreases self.media@.len() - i,
        {
            proof {
                lemma_selected_push(media, p, i as int);
                lemma_selected(media.take(i as int), p);
                assert(self.media@[i as int]@ == media[i as int]);
            }
            let id: i64 = self.media[i].row.id;
            if starts_with(self.media[i].row.path.as_str(), prefix.as_slice()) && !contains_id(
                seen_ids,
                id,
            ) {
                let mut entry: Entry = self.media[i].clone();
                entry.row.missing = true;
                assert(entry@ =~= next[i as int]);
                self.media.set(i, entry);
                count += 1;
            }
            i += 1;
        }
        proof {
            assert(media.take(i as int) =~= media);
            assert(stored_of(self.media@) =~= next);
            lemma_marked_ok(media, p);
        }
        count
    }

    fn keep_where_not(&mut self, drop: &[bool], Ghost(p): Ghost<spec_fn(Stored) -> bool>) -> (r: usize)
        requires
            old(self).wf(),
            drop@.len() == old(self)@.media.len(),
            forall|i: int|
                0 <= i < drop@.len() ==> #[trigger] drop@[i] == !p(old(self)@.media[i]),
        ensures
            final(self).wf(),
            final(self)@ == (Tables { media: selected(old(self)@.media, p), ..old(self)@ }),
            r == old(self)@.media.len() - selected(old(self)@.media, p).len(),
    {
        let ghost media = self@.media;
        let mut keep: Vec<Entry> = Vec::new();
        let mut dropped: usize = 0;
        let mut i: usize = 0;
        assert(media.take(0) =~= Seq::<Stored>::empty());
        assert(stored_of(keep@) =~= selected(media.take(0), p));
        while i < self.media.len()
            invariant
                *self == *old(self),
                media == stored_of(self.media@),
                drop@.len() == media.len(),
                forall|i: int| 0 <= i < drop@.len() ==> #[trigger] drop@[i] == !p(media[i]),
                i <= self.media@.len(),
                stored_of(keep@) == selected(media.take(i as int), p),
                dropped + keep@.len() == i,
            decreases self.media@.len() - i,
        {
            let ghost before = keep@;
            proof {
                lemma_selected_push(media, p, i as int);
                assert(media[i as int] == self.media@[i as int]@);
            }
            if drop[i] {
                dropped += 1;
            } else {
                keep.push(self.media[i].clone());
                assert(stored_of(keep@) =~= stored_of(before).push(media[i as int]));
            }
            i += 1;
        }
        proof {
            assert(media.take(i as int) =~= media);
            lemma_selected(media, p);
            assert(stored_of(keep@).len() == keep@.len());
        }
        self.media = keep;
        dropped
    }

    /// Drops the rows of files that are gone. Returns how many those are.
    pub fn purge_missing(&mut self) -> (r: usize)
        requires
            old(self).wf(),
        ensures
            final(self).wf(),
            final(self)@ == (Tables {
                media: selected(old(self)@.media, |s: Stored| !s.row.missing),
                ..old(self)@
            }),
            r == old(self)@.media.len() - final(self)@.media.len(),
    {
        let ghost media = self@.media;
        let mut drop: Vec<bool> = Vec::new();
        let mut i: usize = 0;
        while i < self.media.len()
            invariant
                *self == *old(self),
                media == stored_of(self.media@),
                i <= self.media@.len(),
                drop@.len() == i,
                forall|k: int| 0 <= k < i ==> #[trigger] drop@[k] == media[k].row.missing,
            decreases self.media@.len() - i,
        {
            assert(media[i as int] == self.media@[i as int]@);
            drop.push(self.media[i].row.missing);
            i += 1;
        }
        self.keep_where_not(drop.as_slice(), Ghost(|s: Stored| !s.row.missing))
    }

    /// Drops the row for a path. Returns how many rows that is, one or none.
    pub fn remove_path(&mut self, path: &str) -> (r: usize)
        requires
            old(self).wf(),
        ensures
            final(self).wf(),
            final(self)@ == (Tables {
                media: selected(old(self)@.media, |s: Stored| s.row.path != path@),
                ..old(self)@
            }),
            r == old(self)@.media.len() - final(self)@.media.len(),
    {
        let ghost media = self@.media;
        let mut drop: Vec<bool> = Vec::new();
        let mut i: usize = 0;
        while i < self.media.len()
            invariant
                *self == *old(self),
                media == stored_of(self.media@),
                i <= self.media@.len(),
                drop@.len() == i,
                forall|k: int| 0 <= k < i ==> #[trigger] drop@[k] == (media[k].row.path == path@),
            decreases self.media@.len() - i,
        {
            assert(media[i as int] == self.media@[i as int]@);
            drop.push(text::str_eq(self.media[i].row.path.as_str(), path));
            i += 1;
        }
        self.keep_where_not(drop.as_slice(), Ghost(|s: Stored| s.row.path != path@))
    }

    fn follow(&mut self, from: &String, to: &String) -> (r: bool)
        requires
            old(self).wf(),
        ensures
            final(self).wf(),
            final(self)@ == (Tables { media: after_move(old(self)@.media, from@, to@), ..old(self)@ }),
            r == (row_at(old(self)@.media, from@) is Some),
    {
        let ghost media = self@.media;
        let ghost p = |s: Stored| s.row.path != to@ || s.row.path == from@;
        let found: bool = self.find_path(from).is_some();
        let same: bool = *from == *to;
        let mut drop: Vec<bool> = Vec::new();
        let mut i: usize = 0;
        while i < self.media.len()
            invariant
                *self == *old(self),
                same == (from@ == to@),
                p == (|s: Stored| s.row.path != to@ || s.row.path == from@),
                media == stored_of(self.media@),
                i <= self.media@.len(),
                drop@.len() == i,
                forall|k: int| 0 <= k < i ==> #[trigger] drop@[k] == !p(media[k]),
            decreases self.media@.len() - i,
        {
            assert(media[i as int] == self.media@[i as int]@);
            drop.push(self.media[i].row.path == *to && !same);
            i += 1;
        }
        self.keep_where_not(drop.as_slice(), Ghost(p));
        let ghost cleared = self@.media;
        let ghost next = after_move(media, from@, to@);
        let ghost entries = self.media@;
        if let Some(k) = self.find_path(from) {
            let mut entry: Entry = self.media[k].clone();
            entry.row.path = to.clone();
            entry.row.file_name = or_blank(file_name_of(to.as_str()));
            entry.row.ext = or_blank(extension_of_path(to.as_str()));
            entry.row.missing = false;
            proof {
                lemma_row_at(cleared, from@);
            }
            assert(entry@ =~= next[k as int]);
            self.media.set(k, entry);
            proof {
                assert forall|i: int| 0 <= i < next.len() implies stored_of(self.media@)[i]
                    == next[i] by {
                    assert(cleared[i] == entries[i]@);
                    if i != k {
                        if cleared[i].row.path == from@ {
                            if i < k {
                                assert(cleared[i].row.path != cleared[k as int].row.path);
                            } else {
                                assert(cleared[k as int].row.path != cleared[i].row.path);
                            }
                        }
                    }
                }
            }
        } else {
            proof {
                lemma_row_at(cleared, from@);
                assert forall|i: int| 0 <= i < next.len() implies stored_of(self.media@)[i]
                    == next[i] by {
                    assert(cleared[i] == entries[i]@);
                }
            }
        }
        proof {
            assert(stored_of(self.media@) =~= next);
            lemma_after_move_ok(media, from@, to@);
        }
        found
    }

    /// Follows files that were moved, keeping their rows: the row of a renamed
    /// file keeps its hashes and colour, and is not taken for a new one. Returns
    /// how many rows were followed.
    pub fn apply_moves(&mut self, moves: &[(String, String)]) -> (r: usize)
        requires
            old(self).wf(),
        ensures
            final(self).wf(),
            final(self)@ == (Tables {
                media: after_moves(old(self)@.media, moves_of(moves@)),
                ..old(self)@
            }),
            r == followed(old(self)@.media, moves_of(moves@)),
    {
        let ghost media = self@.media;
        let ghost ms = moves_of(moves@);
        let mut updated: usize = 0;
        let mut i: usize = 0;
        assert(ms.take(0) =~= Seq::<(Seq<char>, Seq<char>)>::empty());
        while i < moves.len()
            invariant
                self.wf(),
                ms == moves_of(moves@),
                media == old(self)@.media,
                i <= moves@.len(),
                updated <= i,
                self@ == (Tables { media: after_moves(media, ms.take(i as int)), ..old(self)@ }),
                updated == followed(media, ms.take(i as int)),
            decreases moves@.len() - i,
        {
            proof {
                assert(ms.take(i + 1).drop_last() =~= ms.take(i as int));
                assert(ms.take(i + 1).last() == (moves@[i as int].0@, moves@[i as int].1@));
            }
            if self.follow(&moves[i].0, &moves[i].1) {
                updated += 1;
            }
            i += 1;
        }
        assert(ms.take(i as int) =~= ms);
        updated
    }
}

fn chars_to_string(s: &str) -> (r: String)
    ensures
        r@ == s@,
{
    text::string_of(chars_of(s).as_slice())
}

fn or_blank(s: Option<String>) -> (r: String)
    ensures
        r@ == metadata::or_empty(text::opt_view(s)),
{
    match s {
        Some(t) => t,
        None => String::new(),
    }
}

fn slashed(root: &str) -> (r: Vec<char>)
    ensures
        r@ == with_slash(root@),
{
    let mut v: Vec<char> = chars_of(root);
    let n: usize = v.len();
    if n == 0 || v[n - 1] != '/' {
        v.push('/');
    }
    v
}

fn contains_id(ids: &[i64], id: i64) -> (r: bool)
    ensures
        r == ids@.contains(id),
{
    let mut i: usize = 0;
    while i < ids.len()
        invariant
            i <= ids@.len(),
            forall|k: int| 0 <= k < i ==> #[trigger] ids@[k] != id,
        decreases ids@.len() - i,
    {
        if ids[i] == id {
            assert(ids@[i as int] == id);
            return true;
        }
        i += 1;
    }
    false
}

proof fn lemma_with_row_ok(media: Seq<Stored>, id: i64, f: spec_fn(Row) -> Row)
    requires
        media_ok(media),
        forall|r: Row|
            (#[trigger] f(r)).id == r.id && f(r).path == r.path && f(r).size == r.size,
    ensures
        media_ok(with_row(media, id, f)),
{
    let next = with_row(media, id, f);
    assert forall|i: int, j: int| 0 <= i < j < next.len() implies (#[trigger] next[i]).row.id != (
    #[trigger] next[j]).row.id && next[i].row.path != next[j].row.path by {
        assert(media[i].row.id != media[j].row.id);
    }
    assert forall|i: int| 0 <= i < next.len() implies (#[trigger] next[i]).row.size <= i64::MAX by {
        assert(media[i].row.size <= i64::MAX);
    }
}

proof fn lemma_marked_ok(media: Seq<Stored>, p: spec_fn(Stored) -> bool)
    requires
        media_ok(media),
    ensures
        media_ok(marked_missing(media, p)),
{
    let next = marked_missing(media, p);
    assert forall|i: int, j: int| 0 <= i < j < next.len() implies (#[trigger] next[i]).row.id != (
    #[trigger] next[j]).row.id && next[i].row.path != next[j].row.path by {
        assert(media[i].row.id != media[j].row.id);
    }
    assert forall|i: int| 0 <= i < next.len() implies (#[trigger] next[i]).row.size <= i64::MAX by {
        assert(media[i].row.size <= i64::MAX);
    }
}

proof fn lemma_users_of(users: Seq<UserMeta>)
    requires
        users_valid(users),
    ensures
        forall|i: int|
            0 <= i < users.len() ==> users_of(users).contains_key((#[trigger] users[i]).content_hash@)
                && users_of(users)[users[i].content_hash@] == users[i].marks(),
        forall|h: Seq<char>| #[trigger]
            users_of(users).contains_key(h) ==> exists|i: int|
                0 <= i < users.len() && (#[trigger] users[i]).content_hash@ == h,
    decreases users.len(),
{
    if users.len() > 0 {
        let rest = users.drop_last();
        assert(users_valid(rest)) by {
            assert forall|i: int, j: int| 0 <= i < j < rest.len() implies (
            #[trigger] rest[i]).content_hash@ != (#[trigger] rest[j]).content_hash@ by {
                assert(users[i].content_hash@ != users[j].content_hash@);
            }
            assert forall|i: int| 0 <= i < rest.len() implies (#[trigger] rest[i]).rating <= 5 by {
                assert(users[i].rating <= 5);
            }
        }
        lemma_users_of(rest);
        let n = users.len() - 1;
        assert forall|i: int| 0 <= i < users.len() implies users_of(users).contains_key(
            (#[trigger] users[i]).content_hash@,
        ) && users_of(users)[users[i].content_hash@] == users[i].marks() by {
            if i < n {
                assert(rest[i] == users[i]);
                assert(users[i].content_hash@ != users[n].content_hash@);
            }
        }
        assert forall|h: Seq<char>| #[trigger]
            users_of(users).contains_key(h) implies exists|i: int|
            0 <= i < users.len() && (#[trigger] users[i]).content_hash@ == h by {
            if h == users[n].content_hash@ {
            } else {
                assert(users_of(rest).contains_key(h));
                let i = choose|i: int|
                    0 <= i < rest.len() && (#[trigger] rest[i]).content_hash@ == h;
                assert(users[i].content_hash@ == h);
            }
        }
    }
}

proof fn lemma_users_set(users: Seq<UserMeta>, k: int, u: UserMeta)
    requires
        users_valid(users),
        0 <= k < users.len(),
        u.content_hash@ == users[k].content_hash@,
        u.rating <= 5,
    ensures
        users_valid(users.update(k, u)),
        users_of(users.update(k, u)) == users_of(users).insert(u.content_hash@, u.marks()),
{
    let next = users.update(k, u);
    assert forall|i: int, j: int| 0 <= i < j < next.len() implies (#[trigger] next[i]).content_hash@
        != (#[trigger] next[j]).content_hash@ by {
        assert(users[i].content_hash@ != users[j].content_hash@);
    }
    assert forall|i: int| 0 <= i < next.len() implies (#[trigger] next[i]).rating <= 5 by {
        assert(users[i].rating <= 5);
    }
    lemma_users_of(users);
    lemma_users_of(next);
    let a = users_of(next);
    let b = users_of(users).insert(u.content_hash@, u.marks());
    assert forall|h: Seq<char>| a.contains_key(h) == b.contains_key(h) by {
        if a.contains_key(h) {
            let i = choose|i: int| 0 <= i < next.len() && (#[trigger] next[i]).content_hash@ == h;
            assert(users[i].content_hash@ == h);
        }
        if b.contains_key(h) {
            if h == u.content_hash@ {
                assert(next[k].content_hash@ == h);
            } else {
                let i = choose|i: int|
                    0 <= i < users.len() && (#[trigger] users[i]).content_hash@ == h;
                assert(next[i].content_hash@ == h);
            }
        }
    }
    assert forall|h: Seq<char>| a.contains_key(h) implies a[h] == b[h] by {
        let i = choose|i: int| 0 <= i < next.len() && (#[trigger] next[i]).content_hash@ == h;
        assert(a[next[i].content_hash@] == next[i].marks());
        if i == k {
            assert(h == u.content_hash@);
        } else {
            assert(users[i].content_hash@ == h);
            if i < k {
                assert(users[i].content_hash@ != users[k].content_hash@);
            } else {
                assert(users[k].content_hash@ != users[i].content_hash@);
            }
        }
    }
    assert(a =~= b);
}

/// What the user supplied for a content hash, whether or not any file has it.
pub open spec fn marks_at(users: Map<Seq<char>, UserMarks>, hash: Seq<char>) -> UserMarks {
    if users.contains_key(hash) {
        users[hash]
    } else {
        no_marks()
    }
}

impl Catalog {
    fn find_user(&self, hash: &str) -> (r: Option<usize>)
        requires
            self.wf(),
        ensures
            match r {
                Some(k) => k < self.users@.len() && self.users@[k as int].content_hash@ == hash@
                    && self@.users.contains_key(hash@) && self@.users[hash@]
                    == self.users@[k as int].marks(),
                None => !self@.users.contains_key(hash@) && forall|i: int|
                    0 <= i < self.users@.len() ==> (#[trigger] self.users@[i]).content_hash@
                        != hash@,
            },
    {
        proof {
            lemma_users_of(self.users@);
        }
        let mut i: usize = 0;
        while i < self.users.len()
            invariant
                self.wf(),
                i <= self.users@.len(),
                forall|k: int| 0 <= k < i ==> (#[trigger] self.users@[k]).content_hash@ != hash@,
            decreases self.users@.len() - i,
        {
            if text::str_eq(self.users[i].content_hash.as_str(), hash) {
                proof {
                    lemma_users_of(self.users@);
                    assert(users_of(self.users@).contains_key(self.users@[i as int].content_hash@));
                }
                return Some(i);
            }
            i += 1;
        }
        None
    }

    fn set_user_meta(&mut self, hash: &str, hidden: bool, rating: u8, kind: Option<MediaKind>)
        requires
            old(self).wf(),
            rating <= 5,
        ensures
            final(self).wf(),
            final(self)@ == (Tables {
                users: old(self)@.users.insert(hash@, UserMarks { hidden, rating, kind }),
                ..old(self)@
            }),
    {
        let ghost users = self.users@;
        let u: UserMeta = UserMeta { content_hash: chars_to_string(hash), hidden, rating, kind };
        let ghost fresh = u;
        match self.find_user(hash) {
            Some(k) => {
                self.users.set(k, u);
                proof {
                    lemma_users_set(users, k as int, fresh);
                }
            },
            None => {
                self.users.push(u);
                proof {
                    assert(self.users@.drop_last() =~= users);
                    assert forall|i: int, j: int| 0 <= i < j < self.users@.len() implies (
                    #[trigger] self.users@[i]).content_hash@ != (
                    #[trigger] self.users@[j]).content_hash@ by {
                        assert(self.users@[i] == users[i]);
                        if j < users.len() {
                            assert(self.users@[j] == users[j]);
                        }
                    }
                    assert forall|i: int| 0 <= i < self.users@.len() implies (
                    #[trigger] self.users@[i]).rating <= 5 by {
                        if i < users.len() {
                            assert(users[i].rating <= 5);
                        }
                    }
                }
            },
        }
    }

    fn user_marks(&self, hash: &str) -> (r: (bool, u8, Option<MediaKind>))
        requires
            self.wf(),
        ensures
            marks_at(self@.users, hash@) == (UserMarks { hidden: r.0, rating: r.1, kind: r.2 }),
            r.1 <= 5,
    {
        match self.find_user(hash) {
            Some(k) => {
                let u: &UserMeta = &self.users[k];
                assert(self.users@[k as int].rating <= 5);
                (u.hidden, u.rating, u.kind)
            },
            None => (false, 0, None),
        }
    }

    /// Hides or unhides the image with a content hash.
    pub fn set_hidden(&mut self, content_hash: &str, hidden: bool)
        requires
            old(self).wf(),
        ensures
            final(self).wf(),
            final(self)@ == (Tables {
                users: old(self)@.users.insert(
                    content_hash@,
                    UserMarks { hidden, ..marks_at(old(self)@.users, content_hash@) },
                ),
                ..old(self)@
            }),
    {
        let (_, rating, kind) = self.user_marks(content_hash);
        self.set_user_meta(content_hash, hidden, rating, kind);
    }

    /// Sets a rating of up to five stars; none clears it. More than five are
    /// five.
    pub fn set_rating(&mut self, content_hash: &str, rating: u8)
        requires
            old(self).wf(),
        ensures
            final(self).wf(),
            final(self)@ == (Tables {
                users: old(self)@.users.insert(
                    content_hash@,
                    UserMarks {
                        rating: if rating > 5 {
                            5
                        } else {
                            rating
                        },
                        ..marks_at(old(self)@.users, content_hash@)
                    },
                ),
                ..old(self)@
            }),
    {
        let (hidden, _, kind) = self.user_marks(content_hash);
        let stars: u8 = if rating > 5 {
            5
        } else {
            rating
        };
        self.set_user_meta(content_hash, hidden, stars, kind);
    }

    /// Overrides the guessed kind, or goes back to the guess.
    pub fn set_kind(&mut self, content_hash: &str, kind: Option<MediaKind>)
        requires
            old(self).wf(),
        ensures
            final(self).wf(),
            final(self)@ == (Tables {
                users: old(self)@.users.insert(
                    content_hash@,
                    UserMarks { kind, ..marks_at(old(self)@.users, content_hash@) },
                ),
                ..old(self)@
            }),
    {
        let (hidden, rating, _) = self.user_marks(content_hash);
        self.set_user_meta(content_hash, hidden, rating, kind);
    }

    /// The rating for a content hash, whether or not any file has it.
    pub fn rating_of(&self, content_hash: &str) -> (r: u8)
        requires
            self.wf(),
        ensures
            r == marks_at(self@.users, content_hash@).rating,
            r <= 5,
    {
        self.user_marks(content_hash).1
    }

    /// Whether a content hash is hidden.
    pub fn is_hidden(&self, content_hash: &str) -> (r: bool)
        requires
            self.wf(),
        ensures
            r == marks_at(self@.users, content_hash@).hidden,
    {
        self.user_marks(content_hash).0
    }

    /// The row at a position, with what the user supplied for it.
    fn joined_at(&self, i: usize) -> (r: MediaRow)
        requires
            self.wf(),
            i < self.media@.len(),
        ensures
            r@ == joined_row(self@.users, self@.media[i as int].row),
    {
        let mut row: MediaRow = self.media[i].row.clone();
        assert(self@.media[i as int] == self.media@[i as int]@);
        let marks: (bool, u8, Option<MediaKind>) = match &row.content_hash {
            Some(h) => self.user_marks(h.as_str()),
            None => (false, 0, None),
        };
        row.hidden = marks.0;
        row.rating = marks.1;
        row.kind_override = marks.2;
        row
    }

    /// The rows at the positions that are to be kept, joined and sorted by path.
    fn list(&self, keep: &[bool], Ghost(p): Ghost<spec_fn(Stored) -> bool>) -> (r: Vec<MediaRow>)
        requires
            self.wf(),
            keep@.len() == self@.media.len(),
            forall|i: int| 0 <= i < keep@.len() ==> #[trigger] keep@[i] == p(self@.media[i]),
        ensures
            rows_of(r@) == listed_rows(self@, p),
    {
        let ghost media = self@.media;
        let ghost users = self@.users;
        let ghost join = |s: Stored| joined_row(users, s.row);
        let mut rows: Vec<MediaRow> = Vec::new();
        let mut i: usize = 0;
        assert(media.take(0) =~= Seq::<Stored>::empty());
        assert(rows_of(rows@) =~= selected(media.take(0), p).map_values(join));
        while i < self.media.len()
            invariant
                self.wf(),
                media == stored_of(self.media@),
                media == self@.media,
                users == self@.users,
                join == (|s: Stored| joined_row(users, s.row)),
                keep@.len() == media.len(),
                forall|i: int| 0 <= i < keep@.len() ==> #[trigger] keep@[i] == p(media[i]),
                i <= self.media@.len(),
                rows_of(rows@) == selected(media.take(i as int), p).map_values(join),
            decreases self.media@.len() - i,
        {
            let ghost before = rows@;
            proof {
                lemma_selected_push(media, p, i as int);
            }
            if keep[i] {
                rows.push(self.joined_at(i));
                proof {
                    assert(rows_of(rows@) =~= rows_of(before).push(join(media[i as int])));
                    assert(rows_of(rows@) =~= selected(media.take(i + 1), p).map_values(join));
                }
            }
            i += 1;
        }
        assert(media.take(i as int) =~= media);
        sort_by_path_text(rows)
    }

    fn keep_shown(&self, visibility: Visibility) -> (r: Vec<bool>)
        requires
            self.wf(),
        ensures
            r@.len() == self@.media.len(),
            forall|i: int|
                0 <= i < r@.len() ==> #[trigger] r@[i] == is_shown(
                    self@.users,
                    self@.media[i].row,
                    visibility,
                ),
    {
        let ghost media = self@.media;
        let mut keep: Vec<bool> = Vec::new();
        let mut i: usize = 0;
        while i < self.media.len()
            invariant
                self.wf(),
                media == stored_of(self.media@),
                media == self@.media,
                i <= self.media@.len(),
                keep@.len() == i,
                forall|k: int|
                    0 <= k < i ==> #[trigger] keep@[k] == is_shown(
                        self@.users,
                        media[k].row,
                        visibility,
                    ),
            decreases self.media@.len() - i,
        {
            assert(media[i as int] == self.media@[i as int]@);
            let row: &MediaRow = &self.media[i].row;
            let hidden: bool = match &row.content_hash {
                Some(h) => self.user_marks(h.as_str()).0,
                None => false,
            };
            keep.push(!row.missing && (visibility == Visibility::All || !hidden));
            i += 1;
        }
        keep
    }

    /// Every row whose file is there, across all libraries.
    pub fn all_present(&self, visibility: Visibility) -> (r: Vec<MediaRow>)
        requires
            self.wf(),
        ensures
            rows_of(r@) == listed_rows(self@, shown(self@, visibility)),
    {
        let keep: Vec<bool> = self.keep_shown(visibility);
        self.list(keep.as_slice(), Ghost(shown(self@, visibility)))
    }

    /// The rows beneath a root whose file is there. This is the one gate that
    /// every browsing view goes through.
    pub fn present_under(&self, root: &str, visibility: Visibility) -> (r: Vec<MediaRow>)
        requires
            self.wf(),
        ensures
            rows_of(r@) == listed_rows(self@, shown_under(self@, root@, visibility)),
    {
        let ghost media = self@.media;
        let prefix: Vec<char> = slashed(root);
        let mut keep: Vec<bool> = self.keep_shown(visibility);
        let mut i: usize = 0;
        while i < self.media.len()
            invariant
                self.wf(),
                media == stored_of(self.media@),
                media == self@.media,
                prefix@ == with_slash(root@),
                i <= self.media@.len(),
                keep@.len() == media.len(),
                forall|k: int|
                    i <= k < media.len() ==> #[trigger] keep@[k] == is_shown(
                        self@.users,
                        media[k].row,
                        visibility,
                    ),
                forall|k: int|
                    0 <= k < i ==> #[trigger] keep@[k] == shown_under(self@, root@, visibility)(
                        media[k],
                    ),
            decreases self.media@.len() - i,
        {
            assert(media[i as int] == self.media@[i as int]@);
            if keep[i] && !starts_with(self.media[i].row.path.as_str(), prefix.as_slice()) {
                keep.set(i, false);
            }
            i += 1;
        }
        self.list(keep.as_slice(), Ghost(shown_under(self@, root@, visibility)))
    }
}

fn sort_by_path_text(rows: Vec<MediaRow>) -> (r: Vec<MediaRow>)
    ensures
        rows_of(r@) == by_path_text(rows_of(rows@)),
{
    let ghost rs = rows_of(rows@);
    let ghost want = rs.map_values(|r: Row| path_text_key(r));
    let mut keys: Vec<SortKey> = Vec::new();
    let mut i: usize = 0;
    while i < rows.len()
        invariant
            rs == rows_of(rows@),
            want == rs.map_values(|r: Row| path_text_key(r)),
            i <= rows@.len(),
            keys@.len() == i,
            forall|k: int| 0 <= k < i ==> (#[trigger] keys@[k])@ == want[k],
        decreases rows@.len() - i,
    {
        let key: SortKey = SortKey {
            lead: chars_of(rows[i].path.as_str()),
            first: 0,
            second: 0,
            third: 0,
            fourth: 0,
            words: Vec::new(),
        };
        assert(key@ =~= want[i as int]);
        keys.push(key);
        i += 1;
    }
    assert(order::keys_of(keys@) =~= want);
    let sorted: Vec<usize> = sorted_order(keys.as_slice());
    let ghost done = by_path_text(rs);
    let mut out: Vec<MediaRow> = Vec::new();
    let mut k: usize = 0;
    assert(rows_of(out@) =~= done.take(0));
    while k < sorted.len()
        invariant
            rs == rows_of(rows@),
            done == by_path_text(rs),
            order::positions(sorted@) == order::stable_order(
                rs.map_values(|r: Row| path_text_key(r)),
            ),
            forall|i: int| 0 <= i < sorted@.len() ==> (#[trigger] sorted@[i]) < rows@.len(),
            k <= sorted@.len(),
            rows_of(out@) == done.take(k as int),
        decreases sorted@.len() - k,
    {
        let ghost before = out@;
        let row: MediaRow = rows[sorted[k]].clone();
        assert(order::positions(sorted@)[k as int] == sorted@[k as int]);
        assert(row@ == done[k as int]);
        out.push(row);
        assert(rows_of(out@) =~= rows_of(before).push(done[k as int]));
        assert(done.take(k + 1) =~= done.take(k as int).push(done[k as int]));
        k += 1;
    }
    assert(done.take(k as int) =~= done);
    out
}

/// Whether two different present rows have the size of the row at a position,
/// which is one of them.
pub open spec fn shares_size(media: Seq<Stored>, i: int) -> bool {
    !media[i].row.missing && exists|j: int|
        0 <= j < media.len() && j != i && !(#[trigger] media[j]).row.missing && media[j].row.size
            == media[i].row.size
}

/// Whether more than one present file has a size.
pub open spec fn is_shared_size(media: Seq<Stored>, size: u64) -> bool {
    exists|k: int|
        0 <= k < media.len() && (#[trigger] media[k]).row.size == size && shares_size(media, k)
}

/// The sizes that more than one present file has, in order.
pub open spec fn is_shared_sizes(sizes: Seq<u64>, media: Seq<Stored>) -> bool {
    &&& forall|i: int, j: int| 0 <= i < j < sizes.len() ==> #[trigger] sizes[i] < #[trigger] sizes[j]
    &&& forall|i: int| 0 <= i < sizes.len() ==> is_shared_size(media, #[trigger] sizes[i])
    &&& forall|size: u64| #[trigger] is_shared_size(media, size) ==> sizes.contains(size)
}

/// What rows are grouped by when looking for shared sizes.
pub open spec fn size_key(s: Stored) -> order::Key {
    order::Key {
        first: if s.row.missing {
            0
        } else {
            1
        },
        second: s.row.size as int,
        ..order::no_key()
    }
}

/// The numbers and paths of some rows.
pub open spec fn ids_and_paths(rows: Seq<Row>) -> Seq<(i64, Seq<char>)> {
    rows.map_values(|r: Row| (r.id, r.path))
}

/// Numbers and paths as mathematical values.
pub open spec fn pairs_of(v: Seq<(i64, String)>) -> Seq<(i64, Seq<char>)> {
    v.map_values(|p: (i64, String)| (p.0, p.1@))
}

/// Whether a present row still lacks a content hash that it needs: its size is
/// that of another present file.
pub open spec fn needs_hash(media: Seq<Stored>) -> spec_fn(Stored) -> bool {
    |s: Stored| !s.row.missing && s.row.content_hash is None && is_shared_size(media, s.row.size)
}

/// Whether a present row lacks anything that decoding gives.
pub open spec fn needs_analysis() -> spec_fn(Stored) -> bool {
    |s: Stored| !s.row.missing && (s.row.phash is None || s.row.dom_color is None)
}

impl Catalog {
    fn shared_flags(&self) -> (r: Vec<bool>)
        requires
            self.wf(),
        ensures
            r@.len() == self@.media.len(),
            forall|i: int| 0 <= i < r@.len() ==> #[trigger] r@[i] == shares_size(self@.media, i),
    {
        let ghost media = self@.media;
        let n: usize = self.media.len();
        let ghost want = media.map_values(|s: Stored| size_key(s));
        let mut keys: Vec<SortKey> = Vec::new();
        let mut i: usize = 0;
        while i < n
            invariant
                n == self.media@.len(),
                media == stored_of(self.media@),
                want == media.map_values(|s: Stored| size_key(s)),
                i <= n,
                keys@.len() == i,
                forall|k: int| 0 <= k < i ==> (#[trigger] keys@[k])@ == want[k],
            decreases n - i,
        {
            let row: &MediaRow = &self.media[i].row;
            assert(media[i as int] == self.media@[i as int]@);
            let key: SortKey = SortKey {
                lead: Vec::new(),
                first: if row.missing {
                    0
                } else {
                    1
                },
                second: row.size as i128,
                third: 0,
                fourth: 0,
                words: Vec::new(),
            };
            assert(key@ =~= want[i as int]);
            keys.push(key);
            i += 1;
        }
        assert(order::keys_of(keys@) =~= want);
        let mut flags: Vec<bool> = repeated(keys.as_slice());
        let mut i: usize = 0;
        while i < n
            invariant
                n == self.media@.len(),
                media == stored_of(self.media@),
                want == media.map_values(|s: Stored| size_key(s)),
                i <= n,
                flags@.len() == n,
                forall|k: int|
                    i <= k < n ==> #[trigger] flags@[k] == clusters::is_repeated(want, k),
                forall|k: int| 0 <= k < i ==> #[trigger] flags@[k] == shares_size(media, k),
            decreases n - i,
        {
            proof {
                assert(media[i as int] == self.media@[i as int]@);
                lemma_repeated_sizes(media, i as int);
            }
            if self.media[i].row.missing {
                flags.set(i, false);
            }
            i += 1;
        }
        flags
    }

    /// The sizes that more than one present file has. Only such files can be
    /// byte-identical, so only these need hashing.
    pub fn duplicate_candidate_sizes(&self) -> (r: Vec<u64>)
        requires
            self.wf(),
        ensures
            is_shared_sizes(r@, self@.media),
    {
        let ghost media = self@.media;
        let flags: Vec<bool> = self.shared_flags();
        let mut keys: Vec<SortKey> = Vec::new();
        let mut sizes: Vec<u64> = Vec::new();
        let mut i: usize = 0;
        while i < self.media.len()
            invariant
                media == stored_of(self.media@),
                flags@.len() == media.len(),
                forall|i: int| 0 <= i < flags@.len() ==> #[trigger] flags@[i] == shares_size(media, i),
                i <= self.media@.len(),
                keys@.len() == sizes@.len(),
                forall|k: int|
                    0 <= k < keys@.len() ==> (#[trigger] keys@[k])@ == (order::Key {
                        first: sizes@[k] as int,
                        ..order::no_key()
                    }),
                forall|k: int|
                    0 <= k < sizes@.len() ==> is_shared_size(media, #[trigger] sizes@[k]),
                forall|j: int|
                    0 <= j < i && #[trigger] shares_size(media, j) ==> sizes@.contains(
                        media[j].row.size,
                    ),
            decreases self.media@.len() - i,
        {
            assert(media[i as int] == self.media@[i as int]@);
            let ghost before = sizes@;
            let ghost keys_before = keys@;
            if flags[i] {
                let size: u64 = self.media[i].row.size;
                let key: SortKey = SortKey {
                    lead: Vec::new(),
                    first: size as i128,
                    second: 0,
                    third: 0,
                    fourth: 0,
                    words: Vec::new(),
                };
                assert(key@ =~= (order::Key { first: size as int, ..order::no_key() }));
                sizes.push(size);
                keys.push(key);
                proof {
                    assert forall|k: int| 0 <= k < keys@.len() implies (#[trigger] keys@[k])@ == (
                    order::Key { first: sizes@[k] as int, ..order::no_key() }) by {
                        if k < keys_before.len() {
                            assert(keys_before[k]@ == (order::Key {
                                first: before[k] as int,
                                ..order::no_key()
                            }));
                        }
                    }
                    assert forall|k: int| 0 <= k < sizes@.len() implies is_shared_size(
                        media,
                        #[trigger] sizes@[k],
                    ) by {
                        if k < before.len() {
                            assert(before[k] == sizes@[k]);
                        } else {
                            assert(media[i as int].row.size == sizes@[k]);
                        }
                    }
                    assert forall|j: int| 0 <= j < i + 1 && #[trigger] shares_size(
                        media,
                        j,
                    ) implies sizes@.contains(media[j].row.size) by {
                        if j < i {
                            let k = choose|k: int|
                                0 <= k < before.len() && before[k] == media[j].row.size;
                            assert(sizes@[k] == media[j].row.size);
                        } else {
                            assert(sizes@[before.len() as int] == media[j].row.size);
                        }
                    }
                }
            }
            i += 1;
        }
        let sorted: Vec<usize> = sorted_order(keys.as_slice());
        let ghost ks = order::keys_of(keys@);
        let ghost p = order::positions(sorted@);
        let mut out: Vec<u64> = Vec::new();
        let mut k: usize = 0;
        while k < sorted.len()
            invariant
                ks == order::keys_of(keys@),
                p == order::positions(sorted@),
                order::in_order(ks, p, 0, keys@.len() as int),
                keys@.len() == sizes@.len(),
                sorted@.len() == keys@.len(),
                forall|k: int|
                    0 <= k < keys@.len() ==> (#[trigger] keys@[k])@ == (order::Key {
                        first: sizes@[k] as int,
                        ..order::no_key()
                    }),
                k <= sorted@.len(),
                k > 0 ==> out@.len() > 0 && out@.last() == sizes@[p[k - 1]],
                k == 0 ==> out@.len() == 0,
                forall|i: int, j: int|
                    0 <= i < j < out@.len() ==> #[trigger] out@[i] < #[trigger] out@[j],
                forall|i: int| 0 <= i < out@.len() ==> sizes@.contains(#[trigger] out@[i]),
                forall|m: int| 0 <= m < k ==> out@.contains(sizes@[#[trigger] p[m]]),
            decreases sorted@.len() - k,
        {
            assert(p[k as int] == sorted@[k as int]);
            let ghost before = out@;
            let at: usize = sorted[k];
            let size: u64 = sizes[at];
            proof {
                if k > 0 {
                    assert(order::before(ks, p[k - 1], p[k as int]));
                    assert(ks[p[k - 1]] == keys@[p[k - 1]]@);
                    assert(ks[p[k as int]] == keys@[p[k as int]]@);
                    order::lemma_words_lt_asym(Seq::empty(), Seq::empty());
                    assert(sizes@[p[k - 1]] <= size);
                }
            }
            if k == 0 || out[out.len() - 1] != size {
                out.push(size);
            }
            proof {
                assert forall|m: int| 0 <= m < k + 1 implies out@.contains(sizes@[#[trigger] p[m]]) by {
                    if m < k {
                        let i = choose|i: int| 0 <= i < before.len() && before[i] == sizes@[p[m]];
                        assert(out@[i] == sizes@[p[m]]);
                    } else {
                        assert(out@[out@.len() - 1] == size);
                    }
                }
                assert forall|i: int, j: int| 0 <= i < j < out@.len() implies #[trigger] out@[i]
                    < #[trigger] out@[j] by {
                    if j == before.len() {
                        assert(before[i] <= before[before.len() - 1]);
                    }
                }
                assert forall|i: int| 0 <= i < out@.len() implies sizes@.contains(
                    #[trigger] out@[i],
                ) by {
                    if i < before.len() {
                        assert(sizes@.contains(before[i]));
                    } else {
                        assert(sizes@[at as int] == out@[i]);
                    }
                }
            }
            k += 1;
        }
        proof {
            assert forall|i: int| 0 <= i < out@.len() implies is_shared_size(
                media,
                #[trigger] out@[i],
            ) by {
                assert(sizes@.contains(out@[i]));
                let q = choose|q: int| 0 <= q < sizes@.len() && sizes@[q] == out@[i];
                assert(sizes@[q] == out@[i]);
            }
            assert forall|size: u64| #[trigger] is_shared_size(media, size) implies out@.contains(
                size,
            ) by {
                let j = choose|j: int|
                    0 <= j < media.len() && (#[trigger] media[j]).row.size == size && shares_size(
                        media,
                        j,
                    );
                let q = choose|q: int| 0 <= q < sizes@.len() && sizes@[q] == media[j].row.size;
                assert(p.contains(q));
                let m = choose|m: int| 0 <= m < p.len() && p[m] == q;
                assert(out@.contains(sizes@[p[m]]));
            }
        }
        out
    }
}

proof fn lemma_repeated_sizes(media: Seq<Stored>, k: int)
    requires
        0 <= k < media.len(),
    ensures
        shares_size(media, k) == (!media[k].row.missing && clusters::is_repeated(
            media.map_values(|s: Stored| size_key(s)),
            k,
        )),
{
    let ks = media.map_values(|s: Stored| size_key(s));
    if shares_size(media, k) {
        let j = choose|j: int|
            0 <= j < media.len() && j != k && !(#[trigger] media[j]).row.missing
                && media[j].row.size == media[k].row.size;
        assert(ks[j] == ks[k]);
    }
    if !media[k].row.missing && clusters::is_repeated(ks, k) {
        let j = choose|j: int| 0 <= j < ks.len() && j != k && #[trigger] ks[j] == ks[k];
        assert(size_key(media[j]) == size_key(media[k]));
        assert(!media[j].row.missing && media[j].row.size == media[k].row.size);
    }
}

proof fn lemma_shares_is_shared(media: Seq<Stored>, i: int)
    requires
        0 <= i < media.len(),
    ensures
        shares_size(media, i) == (!media[i].row.missing && is_shared_size(media, media[i].row.size)),
{
    if shares_size(media, i) {
        assert(media[i].row.size == media[i].row.size);
    }
    if !media[i].row.missing && is_shared_size(media, media[i].row.size) {
        let k = choose|k: int|
            0 <= k < media.len() && (#[trigger] media[k]).row.size == media[i].row.size
                && shares_size(media, k);
        if k != i {
            assert(!media[k].row.missing);
        }
    }
}

fn id_paths(rows: &[MediaRow]) -> (r: Vec<(i64, String)>)
    ensures
        pairs_of(r@) == ids_and_paths(rows_of(rows@)),
{
    let mut out: Vec<(i64, String)> = Vec::new();
    let mut i: usize = 0;
    while i < rows.len()
        invariant
            i <= rows@.len(),
            out@.len() == i,
            forall|k: int|
                0 <= k < i ==> (#[trigger] out@[k]).0 == rows@[k].id && out@[k].1@ == rows@[k].path@,
        decreases rows@.len() - i,
    {
        out.push((rows[i].id, rows[i].path.clone()));
        i += 1;
    }
    assert(pairs_of(out@) =~= ids_and_paths(rows_of(rows@)));
    out
}

/// The decision stamp of a row.
pub open spec fn stamp_of(s: Stored) -> Stamp {
    Stamp {
        id: s.row.id,
        size: s.row.size,
        mtime: s.row.mtime,
        has_content_hash: s.row.content_hash is Some,
        has_phash: s.row.phash is Some,
        meta_version: s.meta_version,
    }
}

/// The paths and stamps of some rows.
pub open spec fn stamps_of(media: Seq<Stored>) -> Seq<(Seq<char>, Stamp)> {
    media.map_values(|s: Stored| (s.row.path, stamp_of(s)))
}

/// Paths and stamps as mathematical values.
pub open spec fn stamp_pairs(v: Seq<(String, Stamp)>) -> Seq<(Seq<char>, Stamp)> {
    v.map_values(|p: (String, Stamp)| (p.0@, p.1))
}

/// The stamp of the row for a path, if there is one beneath a root.
pub open spec fn stamp_at(media: Seq<Stored>, root: Seq<char>, path: Seq<char>) -> Option<Stamp> {
    match row_at(media, path) {
        Some(k) => if is_under(root, path) {
            Some(stamp_of(media[k]))
        } else {
            None
        },
        None => None,
    }
}

/// Whether a row is beneath a root.
pub open spec fn stored_under(root: Seq<char>) -> spec_fn(Stored) -> bool {
    |s: Stored| is_under(root, s.row.path)
}

/// Whether a row is beneath a root and its file is there.
pub open spec fn present_at(root: Seq<char>) -> spec_fn(Stored) -> bool {
    |s: Stored| !s.row.missing && is_under(root, s.row.path)
}

/// Whether a row is beneath a root, its file is there, and it is hidden.
pub open spec fn hidden_at(users: Map<Seq<char>, UserMarks>, root: Seq<char>) -> spec_fn(
    Stored,
) -> bool {
    |s: Stored| !s.row.missing && is_under(root, s.row.path) && marks_of(users, s.row).hidden
}

/// The sum of some rows' sizes.
pub open spec fn bytes_of(media: Seq<Stored>) -> nat
    decreases media.len(),
{
    if media.len() == 0 {
        0
    } else {
        bytes_of(media.drop_last()) + media.last().row.size as nat
    }
}

proof fn lemma_bytes_grow(media: Seq<Stored>, p: spec_fn(Stored) -> bool, n: int)
    requires
        0 <= n <= media.len(),
    ensures
        bytes_of(selected(media.take(n), p)) <= bytes_of(selected(media, p)),
    decreases media.len() - n,
{
    if n == media.len() {
        assert(media.take(n) =~= media);
    } else {
        lemma_bytes_grow(media, p, n + 1);
        lemma_selected_push(media, p, n);
        let next = selected(media.take(n + 1), p);
        if p(media[n]) {
            assert(next.drop_last() =~= selected(media.take(n), p));
        }
    }
}

/// The counts and total bytes of some rows.
pub open spec fn stats_of(media: Seq<Stored>) -> (nat, nat, nat, nat) {
    (
        media.len(),
        selected(media, |s: Stored| s.row.content_hash is Some).len(),
        selected(media, |s: Stored| s.row.phash is Some).len(),
        bytes_of(media),
    )
}

impl Catalog {
    /// The present rows that lack a content hash and share their size with
    /// another file, sorted by path: the work list of the hashing pass.
    pub fn rows_needing_content_hash(&self) -> (r: Vec<(i64, String)>)
        requires
            self.wf(),
        ensures
            pairs_of(r@) == ids_and_paths(listed_rows(self@, needs_hash(self@.media))),
    {
        let ghost media = self@.media;
        let mut flags: Vec<bool> = self.shared_flags();
        let mut i: usize = 0;
        while i < self.media.len()
            invariant
                media == stored_of(self.media@),
                media == self@.media,
                i <= self.media@.len(),
                flags@.len() == media.len(),
                forall|k: int|
                    i <= k < media.len() ==> #[trigger] flags@[k] == shares_size(media, k),
                forall|k: int| 0 <= k < i ==> #[trigger] flags@[k] == needs_hash(media)(media[k]),
            decreases self.media@.len() - i,
        {
            proof {
                assert(media[i as int] == self.media@[i as int]@);
                lemma_shares_is_shared(media, i as int);
            }
            if self.media[i].row.content_hash.is_some() {
                flags.set(i, false);
            }
            i += 1;
        }
        let rows: Vec<MediaRow> = self.list(flags.as_slice(), Ghost(needs_hash(media)));
        id_paths(rows.as_slice())
    }

    /// The present rows that lack anything that decoding gives, sorted by path.
    /// Either of the perceptual hash and the colour counts, so that a catalog
    /// from before colours existed gets them on its next index.
    pub fn rows_needing_analysis(&self) -> (r: Vec<(i64, String)>)
        requires
            self.wf(),
        ensures
            pairs_of(r@) == ids_and_paths(listed_rows(self@, needs_analysis())),
    {
        let ghost media = self@.media;
        let mut flags: Vec<bool> = Vec::new();
        let mut i: usize = 0;
        while i < self.media.len()
            invariant
                media == stored_of(self.media@),
                i <= self.media@.len(),
                flags@.len() == i,
                forall|k: int| 0 <= k < i ==> #[trigger] flags@[k] == needs_analysis()(media[k]),
            decreases self.media@.len() - i,
        {
            assert(media[i as int] == self.media@[i as int]@);
            let row: &MediaRow = &self.media[i].row;
            flags.push(!row.missing && (row.phash.is_none() || row.dom_color.is_none()));
            i += 1;
        }
        let rows: Vec<MediaRow> = self.list(flags.as_slice(), Ghost(needs_analysis()));
        id_paths(rows.as_slice())
    }

    /// The path and stamp of every row beneath a root, present or not.
    pub fn stamps_under(&self, root: &str) -> (r: Vec<(String, Stamp)>)
        requires
            self.wf(),
        ensures
            stamp_pairs(r@) == stamps_of(selected(self@.media, stored_under(root@))),
    {
        let ghost media = self@.media;
        let ghost p = stored_under(root@);
        let prefix: Vec<char> = slashed(root);
        let mut out: Vec<(String, Stamp)> = Vec::new();
        let mut i: usize = 0;
        assert(media.take(0) =~= Seq::<Stored>::empty());
        assert(stamp_pairs(out@) =~= stamps_of(selected(media.take(0), p)));
        while i < self.media.len()
            invariant
                media == stored_of(self.media@),
                p == stored_under(root@),
                prefix@ == with_slash(root@),
                i <= self.media@.len(),
                stamp_pairs(out@) == stamps_of(selected(media.take(i as int), p)),
            decreases self.media@.len() - i,
        {
            let ghost before = out@;
            proof {
                lemma_selected_push(media, p, i as int);
                assert(media[i as int] == self.media@[i as int]@);
            }
            let row: &MediaRow = &self.media[i].row;
            if starts_with(row.path.as_str(), prefix.as_slice()) {
                let stamp: Stamp = Stamp {
                    id: row.id,
                    size: row.size,
                    mtime: row.mtime,
                    has_content_hash: row.content_hash.is_some(),
                    has_phash: row.phash.is_some(),
                    meta_version: self.media[i].meta_version,
                };
                let path: String = row.path.clone();
                out.push((path, stamp));
                proof {
                    let s = media[i as int];
                    assert(stamp_pairs(out@) =~= stamp_pairs(before).push(
                        (s.row.path, stamp_of(s)),
                    ));
                    assert(stamp_pairs(out@) =~= stamps_of(selected(media.take(i + 1), p)));
                }
            }
            i += 1;
        }
        assert(media.take(i as int) =~= media);
        out
    }

    /// The stamps of the rows beneath a root, by path.
    pub fn stamps_by_path(&self, root: &str) -> (r: StringHashMap<Stamp>)
        requires
            self.wf(),
        ensures
            forall|path: Seq<char>| #[trigger]
                r@.contains_key(path) == (stamp_at(self@.media, root@, path) is Some),
            forall|path: Seq<char>| #[trigger]
                r@.contains_key(path) ==> stamp_at(self@.media, root@, path) == Some(r@[path]),
    {
        let ghost media = self@.media;
        let ghost p = stored_under(root@);
        let ghost some = selected(media, p);
        let list: Vec<(String, Stamp)> = self.stamps_under(root);
        let mut map: StringHashMap<Stamp> = StringHashMap::new();
        proof {
            self.lemma_wf();
            lemma_selected(media, p);
            assert(stamp_pairs(list@).len() == stamps_of(some).len());
            assert forall|k: int| 0 <= k < list@.len() implies (#[trigger] list@[k]).0@
                == some[k].row.path && list@[k].1 == stamp_of(some[k]) by {
                assert(stamp_pairs(list@)[k] == stamps_of(some)[k]);
            }
        }
        let mut i: usize = 0;
        while i < list.len()
            invariant
                i <= list@.len(),
                list@.len() == some.len(),
                media_ok(some),
                forall|k: int|
                    0 <= k < list@.len() ==> (#[trigger] list@[k]).0@ == some[k].row.path
                        && list@[k].1 == stamp_of(some[k]),
                forall|path: Seq<char>| #[trigger]
                    map@.contains_key(path) ==> exists|k: int|
                        0 <= k < i && (#[trigger] some[k]).row.path == path && map@[path]
                            == stamp_of(some[k]),
                forall|k: int| 0 <= k < i ==> map@.contains_key((#[trigger] some[k]).row.path),
            decreases list@.len() - i,
        {
            let ghost before = map@;
            let path: String = list[i].0.clone();
            let stamp: Stamp = list[i].1;
            map.insert(path, stamp);
            proof {
                assert(list@[i as int].0@ == some[i as int].row.path);
                assert forall|path: Seq<char>| #[trigger] map@.contains_key(path) implies exists|
                    k: int,
                |
                    0 <= k < i + 1 && (#[trigger] some[k]).row.path == path && map@[path]
                        == stamp_of(some[k]) by {
                    if path == some[i as int].row.path {
                        assert(map@[path] == stamp_of(some[i as int]));
                    } else {
                        assert(before.contains_key(path));
                    }
                }
            }
            i += 1;
        }
        proof {
            assert forall|path: Seq<char>| #[trigger]
                map@.contains_key(path) == (stamp_at(media, root@, path) is Some) && (
                map@.contains_key(path) ==> stamp_at(media, root@, path) == Some(map@[path])) by {
                lemma_row_at(media, path);
                if map@.contains_key(path) {
                    let k = choose|k: int|
                        0 <= k < some.len() && (#[trigger] some[k]).row.path == path && map@[path]
                            == stamp_of(some[k]);
                    assert(p(some[k]) && media.contains(some[k]));
                    let j = choose|j: int| 0 <= j < media.len() && media[j] == some[k];
                    lemma_row_at_is(media, path, j);
                }
                if let Some(j) = row_at(media, path) {
                    if is_under(root@, path) {
                        assert(p(media[j]));
                        assert(some.contains(media[j]));
                        let k = choose|k: int| 0 <= k < some.len() && some[k] == media[j];
                        assert(map@.contains_key(some[k].row.path));
                    }
                }
            }
        }
        map
    }

    /// How many images beneath a root are hidden.
    pub fn hidden_count_under(&self, root: &str) -> (r: usize)
        requires
            self.wf(),
        ensures
            r == selected(self@.media, hidden_at(self@.users, root@)).len(),
    {
        let ghost media = self@.media;
        let ghost p = hidden_at(self@.users, root@);
        let prefix: Vec<char> = slashed(root);
        let mut count: usize = 0;
        let mut i: usize = 0;
        assert(media.take(0) =~= Seq::<Stored>::empty());
        while i < self.media.len()
            invariant
                self.wf(),
                media == stored_of(self.media@),
                p == hidden_at(self@.users, root@),
                prefix@ == with_slash(root@),
                i <= self.media@.len(),
                count <= i,
                count == selected(media.take(i as int), p).len(),
            decreases self.media@.len() - i,
        {
            proof {
                lemma_selected_push(media, p, i as int);
                assert(media[i as int] == self.media@[i as int]@);
            }
            let row: &MediaRow = &self.media[i].row;
            let hidden: bool = match &row.content_hash {
                Some(h) => self.user_marks(h.as_str()).0,
                None => false,
            };
            if !row.missing && hidden && starts_with(row.path.as_str(), prefix.as_slice()) {
                count += 1;
            }
            i += 1;
        }
        assert(media.take(i as int) =~= media);
        count
    }

    /// Counts and total bytes of the present rows beneath a root.
    pub fn stats_under(&self, root: &str) -> (r: Result<CatalogStats, CatalogError>)
        requires
            self.wf(),
        ensures
            r is Err <==> bytes_of(selected(self@.media, present_at(root@))) > i64::MAX,
            r is Err ==> r->Err_0 == CatalogError::SizeOverflow,
            r matches Ok(s) ==> stats_of(selected(self@.media, present_at(root@))) == (
                s.files as nat,
                s.hashed as nat,
                s.phashed as nat,
                s.bytes as nat,
            ),
    {
        let ghost media = self@.media;
        let ghost p = present_at(root@);
        let ghost hashed_p = |s: Stored| s.row.content_hash is Some;
        let ghost phashed_p = |s: Stored| s.row.phash is Some;
        let prefix: Vec<char> = slashed(root);
        let mut stats: CatalogStats = CatalogStats { files: 0, hashed: 0, phashed: 0, bytes: 0 };
        let mut i: usize = 0;
        assert(media.take(0) =~= Seq::<Stored>::empty());
        while i < self.media.len()
            invariant
                self.wf(),
                media == stored_of(self.media@),
                p == present_at(root@),
                hashed_p == (|s: Stored| s.row.content_hash is Some),
                phashed_p == (|s: Stored| s.row.phash is Some),
                prefix@ == with_slash(root@),
                i <= self.media@.len(),
                stats.files <= i,
                stats.hashed <= i,
                stats.phashed <= i,
                stats.bytes <= i64::MAX,
                stats_of(selected(media.take(i as int), p)) == (
                    stats.files as nat,
                    stats.hashed as nat,
                    stats.phashed as nat,
                    stats.bytes as nat,
                ),
            decreases self.media@.len() - i,
        {
            let ghost before = selected(media.take(i as int), p);
            let ghost after = selected(media.take(i + 1), p);
            proof {
                lemma_selected_push(media, p, i as int);
                assert(media[i as int] == self.media@[i as int]@);
                lemma_bytes_grow(media, p, i + 1);
            }
            let row: &MediaRow = &self.media[i].row;
            if !row.missing && starts_with(row.path.as_str(), prefix.as_slice()) {
                proof {
                    assert(after.drop_last() =~= before);
                    assert(after.last() == media[i as int]);
                    assert(media[i as int].row.size <= i64::MAX);
                }
                let sum: u64 = stats.bytes + row.size;
                if sum > i64::MAX as u64 {
                    return Err(CatalogError::SizeOverflow);
                }
                stats.bytes = sum;
                stats.files += 1;
                if row.content_hash.is_some() {
                    stats.hashed += 1;
                }
                if row.phash.is_some() {
                    stats.phashed += 1;
                }
            }
            i += 1;
        }
        assert(media.take(i as int) =~= media);
        Ok(stats)
    }

    /// Takes every row for one from before the metadata of the current version
    /// was extracted.
    pub fn mark_meta_stale_for_tests(&mut self)
        requires
            old(self).wf(),
        ensures
            final(self).wf(),
            final(self)@ == (Tables {
                media: old(self)@.media.map_values(
                    |s: Stored| Stored { row: s.row, meta_version: 0 },
                ),
                ..old(self)@
            }),
    {
        let ghost media = self@.media;
        let ghost next = media.map_values(|s: Stored| Stored { row: s.row, meta_version: 0 });
        let mut i: usize = 0;
        while i < self.media.len()
            invariant
                self.users@ == old(self).users@,
                self.ledger@ == old(self).ledger@,
                media == old(self)@.media,
                next == media.map_values(|s: Stored| Stored { row: s.row, meta_version: 0 }),
                self.media@.len() == media.len(),
                i <= self.media@.len(),
                forall|k: int| 0 <= k < i ==> (#[trigger] self.media@[k])@ == next[k],
                forall|k: int| i <= k < media.len() ==> (#[trigger] self.media@[k])@ == media[k],
            decreases self.media@.len() - i,
        {
            assert(self.media@[i as int]@ == media[i as int]);
            let mut entry: Entry = self.media[i].clone();
            entry.meta_version = 0;
            assert(entry@ =~= next[i as int]);
            self.media.set(i, entry);
            i += 1;
        }
        proof {
            assert(stored_of(self.media@) =~= next);
            assert forall|i: int, j: int| 0 <= i < j < next.len() implies (
            #[trigger] next[i]).row.id != (#[trigger] next[j]).row.id && next[i].row.path
                != next[j].row.path by {
                assert(media[i].row.id != media[j].row.id);
            }
            assert forall|i: int| 0 <= i < next.len() implies (#[trigger] next[i]).row.size
                <= i64::MAX by {
                assert(media[i].row.size <= i64::MAX);
            }
        }
    }
}

/// The ledger lines that something holds of, in order.
pub open spec fn selected_lines(ledger: Seq<Line>, p: spec_fn(Line) -> bool) -> Seq<Line>
    decreases ledger.len(),
{
    if ledger.len() == 0 {
        Seq::empty()
    } else if p(ledger.last()) {
        selected_lines(ledger.drop_last(), p).push(ledger.last())
    } else {
        selected_lines(ledger.drop_last(), p)
    }
}

/// What puts ledger lines in order, newest first.
pub open spec fn newest_key(l: Line) -> order::Key {
    order::Key { first: -(l.id as int), ..order::no_key() }
}

/// Ledger lines as entries, newest first.
pub open spec fn newest_first(lines: Seq<Line>) -> Seq<Held> {
    order::stable_order(lines.map_values(|l: Line| newest_key(l))).map_values(
        |i: int| held(lines[i]),
    )
}

/// A ledger line as an entry.
pub open spec fn held(l: Line) -> Held {
    Held {
        id: l.id,
        batch: l.batch,
        original_path: l.original_path,
        quarantine_path: l.quarantine_path,
    }
}

/// Whether a line is of a batch and still in quarantine.
pub open spec fn pending_in(batch: i64) -> spec_fn(Line) -> bool {
    |l: Line| l.batch == batch && !l.restored
}

/// Whether a line is still in quarantine.
pub open spec fn pending() -> spec_fn(Line) -> bool {
    |l: Line| !l.restored
}

/// The largest batch of some lines.
pub open spec fn max_batch(lines: Seq<Line>) -> Option<int>
    decreases lines.len(),
{
    if lines.len() == 0 {
        None
    } else {
        let last = lines.last().batch as int;
        match max_batch(lines.drop_last()) {
            Some(b) => if last > b {
                Some(last)
            } else {
                Some(b)
            },
            None => Some(last),
        }
    }
}

/// The largest number of a line, or zero if there is none.
pub open spec fn max_line(lines: Seq<Line>) -> int
    decreases lines.len(),
{
    if lines.len() == 0 {
        0
    } else {
        let rest = max_line(lines.drop_last());
        if lines.last().id > rest {
            lines.last().id as int
        } else {
            rest
        }
    }
}

/// No line's number is beyond the largest.
pub proof fn lemma_max_line(lines: Seq<Line>)
    ensures
        0 <= max_line(lines) <= i64::MAX,
        forall|i: int| 0 <= i < lines.len() ==> (#[trigger] lines[i]).id <= max_line(lines),
    decreases lines.len(),
{
    if lines.len() > 0 {
        lemma_max_line(lines.drop_last());
        assert forall|i: int| 0 <= i < lines.len() implies (#[trigger] lines[i]).id <= max_line(
            lines,
        ) by {
            if i < lines.len() - 1 {
                assert(lines.drop_last()[i] == lines[i]);
            }
        }
    }
}

/// Whether a batch number can follow those in use.
pub open spec fn has_next_batch(lines: Seq<Line>) -> bool {
    max_batch(lines) matches Some(b) ==> b < i64::MAX
}

impl Catalog {
    /// The number for the next batch. A batch groups one act of quarantining so
    /// that it can be undone as a unit.
    pub fn next_quarantine_batch(&self) -> (r: i64)
        requires
            has_next_batch(self@.ledger),
        ensures
            r == (match max_batch(self@.ledger) {
                Some(b) => b + 1,
                None => 1,
            }),
    {
        match self.largest_batch(false) {
            Some(b) => b + 1,
            None => 1,
        }
    }

    fn largest_batch(&self, pending_only: bool) -> (r: Option<i64>)
        ensures
            r is Some <==> max_batch(
                if pending_only {
                    selected_lines(self@.ledger, pending())
                } else {
                    self@.ledger
                },
            ) is Some,
            r is Some ==> r->0 == max_batch(
                if pending_only {
                    selected_lines(self@.ledger, pending())
                } else {
                    self@.ledger
                },
            )->0,
    {
        let ghost lines = self@.ledger;
        let ghost some = |s: Seq<Line>| if pending_only { selected_lines(s, pending()) } else { s };
        let mut max: Option<i64> = None;
        let mut i: usize = 0;
        assert(lines.take(0) =~= Seq::<Line>::empty());
        while i < self.ledger.len()
            invariant
                lines == lines_of(self.ledger@),
                some == (|s: Seq<Line>|
                    if pending_only {
                        selected_lines(s, pending())
                    } else {
                        s
                    }),
                i <= self.ledger@.len(),
                max is Some <==> max_batch(some(lines.take(i as int))) is Some,
                max is Some ==> max->0 == max_batch(some(lines.take(i as int)))->0,
            decreases self.ledger@.len() - i,
        {
            let line: &LedgerLine = &self.ledger[i];
            proof {
                assert(lines.take(i + 1).drop_last() =~= lines.take(i as int));
                assert(lines.take(i + 1).last() == line@);
                if pending_only && !line@.restored {
                    assert(some(lines.take(i + 1)).drop_last() =~= some(lines.take(i as int)));
                }
            }
            if !pending_only || !line.restored {
                max = match max {
                    Some(b) => if line.batch > b {
                        Some(line.batch)
                    } else {
                        Some(b)
                    },
                    None => Some(line.batch),
                };
            }
            i += 1;
        }
        assert(lines.take(i as int) =~= lines);
        max
    }

    /// Records that a file was moved into quarantine.
    pub fn record_quarantine(&mut self, batch: i64, original: &str, quarantined: &str) -> (r: Result<
        (),
        CatalogError,
    >)
        requires
            old(self).wf(),
        ensures
            final(self).wf(),
            r is Err <==> max_line(old(self)@.ledger) == i64::MAX,
            r is Err ==> r->Err_0 == CatalogError::NoMoreIds && final(self)@ == old(self)@,
            r is Ok ==> final(self)@ == (Tables {
                ledger: old(self)@.ledger.push(
                    Line {
                        id: (max_line(old(self)@.ledger) + 1) as i64,
                        batch,
                        original_path: original@,
                        quarantine_path: quarantined@,
                        restored: false,
                    },
                ),
                ..old(self)@
            }),
    {
        let ghost lines = self@.ledger;
        let mut max: i64 = 0;
        let mut i: usize = 0;
        assert(lines.take(0) =~= Seq::<Line>::empty());
        while i < self.ledger.len()
            invariant
                *self == *old(self),
                lines == lines_of(self.ledger@),
                i <= self.ledger@.len(),
                max == max_line(lines.take(i as int)),
            decreases self.ledger@.len() - i,
        {
            proof {
                assert(lines.take(i + 1).drop_last() =~= lines.take(i as int));
                assert(lines.take(i + 1).last() == self.ledger@[i as int]@);
            }
            if self.ledger[i].id > max {
                max = self.ledger[i].id;
            }
            i += 1;
        }
        assert(lines.take(i as int) =~= lines);
        if max == i64::MAX {
            return Err(CatalogError::NoMoreIds);
        }
        let line: LedgerLine = LedgerLine {
            id: max + 1,
            batch,
            original_path: chars_to_string(original),
            quarantine_path: chars_to_string(quarantined),
            restored: false,
        };
        let ghost added = line@;
        self.ledger.push(line);
        proof {
            let next = lines_of(self.ledger@);
            assert(next =~= lines.push(added));
            lemma_max_line(lines);
            assert forall|i: int, j: int| 0 <= i < j < next.len() implies (#[trigger] next[i]).id
                != (#[trigger] next[j]).id by {
                assert(next[i] == lines[i]);
                if j < lines.len() {
                    assert(next[j] == lines[j]);
                }
            }
        }
        Ok(())
    }

    fn lines_where(&self, keep: &[bool], Ghost(p): Ghost<spec_fn(Line) -> bool>) -> (r: Vec<
        QuarantineEntry,
    >)
        requires
            keep@.len() == self@.ledger.len(),
            forall|i: int| 0 <= i < keep@.len() ==> #[trigger] keep@[i] == p(self@.ledger[i]),
        ensures
            r@.map_values(|e: QuarantineEntry| e@) == newest_first(selected_lines(self@.ledger, p)),
    {
        let ghost lines = self@.ledger;
        let ghost view = |e: QuarantineEntry| e@;
        let mut some: Vec<QuarantineEntry> = Vec::new();
        let mut keys: Vec<SortKey> = Vec::new();
        let mut i: usize = 0;
        assert(lines.take(0) =~= Seq::<Line>::empty());
        assert(some@.map_values(view) =~= selected_lines(lines.take(0), p).map_values(
            |l: Line| held(l),
        ));
        assert(order::keys_of(keys@) =~= selected_lines(lines.take(0), p).map_values(
            |l: Line| newest_key(l),
        ));
        while i < self.ledger.len()
            invariant
                lines == lines_of(self.ledger@),
                view == (|e: QuarantineEntry| e@),
                keep@.len() == lines.len(),
                forall|i: int| 0 <= i < keep@.len() ==> #[trigger] keep@[i] == p(lines[i]),
                i <= self.ledger@.len(),
                some@.map_values(view) == selected_lines(lines.take(i as int), p).map_values(
                    |l: Line| held(l),
                ),
                order::keys_of(keys@) == selected_lines(lines.take(i as int), p).map_values(
                    |l: Line| newest_key(l),
                ),
            decreases self.ledger@.len() - i,
        {
            let line: &LedgerLine = &self.ledger[i];
            let ghost some_before = some@;
            let ghost keys_before = keys@;
            proof {
                assert(lines.take(i + 1).drop_last() =~= lines.take(i as int));
                assert(lines.take(i + 1).last() == line@);
                assert(lines[i as int] == line@);
            }
            if keep[i] {
                let entry: QuarantineEntry = QuarantineEntry {
                    id: line.id,
                    batch: line.batch,
                    original_path: line.original_path.clone(),
                    quarantine_path: line.quarantine_path.clone(),
                };
                let key: SortKey = SortKey {
                    lead: Vec::new(),
                    first: -(line.id as i128),
                    second: 0,
                    third: 0,
                    fourth: 0,
                    words: Vec::new(),
                };
                assert(entry@ =~= held(line@));
                assert(key@ =~= newest_key(line@));
                some.push(entry);
                keys.push(key);
                proof {
                    let next = selected_lines(lines.take(i + 1), p);
                    assert(some@.map_values(view) =~= some_before.map_values(view).push(
                        held(line@),
                    ));
                    assert(some@.map_values(view) =~= next.map_values(|l: Line| held(l)));
                    assert(order::keys_of(keys@) =~= order::keys_of(keys_before).push(
                        newest_key(line@),
                    ));
                    assert(order::keys_of(keys@) =~= next.map_values(|l: Line| newest_key(l)));
                }
            }
            i += 1;
        }
        assert(lines.take(i as int) =~= lines);
        let ghost chosen = selected_lines(lines, p);
        let sorted: Vec<usize> = sorted_order(keys.as_slice());
        let ghost done = newest_first(chosen);
        assert(order::keys_of(keys@).len() == keys@.len());
        assert(some@.map_values(view).len() == some@.len());
        let mut out: Vec<QuarantineEntry> = Vec::new();
        let mut k: usize = 0;
        assert(out@.map_values(view) =~= done.take(0));
        while k < sorted.len()
            invariant
                view == (|e: QuarantineEntry| e@),
                done == newest_first(chosen),
                some@.map_values(view) == chosen.map_values(|l: Line| held(l)),
                order::positions(sorted@) == order::stable_order(
                    chosen.map_values(|l: Line| newest_key(l)),
                ),
                forall|i: int| 0 <= i < sorted@.len() ==> (#[trigger] sorted@[i]) < some@.len(),
                k <= sorted@.len(),
                out@.map_values(view) == done.take(k as int),
            decreases sorted@.len() - k,
        {
            let ghost before = out@;
            let entry: QuarantineEntry = some[sorted[k]].clone();
            proof {
                assert(order::positions(sorted@)[k as int] == sorted@[k as int]);
                let j = sorted@[k as int] as int;
                assert(some@.map_values(view).len() == some@.len());
                assert(chosen.map_values(|l: Line| held(l)).len() == chosen.len());
                assert(some@.map_values(view)[j] == some@[j]@);
                assert(chosen.map_values(|l: Line| held(l))[j] == held(chosen[j]));
                assert(entry@ == done[k as int]);
            }
            out.push(entry);
            proof {
                assert(out@.map_values(view) =~= before.map_values(view).push(done[k as int]));
                assert(done.take(k + 1) =~= done.take(k as int).push(done[k as int]));
            }
            k += 1;
        }
        assert(done.take(k as int) =~= done);
        out
    }

    /// The entries of a batch that are still in quarantine, newest first.
    pub fn quarantine_batch(&self, batch: i64) -> (r: Vec<QuarantineEntry>)
        ensures
            r@.map_values(|e: QuarantineEntry| e@) == newest_first(
                selected_lines(self@.ledger, pending_in(batch)),
            ),
    {
        let ghost lines = self@.ledger;
        let mut keep: Vec<bool> = Vec::new();
        let mut i: usize = 0;
        while i < self.ledger.len()
            invariant
                lines == lines_of(self.ledger@),
                i <= self.ledger@.len(),
                keep@.len() == i,
                forall|k: int| 0 <= k < i ==> #[trigger] keep@[k] == pending_in(batch)(lines[k]),
            decreases self.ledger@.len() - i,
        {
            assert(lines[i as int] == self.ledger@[i as int]@);
            keep.push(self.ledger[i].batch == batch && !self.ledger[i].restored);
            i += 1;
        }
        self.lines_where(keep.as_slice(), Ghost(pending_in(batch)))
    }

    /// The most recent batch with entries that are still in quarantine.
    pub fn latest_restorable_batch(&self) -> (r: Option<i64>)
        ensures
            r is Some <==> max_batch(selected_lines(self@.ledger, pending())) is Some,
            r is Some ==> r->0 == max_batch(selected_lines(self@.ledger, pending()))->0,
    {
        self.largest_batch(true)
    }

    /// All entries that are still in quarantine, newest first.
    pub fn quarantine_pending(&self) -> (r: Vec<QuarantineEntry>)
        ensures
            r@.map_values(|e: QuarantineEntry| e@) == newest_first(
                selected_lines(self@.ledger, pending()),
            ),
    {
        let ghost lines = self@.ledger;
        let mut keep: Vec<bool> = Vec::new();
        let mut i: usize = 0;
        while i < self.ledger.len()
            invariant
                lines == lines_of(self.ledger@),
                i <= self.ledger@.len(),
                keep@.len() == i,
                forall|k: int| 0 <= k < i ==> #[trigger] keep@[k] == pending()(lines[k]),
            decreases self.ledger@.len() - i,
        {
            assert(lines[i as int] == self.ledger@[i as int]@);
            keep.push(!self.ledger[i].restored);
            i += 1;
        }
        self.lines_where(keep.as_slice(), Ghost(pending()))
    }

    /// Records that a file was put back.
    pub fn mark_restored(&mut self, entry_id: i64)
        requires
            old(self).wf(),
        ensures
            final(self).wf(),
            final(self)@ == (Tables {
                ledger: restored_lines(old(self)@.ledger, entry_id),
                ..old(self)@
            }),
    {
        let ghost lines = self@.ledger;
        let ghost next = restored_lines(lines, entry_id);
        let mut i: usize = 0;
        while i < self.ledger.len()
            invariant
                self.users@ == old(self).users@,
                self.media@ == old(self).media@,
                lines == old(self)@.ledger,
                next == restored_lines(lines, entry_id),
                self.ledger@.len() == lines.len(),
                i <= self.ledger@.len(),
                forall|k: int| 0 <= k < i ==> (#[trigger] self.ledger@[k])@ == next[k],
                forall|k: int| i <= k < lines.len() ==> (#[trigger] self.ledger@[k])@ == lines[k],
            decreases self.ledger@.len() - i,
        {
            assert(self.ledger@[i as int]@ == lines[i as int]);
            if self.ledger[i].id == entry_id {
                let line: &LedgerLine = &self.ledger[i];
                let fresh: LedgerLine = LedgerLine {
                    id: line.id,
                    batch: line.batch,
                    original_path: line.original_path.clone(),
                    quarantine_path: line.quarantine_path.clone(),
                    restored: true,
                };
                assert(fresh@ =~= next[i as int]);
                self.ledger.set(i, fresh);
            }
            i += 1;
        }
        proof {
            assert(lines_of(self.ledger@) =~= next);
            assert forall|i: int, j: int| 0 <= i < j < next.len() implies (#[trigger] next[i]).id
                != (#[trigger] next[j]).id by {
                assert(lines[i].id != lines[j].id);
            }
        }
    }
}

/// The ledger once the file of a line was put back.
pub open spec fn restored_lines(ledger: Seq<Line>, id: i64) -> Seq<Line> {
    ledger.map_values(
        |l: Line|
            if l.id == id {
                Line { restored: true, ..l }
            } else {
                l
            },
    )
}

fn text_key(s: &str) -> (r: SortKey)
    ensures
        r@ == (order::Key { lead: s@, ..order::no_key() }),
{
    let key: SortKey = SortKey {
        lead: chars_of(s),
        first: 0,
        second: 0,
        third: 0,
        fourth: 0,
        words: Vec::new(),
    };
    assert(key@ =~= (order::Key { lead: s@, ..order::no_key() }));
    key
}

fn number_key(n: i64) -> (r: SortKey)
    ensures
        r@ == (order::Key { first: n as int, ..order::no_key() }),
{
    let key: SortKey = SortKey {
        lead: Vec::new(),
        first: n as i128,
        second: 0,
        third: 0,
        fourth: 0,
        words: Vec::new(),
    };
    assert(key@ =~= (order::Key { first: n as int, ..order::no_key() }));
    key
}

fn media_is_ok(media: &[Entry]) -> (r: bool)
    ensures
        r == media_ok(stored_of(media@)),
{
    let ghost ms = stored_of(media@);
    let mut ids: Vec<SortKey> = Vec::new();
    let mut paths: Vec<SortKey> = Vec::new();
    let mut i: usize = 0;
    while i < media.len()
        invariant
            ms == stored_of(media@),
            i <= media@.len(),
            ids@.len() == i,
            paths@.len() == i,
            forall|k: int|
                0 <= k < i ==> (#[trigger] ids@[k])@ == (order::Key {
                    first: ms[k].row.id as int,
                    ..order::no_key()
                }),
            forall|k: int| 0 <= k < i ==> (#[trigger] paths@[k])@ == path_text_key(ms[k].row),
            forall|k: int| 0 <= k < i ==> (#[trigger] ms[k]).row.size <= i64::MAX,
        decreases media@.len() - i,
    {
        assert(ms[i as int] == media@[i as int]@);
        if media[i].row.size > i64::MAX as u64 {
            return false;
        }
        ids.push(number_key(media[i].row.id));
        paths.push(text_key(media[i].row.path.as_str()));
        i += 1;
    }
    let ids_differ: bool = all_distinct(ids.as_slice());
    let paths_differ: bool = all_distinct(paths.as_slice());
    proof {
        if ids_differ && paths_differ {
            assert forall|i: int, j: int| 0 <= i < j < ms.len() implies (#[trigger] ms[i]).row.id
                != (#[trigger] ms[j]).row.id && ms[i].row.path != ms[j].row.path by {
                assert(ids@[i]@ != ids@[j]@);
                assert(paths@[i]@ != paths@[j]@);
            }
        }
        if media_ok(ms) {
            assert forall|i: int, j: int| 0 <= i < j < ids@.len() implies (#[trigger] ids@[i])@ != (
            #[trigger] ids@[j])@ by {
                assert(ms[i].row.id != ms[j].row.id);
            }
            assert forall|i: int, j: int| 0 <= i < j < paths@.len() implies (
            #[trigger] paths@[i])@ != (#[trigger] paths@[j])@ by {
                assert(ms[i].row.path != ms[j].row.path);
            }
        }
    }
    ids_differ && paths_differ
}

/// Whether records are of different content hashes and have ratings of up to
/// five stars.
pub open spec fn users_valid(users: Seq<UserMeta>) -> bool {
    &&& forall|i: int, j: int|
        0 <= i < j < users.len() ==> (#[trigger] users[i]).content_hash@ != (
        #[trigger] users[j]).content_hash@
    &&& forall|i: int| 0 <= i < users.len() ==> (#[trigger] users[i]).rating <= 5
}

fn users_are_ok(users: &[UserMeta]) -> (r: bool)
    ensures
        r == users_valid(users@),
{
    let mut hashes: Vec<SortKey> = Vec::new();
    let mut i: usize = 0;
    while i < users.len()
        invariant
            i <= users@.len(),
            hashes@.len() == i,
            forall|k: int|
                0 <= k < i ==> (#[trigger] hashes@[k])@ == (order::Key {
                    lead: users@[k].content_hash@,
                    ..order::no_key()
                }),
            forall|k: int| 0 <= k < i ==> (#[trigger] users@[k]).rating <= 5,
        decreases users@.len() - i,
    {
        if users[i].rating > 5 {
            return false;
        }
        hashes.push(text_key(users[i].content_hash.as_str()));
        i += 1;
    }
    let differ: bool = all_distinct(hashes.as_slice());
    proof {
        if differ {
            assert forall|i: int, j: int| 0 <= i < j < users@.len() implies (
            #[trigger] users@[i]).content_hash@ != (#[trigger] users@[j]).content_hash@ by {
                assert(hashes@[i]@ != hashes@[j]@);
            }
        } else if users_valid(users@) {
            assert forall|i: int, j: int| 0 <= i < j < hashes@.len() implies (
            #[trigger] hashes@[i])@ != (#[trigger] hashes@[j])@ by {
                assert(users@[i].content_hash@ != users@[j].content_hash@);
            }
        }
    }
    differ
}

fn ledger_is_ok(ledger: &[LedgerLine]) -> (r: bool)
    ensures
        r == ledger_ok(lines_of(ledger@)),
{
    let ghost ls = lines_of(ledger@);
    let mut ids: Vec<SortKey> = Vec::new();
    let mut i: usize = 0;
    while i < ledger.len()
        invariant
            ls == lines_of(ledger@),
            i <= ledger@.len(),
            ids@.len() == i,
            forall|k: int|
                0 <= k < i ==> (#[trigger] ids@[k])@ == (order::Key {
                    first: ls[k].id as int,
                    ..order::no_key()
                }),
        decreases ledger@.len() - i,
    {
        assert(ls[i as int] == ledger@[i as int]@);
        ids.push(number_key(ledger[i].id));
        i += 1;
    }
    let differ: bool = all_distinct(ids.as_slice());
    proof {
        if differ {
            assert forall|i: int, j: int| 0 <= i < j < ls.len() implies (#[trigger] ls[i]).id != (
            #[trigger] ls[j]).id by {
                assert(ids@[i]@ != ids@[j]@);
            }
        } else if ledger_ok(ls) {
            assert forall|i: int, j: int| 0 <= i < j < ids@.len() implies (#[trigger] ids@[i])@ != (
            #[trigger] ids@[j])@ by {
                assert(ls[i].id != ls[j].id);
            }
        }
    }
    differ
}

impl Catalog {
    /// A catalog of stored tables, unless two rows have the same number or path,
    /// a size is too large, two records have the same content hash, a rating is
    /// beyond five stars, or two ledger lines have the same number.
    pub fn from_tables(media: Vec<Entry>, users: Vec<UserMeta>, ledger: Vec<LedgerLine>) -> (r: Option<
        Self,
    >)
        ensures
            r is Some <==> media_ok(stored_of(media@)) && users_valid(users@) && ledger_ok(
                lines_of(ledger@),
            ),
            r is Some ==> r->0.wf() && r->0@ == (Tables {
                media: stored_of(media@),
                users: users_of(users@),
                ledger: lines_of(ledger@),
            }),
    {
        if media_is_ok(media.as_slice()) && users_are_ok(users.as_slice()) && ledger_is_ok(
            ledger.as_slice(),
        ) {
            Some(Catalog { media, users, ledger })
        } else {
            None
        }
    }

    /// The rows as they are kept.
    pub fn entries(&self) -> (r: &Vec<Entry>)
        ensures
            stored_of(r@) == self@.media,
    {
        &self.media
    }

    /// What the user supplied, by content hash.
    pub fn user_records(&self) -> (r: &Vec<UserMeta>)
        ensures
            users_of(r@) == self@.users,
    {
        &self.users
    }

    /// The lines of the quarantine ledger.
    pub fn ledger_lines(&self) -> (r: &Vec<LedgerLine>)
        ensures
            lines_of(r@) == self@.ledger,
    {
        &self.ledger
    }
}

/// Whether a character means something in a `LIKE` pattern.
pub open spec fn is_wild(c: char) -> bool {
    c == '\\' || c == '%' || c == '_'
}

/// A text with a backslash before each character that means something in a
/// `LIKE` pattern.
pub open spec fn escaped(s: Seq<char>) -> Seq<char>
    decreases s.len(),
{
    if s.len() == 0 {
        Seq::empty()
    } else if is_wild(s.last()) {
        escaped(s.drop_last()).push('\\').push(s.last())
    } else {
        escaped(s.drop_last()).push(s.last())
    }
}

/// The `LIKE` pattern for everything beneath a root.
pub open spec fn like_pattern(root: Seq<char>) -> Seq<char> {
    escaped(with_slash(root)).push('%')
}

/// Builds the `LIKE` pattern, with the backslash as its escape character, for
/// everything beneath `root`. Underscores are common in camera file names, so
/// what means something in a pattern is escaped.
pub fn like_prefix(root: &str) -> (r: String)
    ensures
        r@ == like_pattern(root@),
{
    let v: Vec<char> = slashed(root);
    let ghost s = with_slash(root@);
    let mut out: String = String::new();
    let mut i: usize = 0;
    assert(s.take(0) =~= Seq::<char>::empty());
    assert(out@ =~= escaped(s.take(0)));
    while i < v.len()
        invariant
            v@ == s,
            i <= v@.len(),
            out@ == escaped(s.take(i as int)),
        decreases v@.len() - i,
    {
        assert(s.take(i + 1).drop_last() =~= s.take(i as int));
        let c: char = v[i];
        if c == '\\' || c == '%' || c == '_' {
            out.push('\\');
        }
        out.push(c);
        i += 1;
    }
    assert(s.take(i as int) =~= s);
    out.push('%');
    out
}

/// Whether a text matches a `LIKE` pattern: a percent sign stands for any text,
/// an underscore for any one character, a backslash for the character after it,
/// and anything else for itself.
pub open spec fn is_like(pattern: Seq<char>, s: Seq<char>) -> bool
    decreases pattern.len() + s.len(),
{
    if pattern.len() == 0 {
        s.len() == 0
    } else if pattern[0] == '%' {
        is_like(pattern.drop_first(), s) || (s.len() > 0 && is_like(pattern, s.drop_first()))
    } else if s.len() == 0 {
        false
    } else if pattern[0] == '_' {
        is_like(pattern.drop_first(), s.drop_first())
    } else if pattern[0] == '\\' && pattern.len() > 1 {
        s[0] == pattern[1] && is_like(pattern.skip(2), s.drop_first())
    } else {
        s[0] == pattern[0] && is_like(pattern.drop_first(), s.drop_first())
    }
}

proof fn lemma_escaped_first(s: Seq<char>)
    requires
        s.len() > 0,
    ensures
        escaped(s) == (if is_wild(s[0]) {
            seq!['\\', s[0]]
        } else {
            seq![s[0]]
        }) + escaped(s.drop_first()),
    decreases s.len(),
{
    let head = if is_wild(s[0]) {
        seq!['\\', s[0]]
    } else {
        seq![s[0]]
    };
    if s.len() == 1 {
        assert(s.drop_last() =~= Seq::<char>::empty());
        assert(s.drop_first() =~= Seq::<char>::empty());
        assert(escaped(s) =~= head + escaped(s.drop_first()));
    } else {
        let init = s.drop_last();
        lemma_escaped_first(init);
        assert(init.drop_first() =~= s.drop_first().drop_last());
        assert(escaped(s) =~= head + escaped(s.drop_first()));
    }
}

proof fn lemma_percent_matches(s: Seq<char>)
    ensures
        is_like(seq!['%'], s),
    decreases s.len(),
{
    let p = seq!['%'];
    assert(p.drop_first() =~= Seq::<char>::empty());
    if s.len() > 0 {
        lemma_percent_matches(s.drop_first());
    } else {
        assert(is_like(p.drop_first(), s));
    }
}

proof fn lemma_pattern_is_prefix(q: Seq<char>, s: Seq<char>)
    ensures
        is_like(escaped(q).push('%'), s) == text::begins_with(s, q),
    decreases q.len(),
{
    let p = escaped(q).push('%');
    if q.len() == 0 {
        assert(p =~= seq!['%']);
        lemma_percent_matches(s);
        assert(s.take(0) =~= q);
    } else {
        lemma_escaped_first(q);
        let rest = escaped(q.drop_first()).push('%');
        if s.len() > 0 {
            lemma_pattern_is_prefix(q.drop_first(), s.drop_first());
            assert(text::begins_with(s, q) == (s[0] == q[0] && text::begins_with(
                s.drop_first(),
                q.drop_first(),
            ))) by {
                if s[0] == q[0] && text::begins_with(s.drop_first(), q.drop_first()) {
                    assert forall|i: int| 0 <= i < q.len() implies s.take(q.len() as int)[i]
                        == q[i] by {
                        if i > 0 {
                            assert(s.drop_first().take(q.len() - 1)[i - 1] == q.drop_first()[i - 1]);
                        }
                    }
                    assert(s.take(q.len() as int) =~= q);
                }
                if text::begins_with(s, q) {
                    assert(s[0] == s.take(q.len() as int)[0]);
                    assert forall|i: int|
                        0 <= i < q.len() - 1 implies s.drop_first().take(q.len() - 1)[i]
                        == q.drop_first()[i] by {
                        assert(s.take(q.len() as int)[i + 1] == q[i + 1]);
                    }
                    assert(s.drop_first().take(q.len() - 1) =~= q.drop_first());
                }
            }
        }
        if is_wild(q[0]) {
            assert(p[0] == '\\' && p[1] == q[0]);
            assert(p.skip(2) =~= rest);
        } else {
            assert(p[0] == q[0]);
            assert(p.drop_first() =~= rest);
        }
    }
}

/// The pattern for a root matches exactly what is beneath it: wildcards in the
/// root's own name match only themselves, and `/photos/library` is not beneath
/// `/photos/lib`.
pub proof fn like_pattern_matches_what_is_beneath(root: Seq<char>, path: Seq<char>)
    ensures
        is_like(like_pattern(root), path) == is_under(root, path),
{
    lemma_pattern_is_prefix(with_slash(root), path);
}

/// Whether a row is that of an entry of which `p` holds.
pub open spec fn comes_from(t: Tables, p: spec_fn(Stored) -> bool, row: Row) -> bool {
    exists|k: int|
        0 <= k < t.media.len() && p(#[trigger] t.media[k]) && row == joined_row(
            t.users,
            t.media[k].row,
        )
}

pub(crate) proof fn lemma_listed(t: Tables, p: spec_fn(Stored) -> bool)
    ensures
        listed_rows(t, p).len() == selected(t.media, p).len(),
        forall|i: int|
            0 <= i < listed_rows(t, p).len() ==> comes_from(t, p, #[trigger] listed_rows(t, p)[i]),
        forall|k: int|
            0 <= k < t.media.len() && p(#[trigger] t.media[k]) ==> listed_rows(t, p).contains(
                joined_row(t.users, t.media[k].row),
            ),
{
    let some = selected(t.media, p);
    let rows = some.map_values(|s: Stored| joined_row(t.users, s.row));
    let ks = rows.map_values(|r: Row| path_text_key(r));
    let q = order::stable_order(ks);
    order::stable_order_is_in_order(ks);
    lemma_selected(t.media, p);
    let list = listed_rows(t, p);
    assert forall|i: int| 0 <= i < list.len() implies comes_from(t, p, #[trigger] list[i]) by {
        assert(0 <= q[i] < rows.len());
        assert(list[i] == rows[q[i]]);
        assert(p(some[q[i]]));
        assert(t.media.contains(some[q[i]]));
        let k = choose|k: int| 0 <= k < t.media.len() && t.media[k] == some[q[i]];
        assert(p(t.media[k]));
    }
    assert forall|k: int| 0 <= k < t.media.len() && p(#[trigger] t.media[k]) implies list.contains(
        joined_row(t.users, t.media[k].row),
    ) by {
        assert(some.contains(t.media[k]));
        let j = choose|j: int| 0 <= j < some.len() && some[j] == t.media[k];
        assert(q.contains(j));
        let i = choose|i: int| 0 <= i < q.len() && q[i] == j;
        assert(list[i] == rows[j]);
    }
}

/// A view of visible images never shows a hidden one, nor one whose file is gone,
/// nor one that is not beneath its root.
pub proof fn hidden_images_are_never_shown(t: Tables, root: Seq<char>, i: int)
    requires
        0 <= i < listed_rows(t, shown_under(t, root, Visibility::VisibleOnly)).len(),
    ensures
        ({
            let row = listed_rows(t, shown_under(t, root, Visibility::VisibleOnly))[i];
            !row.hidden && !row.missing && is_under(root, row.path)
        }),
{
    lemma_listed(t, shown_under(t, root, Visibility::VisibleOnly));
}

/// What the filter holds back is exactly the hidden images: a row is listed with
/// everything and not hidden if and only if it is listed as visible.
pub proof fn filter_holds_back_hidden_images_only(t: Tables, root: Seq<char>, row: Row)
    ensures
        listed_rows(t, shown_under(t, root, Visibility::VisibleOnly)).contains(row) <==> (
        listed_rows(t, shown_under(t, root, Visibility::All)).contains(row) && !row.hidden),
{
    let v = shown_under(t, root, Visibility::VisibleOnly);
    let a = shown_under(t, root, Visibility::All);
    lemma_listed(t, v);
    lemma_listed(t, a);
    if listed_rows(t, v).contains(row) {
        let i = choose|i: int| 0 <= i < listed_rows(t, v).len() && listed_rows(t, v)[i] == row;
        let k = choose|k: int|
            0 <= k < t.media.len() && v(#[trigger] t.media[k]) && row == joined_row(
                t.users,
                t.media[k].row,
            );
        assert(a(t.media[k]));
    }
    if listed_rows(t, a).contains(row) && !row.hidden {
        let i = choose|i: int| 0 <= i < listed_rows(t, a).len() && listed_rows(t, a)[i] == row;
        let k = choose|k: int|
            0 <= k < t.media.len() && a(#[trigger] t.media[k]) && row == joined_row(
                t.users,
                t.media[k].row,
            );
        assert(v(t.media[k]));
    }
}

/// What the user supplied goes by the bytes of a file, not by its path or row:
/// two rows with the same content hash have the same marks.
pub proof fn marks_go_by_contents(users: Map<Seq<char>, UserMarks>, a: Row, b: Row)
    requires
        a.content_hash == b.content_hash,
    ensures
        joined_row(users, a).hidden == joined_row(users, b).hidden,
        joined_row(users, a).rating == joined_row(users, b).rating,
        joined_row(users, a).kind_override == joined_row(users, b).kind_override,
{
}

/// What the user supplied survives the loss and return of a row: once a file is
/// indexed again and hashed to the same content hash, it has the same marks.
pub proof fn marks_survive_rebuilding_a_row(t: Tables, k: int, row: Row)
    requires
        media_ok(t.media),
        0 <= k < t.media.len(),
        row.content_hash == t.media[k].row.content_hash,
        max_id(t.media) < i64::MAX,
    ensures
        ({
            let path = t.media[k].row.path;
            let dropped = selected(t.media, |s: Stored| s.row.path != path);
            let back = upserted(dropped, Row { path, ..row });
            let at = row_at(back, path);
            &&& row_at(dropped, path) is None
            &&& at is Some
            &&& marks_of(t.users, back[at->0].row) == marks_of(t.users, t.media[k].row)
        }),
{
    let path = t.media[k].row.path;
    let p = |s: Stored| s.row.path != path;
    let dropped = selected(t.media, p);
    lemma_selected(t.media, p);
    lemma_row_at(dropped, path);
    if row_at(dropped, path) is Some {
        assert(p(dropped[row_at(dropped, path)->0]));
    }
    let back = upserted(dropped, Row { path, ..row });
    assert(back.last().row.path == path);
}

/// The row of a renamed file follows it: its number, hashes and colour stay, and
/// nothing is left at the old path.
pub proof fn moves_keep_what_was_computed(media: Seq<Stored>, k: int, to: Seq<char>)
    requires
        media_ok(media),
        0 <= k < media.len(),
    ensures
        ({
            let from = media[k].row.path;
            let next = after_move(media, from, to);
            let at = row_at(next, to);
            &&& media_ok(next)
            &&& at is Some
            &&& next[at->0].row == moved_row(media[k].row, to)
            &&& next[at->0].meta_version == media[k].meta_version
            &&& from != to ==> row_at(next, from) is None
        }),
{
    let from = media[k].row.path;
    let p = |s: Stored| s.row.path != to || s.row.path == from;
    let cleared = selected(media, p);
    let next = after_move(media, from, to);
    lemma_selected(media, p);
    lemma_after_move_ok(media, from, to);
    assert(p(media[k]));
    assert(cleared.contains(media[k]));
    let j = choose|j: int| 0 <= j < cleared.len() && cleared[j] == media[k];
    assert(next[j].row == moved_row(media[k].row, to));
    lemma_row_at_is(next, to, j);
    if from != to {
        lemma_row_at(next, from);
        match row_at(next, from) {
            Some(i) => {
                assert(next[i].row.path == from);
                assert(cleared[i].row.path == from ==> next[i].row.path == to);
            },
            None => {},
        }
    }
}

/// A move touches no row but the moved file's and a stale one at its destination.
pub proof fn moves_leave_other_rows_alone(
    media: Seq<Stored>,
    from: Seq<char>,
    to: Seq<char>,
    k: int,
)
    requires
        media_ok(media),
        0 <= k < media.len(),
        media[k].row.path != from,
        media[k].row.path != to,
    ensures
        after_move(media, from, to).contains(media[k]),
{
    let p = |s: Stored| s.row.path != to || s.row.path == from;
    let cleared = selected(media, p);
    lemma_selected(media, p);
    assert(p(media[k]));
    let j = choose|j: int| 0 <= j < cleared.len() && cleared[j] == media[k];
    assert(after_move(media, from, to)[j] == media[k]);
}

/// Indexing an unchanged file again keeps its hashes and colour; a file that
/// changed has those of the new row. Either way its number stays.
pub proof fn unchanged_files_keep_their_hashes(media: Seq<Stored>, k: int, row: Row)
    requires
        media_ok(media),
        0 <= k < media.len(),
        row.path == media[k].row.path,
    ensures
        ({
            let before = media[k].row;
            let after = upserted(media, row)[k].row;
            &&& upserted(media, row).len() == media.len()
            &&& after.id == before.id
            &&& !after.missing
            &&& unchanged(before, row) ==> after.content_hash == before.content_hash && after.phash
                == before.phash && after.dom_color == before.dom_color
            &&& !unchanged(before, row) ==> after.content_hash == row.content_hash && after.phash
                == row.phash && after.dom_color == row.dom_color
        }),
{
    lemma_row_at_is(media, row.path, k);
}

/// A restored file is no longer in quarantine, and every other one still is.
pub proof fn restoring_ends_one_entry(ledger: Seq<Line>, id: i64, i: int)
    requires
        0 <= i < ledger.len(),
    ensures
        pending()(restored_lines(ledger, id)[i]) <==> (pending()(ledger[i]) && ledger[i].id != id),
{
}

proof fn lemma_max_batch(lines: Seq<Line>, i: int)
    requires
        0 <= i < lines.len(),
    ensures
        max_batch(lines) is Some,
        lines[i].batch <= max_batch(lines)->0,
    decreases lines.len(),
{
    if i < lines.len() - 1 {
        lemma_max_batch(lines.drop_last(), i);
    }
}

/// A new batch gets a number that no earlier one has.
pub proof fn batch_numbers_are_not_reused(ledger: Seq<Line>, i: int)
    requires
        0 <= i < ledger.len(),
        has_next_batch(ledger),
    ensures
        max_batch(ledger) matches Some(b) && ledger[i].batch < b + 1,
{
    lemma_max_batch(ledger, i);
}

proof fn lemma_selected_is_filter(media: Seq<Stored>, p: spec_fn(Stored) -> bool)
    ensures
        selected(media, p) == media.filter(p),
    decreases media.len(),
{
    reveal(Seq::filter);
    if media.len() > 0 {
        lemma_selected_is_filter(media.drop_last(), p);
    }
}

/// A path lies beneath a folder exactly if it goes on, behind the folder's own and a
/// slash, with anything at all.
pub proof fn paths_beneath_a_folder(root: Seq<char>, path: Seq<char>, rest: Seq<char>)
    ensures
        root.len() > 0 && root.last() == '/' ==> is_under(root, root + rest) && (is_under(root, path)
            <==> path.len() >= root.len() && path.take(root.len() as int) == root),
        root.len() == 0 || root.last() != '/' ==> is_under(root, root + seq!['/'] + rest) && (
        is_under(root, path) <==> path.len() > root.len() && path.take(root.len() as int) == root
            && path[root.len() as int] == '/'),
{
    let full = if root.len() > 0 && root.last() == '/' {
        root
    } else {
        root + seq!['/']
    };
    assert(with_slash(root) =~= full);
    assert((full + rest).take(full.len() as int) =~= full);
    if root.len() == 0 || root.last() != '/' {
        let n = root.len() as int;
        if is_under(root, path) {
            assert(path.take(n + 1) == full);
            assert(path.take(n) =~= full.take(n));
            assert(full.take(n) =~= root);
            assert(path[n] == full[n]);
        }
        if path.len() > n && path.take(n) == root && path[n] == '/' {
            assert(path.take(n + 1) =~= full) by {
                assert forall|i: int| 0 <= i < n + 1 implies path[i] == full[i] by {
                    if i < n {
                        assert(path.take(n)[i] == path[i]);
                    }
                }
            }
        }
    }
}

/// A listing goes by path, character by character.
pub proof fn listings_go_by_path(t: Tables, p: spec_fn(Stored) -> bool, i: int, j: int)
    requires
        0 <= i < j < listed_rows(t, p).len(),
    ensures
        !order::text_lt(listed_rows(t, p)[j].path, listed_rows(t, p)[i].path),
{
    let rows = selected(t.media, p).map_values(|s: Stored| joined_row(t.users, s.row));
    let keys = rows.map_values(|r: Row| path_text_key(r));
    let at = order::sorting_goes_by_key(rows, keys);
    assert(order::rearranged(rows, keys) =~= by_path_text(rows));
    assert(at[i] != at[j]);
    assert(order::rearranged(rows, keys)[i] == rows[at[i]]);
    assert(order::rearranged(rows, keys)[j] == rows[at[j]]);
    if order::text_lt(rows[at[j]].path, rows[at[i]].path) {
        order::lemma_text_lt_asym(rows[at[j]].path, rows[at[i]].path);
    }
}

/// A listing holds the rows that were asked for, each with the marks kept for its
/// contents: hidden or not, its stars and its kind, and the plain ones where none are kept.
pub proof fn listings_hold_what_is_asked_for(t: Tables, p: spec_fn(Stored) -> bool)
    ensures
        listed_rows(t, p).to_multiset() == t.media.filter(p).map_values(
            |s: Stored|
                {
                    let known = s.row.content_hash is Some && t.users.contains_key(
                        s.row.content_hash->0,
                    );
                    let marks = t.users[s.row.content_hash->0];
                    Row {
                        hidden: known && marks.hidden,
                        rating: if known {
                            marks.rating
                        } else {
                            0
                        },
                        kind_override: if known {
                            marks.kind
                        } else {
                            None
                        },
                        ..s.row
                    }
                },
        ).to_multiset(),
{
    lemma_selected_is_filter(t.media, p);
    let rows = selected(t.media, p).map_values(|s: Stored| joined_row(t.users, s.row));
    let keys = rows.map_values(|r: Row| path_text_key(r));
    order::rearranging_keeps_every_item(rows, keys);
    assert(order::rearranged(rows, keys) =~= by_path_text(rows));
    assert(rows =~= t.media.filter(p).map_values(
        |s: Stored|
            {
                let known = s.row.content_hash is Some && t.users.contains_key(
                    s.row.content_hash->0,
                );
                let marks = t.users[s.row.content_hash->0];
                Row {
                    hidden: known && marks.hidden,
                    rating: if known {
                        marks.rating
                    } else {
                        0
                    },
                    kind_override: if known {
                        marks.kind
                    } else {
                        None
                    },
                    ..s.row
                }
            },
    ));
}

/// What the listings ask of a row: that its file is there; for some that it lies beneath
/// the folder; and with the filter on that its contents are not hidden.
pub proof fn shown_rows_are_present(t: Tables, root: Seq<char>, s: Stored)
    ensures
        ({
            let hidden = s.row.content_hash is Some && t.users.contains_key(s.row.content_hash->0)
                && t.users[s.row.content_hash->0].hidden;
            let beneath = is_under(root, s.row.path);
            &&& shown(t, Visibility::All)(s) <==> !s.row.missing
            &&& shown(t, Visibility::VisibleOnly)(s) <==> !s.row.missing && !hidden
            &&& shown_under(t, root, Visibility::All)(s) <==> !s.row.missing && beneath
            &&& shown_under(t, root, Visibility::VisibleOnly)(s) <==> !s.row.missing && beneath
                && !hidden
            &&& hidden_at(t.users, root)(s) <==> !s.row.missing && beneath && hidden
            &&& present_at(root)(s) <==> !s.row.missing && beneath
            &&& stored_under(root)(s) <==> beneath
        }),
{
}

/// How many files beneath a folder are hidden, and how many are there, have a content
/// hash, have a perceptual hash, and how much they take up.
pub proof fn statistics_count_present_files(t: Tables, root: Seq<char>)
    ensures
        ({
            let there = t.media.filter(
                |s: Stored| !s.row.missing && is_under(root, s.row.path),
            );
            let stats = stats_of(selected(t.media, present_at(root)));
            &&& stats.0 == there.len()
            &&& stats.1 == there.filter(|s: Stored| s.row.content_hash is Some).len()
            &&& stats.2 == there.filter(|s: Stored| s.row.phash is Some).len()
            &&& stats.3 == there.fold_left(0, |n: int, s: Stored| n + s.row.size)
            &&& bytes_of(selected(t.media, present_at(root))) == stats.3
        }),
        selected(t.media, hidden_at(t.users, root)).len() == t.media.filter(
            |s: Stored|
                !s.row.missing && is_under(root, s.row.path) && s.row.content_hash is Some
                    && t.users.contains_key(s.row.content_hash->0)
                    && t.users[s.row.content_hash->0].hidden,
        ).len(),
{
    let p = |s: Stored| !s.row.missing && is_under(root, s.row.path);
    let there = t.media.filter(p);
    assert(present_at(root) =~= p);
    lemma_selected_is_filter(t.media, present_at(root));
    lemma_selected_is_filter(there, |s: Stored| s.row.content_hash is Some);
    lemma_selected_is_filter(there, |s: Stored| s.row.phash is Some);
    lemma_bytes_add_up(there);
    lemma_selected_is_filter(t.media, hidden_at(t.users, root));
    assert(hidden_at(t.users, root) =~= (|s: Stored|
        !s.row.missing && is_under(root, s.row.path) && s.row.content_hash is Some
            && t.users.contains_key(s.row.content_hash->0)
            && t.users[s.row.content_hash->0].hidden));
}

proof fn lemma_bytes_add_up(media: Seq<Stored>)
    ensures
        bytes_of(media) == media.fold_left(0, |n: int, s: Stored| n + s.row.size),
    decreases media.len(),
{
    if media.len() > 0 {
        lemma_bytes_add_up(media.drop_last());
    }
}

/// Indexing a file that is known stores what was found, under the number it has: all that
/// was read, and the hashes and the colour as they were if size and time are as they were,
/// otherwise as found. The other rows stay.
pub proof fn known_files_are_brought_up_to_date(media: Seq<Stored>, k: int, row: Row)
    requires
        media_ok(media),
        0 <= k < media.len(),
        row.path == media[k].row.path,
    ensures
        ({
            let before = media[k].row;
            let next = upserted(media, row);
            let after = next[k].row;
            let same = before.size == row.size && before.mtime == row.mtime;
            &&& upserted_id(media, row) == before.id
            &&& next.len() == media.len()
            &&& forall|i: int| 0 <= i < media.len() && i != k ==> #[trigger] next[i] == media[i]
            &&& next[k].meta_version == 2
            &&& after.id == before.id && after.path == row.path && after.file_name == row.file_name
            &&& after.ext == row.ext && after.size == row.size && after.mtime == row.mtime
            &&& after.date_taken == row.date_taken && after.camera_make == row.camera_make
            &&& after.camera_model == row.camera_model && after.lens == row.lens
            &&& after.iso == row.iso && after.width == row.width && after.height == row.height
            &&& after.lat == row.lat && after.lon == row.lon && !after.missing
            &&& after.content_hash == if same {
                before.content_hash
            } else {
                row.content_hash
            }
            &&& after.phash == if same {
                before.phash
            } else {
                row.phash
            }
            &&& after.dom_color == if same {
                before.dom_color
            } else {
                row.dom_color
            }
        }),
{
    lemma_row_at_is(media, row.path, k);
}

/// Indexing a file that is not known adds a row behind the others, with all that was found
/// and a number greater than any in use.
pub proof fn new_files_are_added(media: Seq<Stored>, row: Row)
    requires
        media_ok(media),
        forall|i: int| 0 <= i < media.len() ==> (#[trigger] media[i]).row.path != row.path,
        max_id(media) < i64::MAX,
    ensures
        ({
            let next = upserted(media, row);
            let after = next.last().row;
            &&& next.len() == media.len() + 1
            &&& next.drop_last() == media
            &&& upserted_id(media, row) == after.id
            &&& forall|i: int| 0 <= i < media.len() ==> (#[trigger] media[i]).row.id < after.id
            &&& after.id >= 1
            &&& after.id > 1 ==> exists|i: int|
                0 <= i < media.len() && (#[trigger] media[i]).row.id == after.id - 1
            &&& next.last().meta_version == 2
            &&& after.path == row.path && after.file_name == row.file_name && after.ext == row.ext
            &&& after.size == row.size && after.mtime == row.mtime
            &&& after.date_taken == row.date_taken && after.camera_make == row.camera_make
            &&& after.camera_model == row.camera_model && after.lens == row.lens
            &&& after.iso == row.iso && after.width == row.width && after.height == row.height
            &&& after.lat == row.lat && after.lon == row.lon && !after.missing
            &&& after.content_hash == row.content_hash && after.phash == row.phash
            &&& after.dom_color == row.dom_color
        }),
{
    lemma_row_at(media, row.path);
    lemma_max_id(media);
    lemma_max_id_is_in_use(media);
    assert(upserted(media, row).drop_last() =~= media);
}

proof fn lemma_max_id_is_in_use(media: Seq<Stored>)
    ensures
        max_id(media) > 0 ==> exists|i: int|
            0 <= i < media.len() && (#[trigger] media[i]).row.id == max_id(media),
    decreases media.len(),
{
    if media.len() > 0 {
        let rest = media.drop_last();
        lemma_max_id_is_in_use(rest);
        if max_id(media) > 0 {
            if max_id(media) == max_id(rest) {
                let i = choose|i: int|
                    0 <= i < rest.len() && (#[trigger] rest[i]).row.id == max_id(rest);
                assert(media[i] == rest[i]);
            } else {
                assert(media[media.len() - 1].row.id == max_id(media));
            }
        }
    }
}

/// After a scan a row beneath the folder whose file was not seen is missing; of every
/// other row, and of all else, nothing changes.
pub proof fn unseen_files_are_missing(
    media: Seq<Stored>,
    root: Seq<char>,
    seen: Seq<i64>,
    i: int,
)
    requires
        0 <= i < media.len(),
    ensures
        ({
            let before = media[i].row;
            let after = marked_missing(media, unseen(root, seen))[i];
            let gone = is_under(root, before.path) && !seen.contains(before.id);
            &&& marked_missing(media, unseen(root, seen)).len() == media.len()
            &&& gone ==> after.row.missing
            &&& !gone ==> after == media[i]
            &&& after.row == Row { missing: after.row.missing, ..before }
            &&& after.meta_version == media[i].meta_version
        }),
        selected(media, unseen(root, seen)).len() == media.filter(
            |s: Stored| is_under(root, s.row.path) && !seen.contains(s.row.id),
        ).len(),
{
    lemma_selected_is_filter(media, unseen(root, seen));
    assert(unseen(root, seen) =~= (|s: Stored|
        is_under(root, s.row.path) && !seen.contains(s.row.id)));
}

/// Forgetting missing files keeps those that are there, in their order; and removing a
/// path keeps those of other paths.
pub proof fn removals_keep_the_rest(media: Seq<Stored>, path: Seq<char>)
    ensures
        selected(media, |s: Stored| !s.row.missing) == media.filter(|s: Stored| !s.row.missing),
        selected(media, |s: Stored| s.row.path != path) == media.filter(
            |s: Stored| s.row.path != path,
        ),
{
    lemma_selected_is_filter(media, |s: Stored| !s.row.missing);
    lemma_selected_is_filter(media, |s: Stored| s.row.path != path);
}

/// What is computed for a row is stored in it and in no other, and changes nothing else.
pub proof fn results_go_to_their_row(
    media: Seq<Stored>,
    id: i64,
    hash: Seq<char>,
    phash: Option<u64>,
    colour: Option<u32>,
    width: u32,
    height: u32,
    i: int,
)
    requires
        0 <= i < media.len(),
    ensures
        ({
            let s = media[i];
            let hashed = with_row(media, id, with_hash(hash))[i];
            let analysed = with_row(media, id, with_analysis(phash, colour))[i];
            let measured = with_row(media, id, with_dimensions(width, height))[i];
            &&& s.row.id != id ==> hashed == s && analysed == s && measured == s
            &&& s.row.id == id ==> hashed.row == Row { content_hash: Some(hash), ..s.row }
            &&& s.row.id == id ==> analysed.row == Row { phash, dom_color: colour, ..s.row }
            &&& s.row.id == id ==> measured.row == Row {
                width: Some(width),
                height: Some(height),
                ..s.row
            }
            &&& hashed.meta_version == s.meta_version && analysed.meta_version == s.meta_version
                && measured.meta_version == s.meta_version
        }),
{
}

/// A moved row has its new path, and the name and extension that the path gives it; its
/// number, and whatever was read or computed, stays.
pub proof fn moved_rows_change_their_path_only(row: Row, to: Seq<char>)
    ensures
        moved_row(row, to).path == to,
        moved_row(row, to).file_name == (match pathname::file_name(to) {
            Some(name) => name,
            None => Seq::empty(),
        }),
        moved_row(row, to).ext == (match pathname::extension(to) {
            Some(ext) => ext,
            None => Seq::empty(),
        }),
        !moved_row(row, to).missing,
        moved_row(row, to) == (Row {
            path: moved_row(row, to).path,
            file_name: moved_row(row, to).file_name,
            ext: moved_row(row, to).ext,
            missing: false,
            ..row
        }),
{
}

/// Moves are followed one after the other: following some and then more is following
/// them all, and each counts for one exactly if there is a row at the path it starts from.
pub proof fn moves_are_followed_in_turn(
    media: Seq<Stored>,
    a: Seq<(Seq<char>, Seq<char>)>,
    b: Seq<(Seq<char>, Seq<char>)>,
    m: (Seq<char>, Seq<char>),
)
    ensures
        after_moves(media, Seq::empty()) == media,
        after_moves(media, seq![m]) == after_move(media, m.0, m.1),
        after_moves(media, a + b) == after_moves(after_moves(media, a), b),
        followed(media, Seq::empty()) == 0,
        followed(media, seq![m]) == if (exists|i: int|
            0 <= i < media.len() && (#[trigger] media[i]).row.path == m.0) {
            1nat
        } else {
            0nat
        },
        followed(media, a + b) == followed(media, a) + followed(after_moves(media, a), b),
    decreases b.len(),
{
    reveal_with_fuel(after_moves, 2);
    reveal_with_fuel(followed, 2);
    assert(seq![m].drop_last() =~= Seq::empty());
    lemma_row_at(media, m.0);
    if b.len() == 0 {
        assert(a + b =~= a);
    } else {
        moves_are_followed_in_turn(media, a, b.drop_last(), m);
        assert((a + b).drop_last() =~= a + b.drop_last());
    }
}

/// A row whose path nothing moves to or from stays as it is; a row that a file is moved
/// onto gives way to it.
pub proof fn a_move_replaces_its_target(media: Seq<Stored>, from: Seq<char>, to: Seq<char>)
    requires
        media_ok(media),
    ensures
        after_move(media, from, to) == media.filter(
            |s: Stored| s.row.path == from || s.row.path != to,
        ).map_values(
            |s: Stored|
                if s.row.path == from {
                    Stored { row: moved_row(s.row, to), meta_version: s.meta_version }
                } else {
                    s
                },
        ),
{
    let p = |s: Stored| s.row.path == from || s.row.path != to;
    let q = |s: Stored| s.row.path != to || s.row.path == from;
    assert(p =~= q);
    lemma_selected_is_filter(media, q);
    assert(after_move(media, from, to) =~= media.filter(p).map_values(
        |s: Stored|
            if s.row.path == from {
                Stored { row: moved_row(s.row, to), meta_version: s.meta_version }
            } else {
                s
            },
    ));
}

/// A size is one that copies may have exactly if two files that are there have it.
pub proof fn shared_sizes_are_those_of_two_files(
    sizes: Seq<u64>,
    media: Seq<Stored>,
    i: int,
    j: int,
)
    requires
        is_shared_sizes(sizes, media),
        0 <= i < media.len(),
        0 <= j < media.len(),
        i != j,
        !media[i].row.missing,
        !media[j].row.missing,
        media[i].row.size == media[j].row.size,
    ensures
        sizes.contains(media[i].row.size),
{
    assert(shares_size(media, i));
    assert(is_shared_size(media, media[i].row.size));
}

/// A size that copies may have is that of two files that are there.
pub proof fn sizes_of_one_file_are_not_shared(sizes: Seq<u64>, media: Seq<Stored>, k: int) -> (at: (
    int,
    int,
))
    requires
        is_shared_sizes(sizes, media),
        0 <= k < sizes.len(),
    ensures
        0 <= at.0 < media.len() && 0 <= at.1 < media.len() && at.0 != at.1,
        !media[at.0].row.missing && !media[at.1].row.missing,
        media[at.0].row.size == sizes[k] && media[at.1].row.size == sizes[k],
        forall|i: int, j: int| 0 <= i < j < sizes.len() ==> #[trigger] sizes[i] < #[trigger] sizes[j],
{
    assert(is_shared_size(media, sizes[k]));
    let a = choose|a: int|
        0 <= a < media.len() && (#[trigger] media[a]).row.size == sizes[k] && shares_size(media, a);
    let b = choose|b: int|
        0 <= b < media.len() && b != a && !(#[trigger] media[b]).row.missing && media[b].row.size
            == media[a].row.size;
    (a, b)
}

/// A file needs hashing if it is there, has no hash, and another file that is there has
/// its size; it needs analysing if it is there and lacks its perceptual hash or colour.
pub proof fn work_left_is_found(media: Seq<Stored>, i: int, j: int)
    requires
        0 <= i < media.len(),
        0 <= j < media.len(),
    ensures
        i != j && !media[i].row.missing && !media[j].row.missing && media[i].row.size
            == media[j].row.size && media[i].row.content_hash is None ==> needs_hash(media)(
            media[i],
        ),
        needs_hash(media)(media[i]) ==> !media[i].row.missing && media[i].row.content_hash is None,
        needs_analysis()(media[i]) <==> !media[i].row.missing && (media[i].row.phash is None
            || media[i].row.dom_color is None),
        (forall|k: int|
            0 <= k < media.len() && k != i ==> (#[trigger] media[k]).row.missing
                || media[k].row.size != media[i].row.size) ==> !needs_hash(media)(media[i]),
{
    if i != j && !media[i].row.missing && !media[j].row.missing && media[i].row.size
        == media[j].row.size {
        assert(shares_size(media, i));
        assert(is_shared_size(media, media[i].row.size));
    }
    if needs_hash(media)(media[i]) {
        let size = media[i].row.size;
        assert(is_shared_size(media, size));
        let a = choose|a: int|
            0 <= a < media.len() && (#[trigger] media[a]).row.size == size && shares_size(media, a);
        let b = choose|b: int|
            0 <= b < media.len() && b != a && !(#[trigger] media[b]).row.missing
                && media[b].row.size == media[a].row.size;
        if a != i {
            assert(!media[a].row.missing && media[a].row.size == size);
        } else {
            assert(media[b].row.size == size);
        }
    }
}

/// The stamp of a path is that of its row, if that lies beneath the folder: its number,
/// size and time, which hashes it has, and what version read it.
pub proof fn stamps_tell_what_is_stored(media: Seq<Stored>, root: Seq<char>, k: int)
    requires
        media_ok(media),
        0 <= k < media.len(),
    ensures
        ({
            let s = media[k];
            let stamp = Stamp {
                id: s.row.id,
                size: s.row.size,
                mtime: s.row.mtime,
                has_content_hash: s.row.content_hash is Some,
                has_phash: s.row.phash is Some,
                meta_version: s.meta_version,
            };
            &&& is_under(root, s.row.path) ==> stamp_at(media, root, s.row.path) == Some(stamp)
            &&& !is_under(root, s.row.path) ==> stamp_at(media, root, s.row.path) is None
            &&& stamps_of(media)[k] == (s.row.path, stamp)
        }),
        stamps_of(media).len() == media.len(),
{
    lemma_row_at_is(media, media[k].row.path, k);
}

/// A path that no row has, has no stamp.
pub proof fn unknown_paths_have_no_stamp(media: Seq<Stored>, root: Seq<char>, path: Seq<char>)
    requires
        forall|i: int| 0 <= i < media.len() ==> (#[trigger] media[i]).row.path != path,
    ensures
        stamp_at(media, root, path) is None,
{
    lemma_row_at(media, path);
}

/// The files in quarantine are listed by the number of their entry, the newest first: all
/// that were not put back, and of a batch those that are in it.
pub proof fn quarantine_is_listed_newest_first(ledger: Seq<Line>, batch: i64, i: int, j: int)
    requires
        0 <= i < j < newest_first(selected_lines(ledger, pending())).len(),
    ensures
        newest_first(selected_lines(ledger, pending()))[i].id >= newest_first(
            selected_lines(ledger, pending()),
        )[j].id,
{
    let lines = selected_lines(ledger, pending());
    let keys = lines.map_values(|l: Line| newest_key(l));
    let at = order::sorting_goes_by_key(lines, keys);
    assert(at[i] != at[j]);
    assert(order::rearranged(lines, keys)[i] == lines[at[i]]);
    assert(order::rearranged(lines, keys)[j] == lines[at[j]]);
}

/// What is listed of a batch is what is in it and was not put back, each entry with its
/// number and both places.
pub proof fn batches_list_what_they_hold(ledger: Seq<Line>, batch: i64)
    ensures
        newest_first(selected_lines(ledger, pending_in(batch))).to_multiset() == ledger.filter(
            |l: Line| l.batch == batch && !l.restored,
        ).map_values(
            |l: Line|
                Held {
                    id: l.id,
                    batch: l.batch,
                    original_path: l.original_path,
                    quarantine_path: l.quarantine_path,
                },
        ).to_multiset(),
        newest_first(selected_lines(ledger, pending())).to_multiset() == ledger.filter(
            |l: Line| !l.restored,
        ).map_values(
            |l: Line|
                Held {
                    id: l.id,
                    batch: l.batch,
                    original_path: l.original_path,
                    quarantine_path: l.quarantine_path,
                },
        ).to_multiset(),
{
    assert(pending_in(batch) =~= (|l: Line| l.batch == batch && !l.restored));
    assert(pending() =~= (|l: Line| !l.restored));
    lemma_lines_are_filter(ledger, pending_in(batch));
    lemma_lines_are_filter(ledger, pending());
    lemma_newest_first_keeps(selected_lines(ledger, pending_in(batch)));
    lemma_newest_first_keeps(selected_lines(ledger, pending()));
}

proof fn lemma_lines_are_filter(ledger: Seq<Line>, p: spec_fn(Line) -> bool)
    ensures
        selected_lines(ledger, p) == ledger.filter(p),
    decreases ledger.len(),
{
    reveal(Seq::filter);
    if ledger.len() > 0 {
        lemma_lines_are_filter(ledger.drop_last(), p);
    }
}

proof fn lemma_newest_first_keeps(lines: Seq<Line>)
    ensures
        newest_first(lines).to_multiset() == lines.map_values(
            |l: Line|
                Held {
                    id: l.id,
                    batch: l.batch,
                    original_path: l.original_path,
                    quarantine_path: l.quarantine_path,
                },
        ).to_multiset(),
{
    let all = lines.map_values(
        |l: Line|
            Held {
                id: l.id,
                batch: l.batch,
                original_path: l.original_path,
                quarantine_path: l.quarantine_path,
            },
    );
    let keys = lines.map_values(|l: Line| newest_key(l));
    order::rearranging_keeps_every_item(all, keys);
    order::stable_order_is_in_order(keys);
    assert(order::rearranged(all, keys) =~= newest_first(lines));
}

/// The latest batch that can be put back is the greatest number among the entries that
/// were not; and the next batch follows the greatest in use.
pub proof fn the_latest_batch_is_the_greatest(lines: Seq<Line>) -> (at: int)
    ensures
        lines.len() == 0 <==> max_batch(lines) is None,
        lines.len() > 0 ==> 0 <= at < lines.len() && max_batch(lines) == Some(
            lines[at].batch as int,
        ),
        forall|i: int| 0 <= i < lines.len() ==> (#[trigger] lines[i]).batch <= max_batch(lines)->0,
    decreases lines.len(),
{
    assert forall|i: int| 0 <= i < lines.len() implies (#[trigger] lines[i]).batch <= max_batch(
        lines,
    )->0 by {
        lemma_max_batch(lines, i);
    }
    if lines.len() == 0 {
        0
    } else {
        let at = the_latest_batch_is_the_greatest(lines.drop_last());
        if max_batch(lines) == Some(lines.last().batch as int) {
            lines.len() - 1
        } else {
            at
        }
    }
}

/// Entries are numbered on: a new one gets a number greater than any in use.
pub proof fn entries_are_numbered_on(lines: Seq<Line>) -> (at: int)
    ensures
        max_line(lines) >= 0,
        forall|i: int| 0 <= i < lines.len() ==> (#[trigger] lines[i]).id <= max_line(lines),
        max_line(lines) > 0 ==> 0 <= at < lines.len() && lines[at].id == max_line(lines),
    decreases lines.len(),
{
    lemma_max_line(lines);
    if lines.len() == 0 {
        0
    } else {
        let at = entries_are_numbered_on(lines.drop_last());
        if lines.last().id == max_line(lines) {
            lines.len() - 1
        } else {
            at
        }
    }
}

/// Putting an entry back marks that entry and no other, and keeps what it says.
pub proof fn restoring_marks_one_entry(ledger: Seq<Line>, id: i64, i: int)
    requires
        0 <= i < ledger.len(),
    ensures
        restored_lines(ledger, id).len() == ledger.len(),
        ledger[i].id == id ==> restored_lines(ledger, id)[i] == (Line {
            restored: true,
            ..ledger[i]
        }),
        ledger[i].id != id ==> restored_lines(ledger, id)[i] == ledger[i],
{
}

/// The marks kept for some contents are those of its record, and the plain ones where
/// there is none: shown, without stars, of no chosen kind.
pub proof fn marks_are_those_of_the_record(users: Seq<UserMeta>, i: int, hash: Seq<char>)
    requires
        users_valid(users),
        0 <= i < users.len(),
    ensures
        marks_at(users_of(users), users[i].content_hash@) == (UserMarks {
            hidden: users[i].hidden,
            rating: users[i].rating,
            kind: users[i].kind,
        }),
        (forall|k: int| 0 <= k < users.len() ==> (#[trigger] users[k]).content_hash@ != hash)
            ==> marks_at(users_of(users), hash) == (UserMarks {
            hidden: false,
            rating: 0,
            kind: None,
        }),
{
    lemma_users_of(users);
}

} // verus!
