//! Indexing: turning a folder of photos into catalog rows.
//!
//! Indexing runs in stages, cheapest first, so that expensive work is only done
//! on files that need it:
//!
//! 1. Scanning looks at every file. One whose size and modification time match
//!    the catalog is skipped entirely.
//! 2. Reconciling marks the rows of files that have disappeared.
//! 3. Hashing is only for files that share a size with another one.
//! 4. Decoding gives the perceptual hash, the dominant colour and the thumbnail.
//!
//! Each stage takes in what reading the files gave and brings the catalog and the
//! outcome up to date.
use vstd::hash_map::StringHashMap;
use vstd::prelude::*;

use crate::catalog;
use crate::catalog::{Catalog, CatalogStats, MediaRow, Stamp, META_VERSION};
use crate::colour;
use crate::colour::{dominant_colour, SAMPLE_EDGE};
use crate::engine;
use crate::engine::candidate_files;
use crate::hashing;
use crate::hashing::{perceptual_hash_from_image, DHASH_H, DHASH_W};
use crate::metadata;
use crate::metadata::{is_image_ext, FileMeta};
use crate::order;
use crate::pathname;
use crate::pathname::{extension_of_path, file_name_of};
use crate::picture;
use crate::picture::{height_of_image, measurable, width_of_image};
use crate::text;
use crate::text::{clone_opt, is_listed, parse_unsigned, push_decimal, push_text, to_lower};
use crate::thumbs;
use crate::thumbs::render_thumb;

verus! {

/// What to index and how thoroughly.
#[derive(Debug, Clone)]
pub struct IndexConfig {
    pub root: String,
    pub recursive: bool,
    /// Whether to read EXIF, which opens file contents.
    pub read_exif: bool,
    /// Whether to decode images, for perceptual hashes, colours and thumbnails.
    pub compute_phash: bool,
    /// Whether to ignore files that are not recognizable images.
    pub images_only: bool,
}

impl IndexConfig {
    /// Everything beneath `root`, thoroughly.
    pub fn new(root: String) -> (r: Self)
        ensures
            r.root@ == root@,
            r.recursive && r.read_exif && r.compute_phash && r.images_only,
    {
        IndexConfig {
            root,
            recursive: true,
            read_exif: true,
            compute_phash: true,
            images_only: true,
        }
    }
}

/// Summary of an indexing run.
#[derive(Debug)]
pub struct IndexOutcome {
    /// Files that the scan saw.
    pub scanned: usize,
    /// Files that were new or had changed.
    pub updated: usize,
    /// Files for which the catalog was current already.
    pub unchanged: usize,
    pub hashed: usize,
    pub phashed: usize,
    pub thumbs: usize,
    /// Rows whose files are gone.
    pub missing: usize,
    pub errors: Vec<String>,
    pub stats: CatalogStats,
}

/// An indexing outcome as mathematical values.
#[verifier::ext_equal]
pub struct Summary {
    pub scanned: nat,
    pub updated: nat,
    pub unchanged: nat,
    pub hashed: nat,
    pub phashed: nat,
    pub thumbs: nat,
    pub missing: nat,
    pub errors: Seq<Seq<char>>,
    pub stats: CatalogStats,
}

impl View for IndexOutcome {
    type V = Summary;

    open spec fn view(&self) -> Summary {
        Summary {
            scanned: self.scanned as nat,
            updated: self.updated as nat,
            unchanged: self.unchanged as nat,
            hashed: self.hashed as nat,
            phashed: self.phashed as nat,
            thumbs: self.thumbs as nat,
            missing: self.missing as nat,
            errors: engine::views(self.errors@),
            stats: self.stats,
        }
    }
}

/// The outcome of nothing.
pub open spec fn blank_summary() -> Summary {
    Summary {
        scanned: 0,
        updated: 0,
        unchanged: 0,
        hashed: 0,
        phashed: 0,
        thumbs: 0,
        missing: 0,
        errors: Seq::empty(),
        stats: CatalogStats { files: 0, hashed: 0, phashed: 0, bytes: 0 },
    }
}

impl Default for IndexOutcome {
    fn default() -> (r: Self)
        ensures
            r@ == blank_summary(),
    {
        let r: IndexOutcome = IndexOutcome {
            scanned: 0,
            updated: 0,
            unchanged: 0,
            hashed: 0,
            phashed: 0,
            thumbs: 0,
            missing: 0,
            errors: Vec::new(),
            stats: CatalogStats { files: 0, hashed: 0, phashed: 0, bytes: 0 },
        };
        assert(engine::views(r.errors@) =~= Seq::<Seq<char>>::empty());
        r
    }
}

/// A count that is mentioned only if it is not zero.
pub open spec fn mention(n: nat, what: Seq<char>) -> Seq<char> {
    if n > 0 {
        ", "@ + text::decimal(n) + what
    } else {
        Seq::empty()
    }
}

/// The one-line summary of an outcome.
pub open spec fn summary_line(s: Summary) -> Seq<char> {
    text::decimal(s.scanned) + " file(s): "@ + text::decimal(s.updated) + " updated, "@
        + text::decimal(s.unchanged) + " unchanged"@ + mention(s.hashed, " hashed"@) + mention(
        s.phashed,
        " analysed"@,
    ) + mention(s.thumbs, " thumbnails"@) + mention(s.missing, " missing"@) + mention(
        s.errors.len(),
        " error(s)"@,
    )
}

fn push_mention(out: &mut String, n: usize, what: &str)
    ensures
        final(out)@ == old(out)@ + mention(n as nat, what@),
{
    let ghost base = out@;
    if n > 0 {
        push_text(out, ", ");
        push_decimal(out, n as u64);
        push_text(out, what);
    }
    assert(out@ =~= base + mention(n as nat, what@));
}

impl IndexOutcome {
    /// One line for the status bar.
    pub fn summary(&self) -> (r: String)
        ensures
            r@ == summary_line(self@),
    {
        let mut s: String = String::new();
        push_decimal(&mut s, self.scanned as u64);
        push_text(&mut s, " file(s): ");
        push_decimal(&mut s, self.updated as u64);
        push_text(&mut s, " updated, ");
        push_decimal(&mut s, self.unchanged as u64);
        push_text(&mut s, " unchanged");
        push_mention(&mut s, self.hashed, " hashed");
        push_mention(&mut s, self.phashed, " analysed");
        push_mention(&mut s, self.thumbs, " thumbnails");
        push_mention(&mut s, self.missing, " missing");
        assert(engine::views(self.errors@).len() == self.errors@.len());
        push_mention(&mut s, self.errors.len(), " error(s)");
        assert(s@ =~= summary_line(self@));
        s
    }
}

/// Extensions, in lowercase, of files that can be decoded. HEIC and camera RAW
/// are not among them: they carry metadata worth reading but cannot be decoded.
pub const DECODABLE_EXTS: [&'static str; 8] = [
    "jpg",
    "jpeg",
    "png",
    "gif",
    "bmp",
    "tif",
    "tiff",
    "webp",
];

/// Whether an extension, already in lowercase, is that of a file that can be
/// decoded.
pub fn is_decodable_lowered(ext: &str) -> (r: bool)
    ensures
        r == text::listed(DECODABLE_EXTS@, ext@),
{
    let list: [&'static str; 8] = DECODABLE_EXTS;
    is_listed(list.as_slice(), ext)
}

/// Whether an extension is that of a file that can be decoded, whatever its case.
pub fn is_decodable_ext(ext: &str) -> (r: bool)
    ensures
        r == text::listed(DECODABLE_EXTS@, text::lowercase(ext@)),
        text::is_ascii(ext@) ==> r == text::listed(DECODABLE_EXTS@, text::ascii_lowercase(ext@)),
{
    let lowered: String = to_lower(ext);
    is_decodable_lowered(lowered.as_str())
}

/// A path's extension, or nothing.
pub open spec fn ext_or_empty(path: Seq<char>) -> Seq<char> {
    metadata::or_empty(pathname::extension(path))
}

/// A path's extension, or nothing.
pub fn extension_of(path: &str) -> (r: String)
    ensures
        r@ == ext_or_empty(path@),
{
    match extension_of_path(path) {
        Some(e) => e,
        None => String::new(),
    }
}

/// Whether a file is to be indexed at all.
pub open spec fn is_media(path: Seq<char>, images_only: bool) -> bool {
    !images_only || text::listed(metadata::IMAGE_EXTS@, text::lowercase(ext_or_empty(path)))
}

/// The paths of files to be indexed.
pub open spec fn media_among(paths: Seq<Seq<char>>, images_only: bool) -> Seq<Seq<char>>
    decreases paths.len(),
{
    if paths.len() == 0 {
        Seq::empty()
    } else if is_media(paths.last(), images_only) {
        media_among(paths.drop_last(), images_only).push(paths.last())
    } else {
        media_among(paths.drop_last(), images_only)
    }
}

/// The files to index out of those that a walk found, in order. The undo log is
/// bookkeeping, not media.
pub fn collect_files(found: &[String], images_only: bool) -> (r: Vec<String>)
    ensures
        engine::views(r@) == engine::sorted_paths(
            engine::without_log(media_among(engine::views(found@), images_only)),
        ),
{
    let ghost all = engine::views(found@);
    let mut some: Vec<String> = Vec::new();
    let mut i: usize = 0;
    assert(all.take(0) =~= Seq::<Seq<char>>::empty());
    assert(engine::views(some@) =~= media_among(all.take(0), images_only));
    while i < found.len()
        invariant
            all == engine::views(found@),
            i <= found@.len(),
            engine::views(some@) == media_among(all.take(i as int), images_only),
        decreases found@.len() - i,
    {
        let ghost before = some@;
        assert(all.take(i + 1).drop_last() =~= all.take(i as int));
        assert(all.take(i + 1).last() == found@[i as int]@);
        let path: &String = &found[i];
        if !images_only || is_image_ext(extension_of(path.as_str()).as_str()) {
            some.push(path.clone());
            assert(engine::views(some@) =~= engine::views(before).push(path@));
        }
        i += 1;
    }
    assert(all.take(i as int) =~= all);
    candidate_files(some.as_slice())
}

/// A number that a text states, if it is one of 32 bits.
pub open spec fn number_in(s: Option<Seq<char>>) -> Option<u32> {
    match s {
        Some(t) => match text::parsed(t, u32::MAX as nat) {
            Some(n) => Some(n as u32),
            None => None,
        },
        None => None,
    }
}

fn number_of(s: &Option<String>) -> (r: Option<u32>)
    ensures
        r == number_in(text::opt_view(*s)),
{
    match s {
        Some(t) => match parse_unsigned(t.as_str(), u32::MAX as u64) {
            Some(n) => Some(n as u32),
            None => None,
        },
        None => None,
    }
}

/// The row for a file. What later stages find out is absent, and so is what the
/// user supplies: indexing can never touch a rating or a hidden flag.
pub open spec fn row_of(path: Seq<char>, m: metadata::Meta, size: u64, mtime: i64) -> catalog::Row {
    catalog::Row {
        path,
        file_name: metadata::or_empty(pathname::file_name(path)),
        ext: m.ext,
        size,
        mtime,
        date_taken: match m.date_taken {
            Some(d) => Some(d.secs),
            None => None,
        },
        camera_make: m.camera_make,
        camera_model: m.camera_model,
        lens: m.lens,
        iso: m.iso,
        width: number_in(m.width),
        height: number_in(m.height),
        lat: m.lat,
        lon: m.lon,
        ..catalog::blank_row()
    }
}

/// The row for a file.
pub fn to_row(path: &str, meta: &FileMeta, size: u64, mtime: i64) -> (r: MediaRow)
    ensures
        r@ == row_of(path@, meta@, size, mtime),
{
    let mut row: MediaRow = MediaRow::default();
    row.path = text::string_of(text::chars_of(path).as_slice());
    row.file_name = match file_name_of(path) {
        Some(n) => n,
        None => String::new(),
    };
    row.ext = meta.ext.clone();
    row.size = size;
    row.mtime = mtime;
    row.date_taken = match meta.date_taken {
        Some(d) => Some(d.secs),
        None => None,
    };
    row.camera_make = clone_opt(&meta.camera_make);
    row.camera_model = clone_opt(&meta.camera_model);
    row.lens = clone_opt(&meta.lens);
    row.iso = clone_opt(&meta.iso);
    row.width = number_of(&meta.width);
    row.height = number_of(&meta.height);
    row.lat = meta.lat;
    row.lon = meta.lon;
    row
}

/// Whether the catalog is current for a file: same size, same modification time,
/// and metadata of the current version.
pub open spec fn is_current(stamp: Stamp, size: u64, mtime: i64) -> bool {
    stamp.size == size && stamp.mtime == mtime && stamp.meta_version == META_VERSION
}

/// The number of a file's row if the catalog is current for it, so that the file
/// can be skipped.
pub fn current_id(stamp: Option<Stamp>, size: u64, mtime: i64) -> (r: Option<i64>)
    ensures
        r == (match stamp {
            Some(s) => if is_current(s, size, mtime) {
                Some(s.id)
            } else {
                None
            },
            None => None,
        }),
{
    match stamp {
        Some(s) => if s.size == size && s.mtime == mtime && s.meta_version == META_VERSION {
            Some(s.id)
        } else {
            None
        },
        None => None,
    }
}

/// What is to be done about a file, going by its size and modification time.
#[derive(Debug, Clone, Copy, PartialEq, Eq, Structural)]
pub enum Look {
    /// These could not be had.
    NoStat,
    /// Nothing: the catalog is current for it.
    Current { id: i64 },
    /// It is new or has changed, and has to be examined.
    Examine { size: u64, mtime: i64 },
}

/// What is to be done about a file beneath a root.
pub open spec fn look_of(
    t: catalog::Tables,
    root: Seq<char>,
    path: Seq<char>,
    stat: Option<(u64, i64)>,
) -> Look {
    match stat {
        None => Look::NoStat,
        Some((size, mtime)) => match catalog::stamp_at(t.media, root, path) {
            Some(stamp) => if is_current(stamp, size, mtime) {
                Look::Current { id: stamp.id }
            } else {
                Look::Examine { size, mtime }
            },
            None => Look::Examine { size, mtime },
        },
    }
}

/// What is to be done about each of some files beneath a root.
pub open spec fn looks_of(
    t: catalog::Tables,
    root: Seq<char>,
    paths: Seq<Seq<char>>,
    stats: Seq<Option<(u64, i64)>>,
) -> Seq<Look> {
    Seq::new(paths.len(), |i: int| look_of(t, root, paths[i], stats[i]))
}

/// What is to be done about each of a run's files, given their sizes and modification
/// times. This is what makes indexing a library again cheap.
pub fn files_to_examine(cat: &Catalog, run: &IndexRun, stats: &[Option<(u64, i64)>]) -> (r: Vec<
    Look,
>)
    requires
        cat.wf(),
        stats@.len() == run.files@.len(),
    ensures
        r@ == looks_of(cat@, run.cfg.root@, engine::views(run.files@), stats@),
{
    let stamps: StringHashMap<Stamp> = cat.stamps_by_path(run.cfg.root.as_str());
    let ghost paths = engine::views(run.files@);
    let ghost root = run.cfg.root@;
    let mut out: Vec<Look> = Vec::new();
    let mut i: usize = 0;
    while i < stats.len()
        invariant
            stats@.len() == run.files@.len(),
            paths == engine::views(run.files@),
            forall|path: Seq<char>| #[trigger]
                stamps@.contains_key(path) == (catalog::stamp_at(cat@.media, root, path) is Some),
            forall|path: Seq<char>| #[trigger]
                stamps@.contains_key(path) ==> catalog::stamp_at(cat@.media, root, path) == Some(
                    stamps@[path],
                ),
            i <= stats@.len(),
            out@.len() == i,
            forall|k: int|
                0 <= k < i ==> #[trigger] out@[k] == look_of(cat@, root, paths[k], stats@[k]),
        decreases stats@.len() - i,
    {
        assert(paths[i as int] == run.files@[i as int]@);
        let look: Look = match stats[i] {
            None => Look::NoStat,
            Some((size, mtime)) => {
                let stamp: Option<Stamp> = match stamps.get(run.files[i].as_str()) {
                    Some(s) => Some(*s),
                    None => None,
                };
                assert(stamp == catalog::stamp_at(cat@.media, root, paths[i as int])) by {
                    assert(stamps@.contains_key(paths[i as int]) == (catalog::stamp_at(
                        cat@.media,
                        root,
                        paths[i as int],
                    ) is Some));
                }
                match current_id(stamp, size, mtime) {
                    Some(id) => Look::Current { id },
                    None => Look::Examine { size, mtime },
                }
            },
        };
        out.push(look);
        i += 1;
    }
    assert(out@ =~= looks_of(cat@, root, paths, stats@));
    out
}

/// What a scan found of one file.
#[derive(Debug)]
pub enum ScanEvent {
    /// Nothing could be found out about it.
    NoStat,
    /// The catalog is current for it.
    Current { id: i64 },
    /// It is new or has changed, and was examined.
    Examined { size: u64, mtime: i64, meta: FileMeta },
}

/// What a scan found of a file about which something was to be done, with the
/// metadata that examining it gave.
pub open spec fn event_of(look: Look, meta: Option<FileMeta>) -> ScanEvent {
    match look {
        Look::NoStat => ScanEvent::NoStat,
        Look::Current { id } => ScanEvent::Current { id },
        Look::Examine { size, mtime } => ScanEvent::Examined { size, mtime, meta: meta->0 },
    }
}

/// What a scan found of each file.
pub open spec fn events_of(looks: Seq<Look>, metas: Seq<Option<FileMeta>>) -> Seq<ScanEvent> {
    Seq::new(looks.len(), |i: int| event_of(looks[i], metas[i]))
}

/// Whether a file that was to be examined was.
pub open spec fn is_examined(look: Look, meta: Option<FileMeta>) -> bool {
    look is Examine ==> meta is Some
}

/// What a scan found of each file.
pub fn to_events(looks: &[Look], metas: Vec<Option<FileMeta>>) -> (r: Vec<ScanEvent>)
    requires
        looks@.len() == metas@.len(),
        forall|i: int| 0 <= i < looks@.len() ==> is_examined(#[trigger] looks@[i], metas@[i]),
    ensures
        r@ == events_of(looks@, metas@),
{
    let ghost all = metas@;
    let n: usize = looks.len();
    let mut rest: Vec<Option<FileMeta>> = metas;
    let mut backwards: Vec<ScanEvent> = Vec::new();
    let mut left: usize = n;
    while left > 0
        invariant
            n == looks@.len(),
            n == all.len(),
            left <= n,
            rest@ == all.take(left as int),
            backwards@.len() == n - left,
            forall|i: int| 0 <= i < n ==> is_examined(#[trigger] looks@[i], all[i]),
            forall|k: int|
                0 <= k < backwards@.len() ==> #[trigger] backwards@[k] == event_of(
                    looks@[n - 1 - k],
                    all[n - 1 - k],
                ),
        decreases left,
    {
        let meta: Option<FileMeta> = rest.pop().unwrap();
        left -= 1;
        assert(meta == all[left as int]);
        assert(rest@ =~= all.take(left as int));
        assert(is_examined(looks@[left as int], all[left as int]));
        let event: ScanEvent = match looks[left] {
            Look::NoStat => ScanEvent::NoStat,
            Look::Current { id } => ScanEvent::Current { id },
            Look::Examine { size, mtime } => ScanEvent::Examined {
                size,
                mtime,
                meta: meta.unwrap(),
            },
        };
        backwards.push(event);
    }
    let ghost turned = backwards@;
    let mut out: Vec<ScanEvent> = Vec::new();
    while left < n
        invariant
            n == looks@.len(),
            n == turned.len(),
            left <= n,
            backwards@ == turned.take(n - left),
            out@.len() == left,
            forall|k: int| 0 <= k < left ==> #[trigger] out@[k] == turned[n - 1 - k],
        decreases n - left,
    {
        let event: ScanEvent = backwards.pop().unwrap();
        assert(event == turned[n - 1 - left]);
        assert(backwards@ =~= turned.take(n - left - 1));
        out.push(event);
        left += 1;
    }
    assert(out@ =~= events_of(looks@, all));
    out
}

/// The state of a run: the outcome so far, the numbers of the rows that were
/// seen, and the catalog's tables.
#[verifier::ext_equal]
pub struct Run {
    pub out: Summary,
    pub seen: Seq<i64>,
    pub tables: catalog::Tables,
}

/// A line about a path.
pub open spec fn about(path: Seq<char>, what: Seq<char>) -> Seq<char> {
    path + ": "@ + what
}

/// The state once one file's scan is taken in.
pub open spec fn after_scan(run: Run, path: Seq<char>, event: ScanEvent) -> Run {
    let out = Summary { scanned: run.out.scanned + 1, ..run.out };
    match event {
        ScanEvent::NoStat => Run {
            out: Summary { errors: out.errors.push(path + ": cannot stat"@), ..out },
            ..run
        },
        ScanEvent::Current { id } => Run {
            out: Summary { unchanged: out.unchanged + 1, ..out },
            seen: run.seen.push(id),
            ..run
        },
        ScanEvent::Examined { size, mtime, meta } => {
            let row = row_of(path, meta@, size, mtime);
            if catalog::row_at(run.tables.media, path) is None && catalog::max_id(run.tables.media)
                == i64::MAX {
                Run {
                    out: Summary {
                        errors: out.errors.push(
                            about(path, catalog::error_words(catalog::CatalogError::NoMoreIds)),
                        ),
                        ..out
                    },
                    ..run
                }
            } else {
                Run {
                    out: Summary { updated: out.updated + 1, ..out },
                    seen: run.seen.push(
                        catalog::upserted_id(run.tables.media, row) as i64,
                    ),
                    tables: catalog::Tables {
                        media: catalog::upserted(run.tables.media, row),
                        ..run.tables
                    },
                }
            }
        },
    }
}

/// The state after the scans of the first `n` files.
pub open spec fn scanned_upto(
    start: catalog::Tables,
    paths: Seq<Seq<char>>,
    events: Seq<ScanEvent>,
    n: int,
) -> Run
    decreases n,
{
    if n <= 0 {
        Run { out: blank_summary(), seen: Seq::empty(), tables: start }
    } else {
        after_scan(scanned_upto(start, paths, events, n - 1), paths[n - 1], events[n - 1])
    }
}

fn push_line(errors: &mut Vec<String>, path: &str, middle: &str, what: &str)
    ensures
        engine::views(final(errors)@) == engine::views(old(errors)@).push(path@ + middle@ + what@),
        final(errors)@.len() == old(errors)@.len() + 1,
{
    let ghost before = errors@;
    let mut line: String = String::new();
    push_text(&mut line, path);
    push_text(&mut line, middle);
    push_text(&mut line, what);
    assert(line@ =~= path@ + middle@ + what@);
    let ghost l = line@;
    errors.push(line);
    assert(engine::views(errors@) =~= engine::views(before).push(l));
}

/// Whether a size is one that the catalog can hold.
pub open spec fn fits(event: ScanEvent) -> bool {
    event matches ScanEvent::Examined { size, mtime, meta } ==> size <= i64::MAX
}

/// Takes in the scan of one file.
pub fn scan_step(
    cat: &mut Catalog,
    out: &mut IndexOutcome,
    seen: &mut Vec<i64>,
    path: &str,
    event: &ScanEvent,
)
    requires
        old(cat).wf(),
        fits(*event),
        old(out).scanned < usize::MAX,
        old(out).unchanged < usize::MAX,
        old(out).updated < usize::MAX,
    ensures
        final(cat).wf(),
        (Run { out: final(out)@, seen: final(seen)@, tables: final(cat)@ }) == after_scan(
            Run { out: old(out)@, seen: old(seen)@, tables: old(cat)@ },
            path@,
            *event,
        ),
{
    let ghost run = Run { out: out@, seen: seen@, tables: cat@ };
    out.scanned += 1;
    match event {
        ScanEvent::NoStat => {
            push_line(&mut out.errors, path, ": cannot stat", "");
            proof {
                reveal_strlit("");
                assert(path@ + ": cannot stat"@ + ""@ =~= path@ + ": cannot stat"@);
            }
        },
        ScanEvent::Current { id } => {
            seen.push(*id);
            out.unchanged += 1;
        },
        ScanEvent::Examined { size, mtime, meta } => {
            let row: MediaRow = to_row(path, meta, *size, *mtime);
            match cat.upsert_media(&row) {
                Ok(id) => {
                    seen.push(id);
                    out.updated += 1;
                },
                Err(e) => {
                    push_line(&mut out.errors, path, ": ", e.message());
                },
            }
        },
    }
    assert((Run { out: out@, seen: seen@, tables: cat@ }) =~= after_scan(run, path@, *event));
}

/// Takes in the scans of all files, from the start.
pub fn scan_phase(cat: &mut Catalog, paths: &[String], events: &[ScanEvent]) -> (r: (
    IndexOutcome,
    Vec<i64>,
))
    requires
        old(cat).wf(),
        events@.len() == paths@.len(),
        forall|i: int| 0 <= i < events@.len() ==> fits(#[trigger] events@[i]),
    ensures
        final(cat).wf(),
        (Run { out: r.0@, seen: r.1@, tables: final(cat)@ }) == scanned_upto(
            old(cat)@,
            engine::views(paths@),
            events@,
            paths@.len() as int,
        ),
{
    let ghost ps = engine::views(paths@);
    let ghost start = cat@;
    let n: usize = paths.len();
    let mut out: IndexOutcome = IndexOutcome::default();
    let mut seen: Vec<i64> = Vec::new();
    let mut i: usize = 0;
    while i < n
        invariant
            n == paths@.len(),
            n == events@.len(),
            ps == engine::views(paths@),
            forall|i: int| 0 <= i < events@.len() ==> fits(#[trigger] events@[i]),
            cat.wf(),
            i <= n,
            out.scanned == i,
            out.unchanged <= i,
            out.updated <= i,
            (Run { out: out@, seen: seen@, tables: cat@ }) == scanned_upto(
                start,
                ps,
                events@,
                i as int,
            ),
        decreases n - i,
    {
        assert(ps[i as int] == paths@[i as int]@);
        assert(fits(events@[i as int]));
        scan_step(cat, &mut out, &mut seen, paths[i].as_str(), &events[i]);
        i += 1;
    }
    (out, seen)
}

/// Marks the rows beneath the root of files that the scan did not see.
pub fn reconcile(cat: &mut Catalog, out: &mut IndexOutcome, root: &str, seen: &[i64])
    requires
        old(cat).wf(),
    ensures
        final(cat).wf(),
        final(cat)@ == (catalog::Tables {
            media: catalog::marked_missing(old(cat)@.media, catalog::unseen(root@, seen@)),
            ..old(cat)@
        }),
        final(out)@ == (Summary {
            missing: catalog::selected(old(cat)@.media, catalog::unseen(root@, seen@)).len(),
            ..old(out)@
        }),
{
    out.missing = cat.mark_missing(root, seen);
}

/// What came of hashing a row's file: the hash, or why there is none.
#[derive(Debug)]
pub struct HashResult {
    pub id: i64,
    pub path: String,
    pub hash: Result<String, String>,
}

/// The state once one hash is taken in.
pub open spec fn after_hash(out: Summary, t: catalog::Tables, h: HashResult) -> (
    Summary,
    catalog::Tables,
) {
    match h.hash {
        Ok(hash) => (
            Summary { hashed: out.hashed + 1, ..out },
            catalog::Tables {
                media: catalog::with_row(t.media, h.id, catalog::with_hash(hash@)),
                ..t
            },
        ),
        Err(e) => (Summary { errors: out.errors.push(about(h.path@, e@)), ..out }, t),
    }
}

/// The state after the first `n` hashes.
pub open spec fn hashed_upto(
    out: Summary,
    t: catalog::Tables,
    results: Seq<HashResult>,
    n: int,
) -> (Summary, catalog::Tables)
    decreases n,
{
    if n <= 0 {
        (out, t)
    } else {
        let (o, u) = hashed_upto(out, t, results, n - 1);
        after_hash(o, u, results[n - 1])
    }
}

/// Takes in the hashes of the files that needed one.
pub fn hash_phase(cat: &mut Catalog, out: &mut IndexOutcome, results: &[HashResult])
    requires
        old(cat).wf(),
        old(out).hashed + results@.len() <= usize::MAX,
    ensures
        final(cat).wf(),
        (final(out)@, final(cat)@) == hashed_upto(
            old(out)@,
            old(cat)@,
            results@,
            results@.len() as int,
        ),
{
    let ghost start = out@;
    let ghost tables = cat@;
    let ghost base = out.hashed;
    let mut i: usize = 0;
    while i < results.len()
        invariant
            start == old(out)@,
            tables == old(cat)@,
            base == old(out).hashed,
            base + results@.len() <= usize::MAX,
            cat.wf(),
            i <= results@.len(),
            out.hashed <= base + i,
            (out@, cat@) == hashed_upto(start, tables, results@, i as int),
        decreases results@.len() - i,
    {
        let ghost before = out@;
        let result: &HashResult = &results[i];
        match &result.hash {
            Ok(hash) => {
                cat.set_content_hash(result.id, hash.as_str());
                out.hashed += 1;
            },
            Err(e) => {
                push_line(&mut out.errors, result.path.as_str(), ": ", e.as_str());
            },
        }
        assert((out@, cat@) == after_hash(before, hashed_upto(start, tables, results@, i as int).1, *result));
        i += 1;
    }
}

/// What is to be decoded: of the rows that lack something that decoding gives,
/// those whose file can be decoded.
pub open spec fn decodable_among(work: Seq<(i64, Seq<char>)>) -> Seq<(i64, Seq<char>)>
    decreases work.len(),
{
    if work.len() == 0 {
        Seq::empty()
    } else if text::listed(DECODABLE_EXTS@, text::lowercase(ext_or_empty(work.last().1))) {
        decodable_among(work.drop_last()).push(work.last())
    } else {
        decodable_among(work.drop_last())
    }
}

/// The work list of the decoding stage.
pub fn decode_work(cat: &Catalog) -> (r: Vec<(i64, String)>)
    requires
        cat.wf(),
    ensures
        catalog::pairs_of(r@) == decodable_among(
            catalog::ids_and_paths(catalog::listed_rows(cat@, catalog::needs_analysis())),
        ),
{
    let work: Vec<(i64, String)> = cat.rows_needing_analysis();
    let ghost ws = catalog::pairs_of(work@);
    let mut out: Vec<(i64, String)> = Vec::new();
    let mut i: usize = 0;
    assert(ws.take(0) =~= Seq::<(i64, Seq<char>)>::empty());
    assert(catalog::pairs_of(out@) =~= decodable_among(ws.take(0)));
    while i < work.len()
        invariant
            ws == catalog::pairs_of(work@),
            i <= work@.len(),
            catalog::pairs_of(out@) == decodable_among(ws.take(i as int)),
        decreases work@.len() - i,
    {
        let ghost before = out@;
        assert(ws.take(i + 1).drop_last() =~= ws.take(i as int));
        assert(ws.take(i + 1).last() == (work@[i as int].0, work@[i as int].1@));
        if is_decodable_ext(extension_of(work[i].1.as_str()).as_str()) {
            let path: String = work[i].1.clone();
            out.push((work[i].0, path));
            assert(catalog::pairs_of(out@) =~= catalog::pairs_of(before).push(ws[i as int]));
        }
        i += 1;
    }
    assert(ws.take(i as int) =~= ws);
    out
}

/// What decoding a file yields. One decode gives all of it: another pass would mean
/// reading and decoding the whole library again.
#[derive(Debug)]
pub struct Analysis {
    pub phash: u64,
    /// Dominant colour as packed `0xRRGGBB`.
    pub dom_color: u32,
    pub width: u32,
    pub height: u32,
    /// The thumbnail's file, or why there is none. Absent if it was there already.
    pub thumb: Option<Result<Vec<u8>, String>>,
}

/// Whether an analysis is that of an image.
pub open spec fn is_analysis(a: Analysis, img: image::DynamicImage, cached: bool) -> bool {
    &&& hashing::is_dhash(a.phash, hashing::grey_levels(img, DHASH_W, DHASH_H))
    &&& ({
        let (r, g, b) = colour::dominant_of(
            colour::pixels_of(colour::colour_levels(img, SAMPLE_EDGE, SAMPLE_EDGE)),
        );
        a.dom_color == colour::packed(r, g, b)
    })
    &&& a.width == picture::image_width(img)
    &&& a.height == picture::image_height(img)
    &&& if cached {
        a.thumb is None
    } else {
        match a.thumb {
            Some(Ok(bytes)) => thumbs::thumb_of(img) == Ok::<Seq<u8>, Seq<char>>(bytes@),
            Some(Err(e)) => thumbs::thumb_of(img) == Err::<Seq<u8>, Seq<char>>(e@),
            None => false,
        }
    }
}

/// Finds out everything that takes a decoded image. `cached` says whether there is a
/// thumbnail already. An image whose samples cannot be measured yields nothing.
pub fn analyse_image(img: &image::DynamicImage, cached: bool) -> (r: Option<Analysis>)
    ensures
        match r {
            Some(a) => picture::is_measurable(*img) && is_analysis(a, *img, cached),
            None => !picture::is_measurable(*img),
        },
{
    if !measurable(img) {
        return None;
    }
    Some(
        Analysis {
            phash: perceptual_hash_from_image(img),
            dom_color: dominant_colour(img),
            width: width_of_image(img),
            height: height_of_image(img),
            thumb: if cached {
                None
            } else {
                Some(render_thumb(img))
            },
        },
    )
}

/// What came of writing a thumbnail.
#[derive(Debug)]
pub enum ThumbEvent {
    /// It was there already.
    Cached,
    Written,
    Failed(String),
}

/// What came of decoding a file.
#[derive(Debug)]
pub enum DecodeEvent {
    /// Nothing could be found out about the file.
    NoStat(String),
    /// It is not an image that can be decoded, which is not worth reporting.
    NotAnImage,
    Image { phash: u64, dom_color: u32, width: u32, height: u32, thumb: ThumbEvent },
}

/// Everything that one decode gives.
#[derive(Debug)]
pub struct Decoded {
    pub id: i64,
    pub phash: Option<u64>,
    /// Dominant colour as packed `0xRRGGBB`.
    pub dom_color: Option<u32>,
    /// Dimensions that were measured, rather than taken from EXIF.
    pub dims: Option<(u32, u32)>,
    pub thumb_written: bool,
    pub error: Option<String>,
}

/// What one decode gives, as mathematical values.
#[verifier::ext_equal]
pub struct Gained {
    pub id: i64,
    pub phash: Option<u64>,
    pub dom_color: Option<u32>,
    pub dims: Option<(u32, u32)>,
    pub thumb_written: bool,
    pub error: Option<Seq<char>>,
}

impl View for Decoded {
    type V = Gained;

    open spec fn view(&self) -> Gained {
        Gained {
            id: self.id,
            phash: self.phash,
            dom_color: self.dom_color,
            dims: self.dims,
            thumb_written: self.thumb_written,
            error: text::opt_view(self.error),
        }
    }
}

/// What a decode that gave nothing gives.
pub open spec fn nothing_gained(id: i64) -> Gained {
    Gained { id, phash: None, dom_color: None, dims: None, thumb_written: false, error: None }
}

/// What one decode gives.
pub open spec fn gained(id: i64, path: Seq<char>, event: DecodeEvent) -> Gained {
    match event {
        DecodeEvent::NoStat(e) => Gained { error: Some(about(path, e@)), ..nothing_gained(id) },
        DecodeEvent::NotAnImage => nothing_gained(id),
        DecodeEvent::Image { phash, dom_color, width, height, thumb } => Gained {
            id,
            phash: Some(phash),
            dom_color: Some(dom_color),
            dims: Some((width, height)),
            thumb_written: thumb is Written,
            error: match thumb {
                ThumbEvent::Failed(e) => Some(path + ": thumbnail: "@ + e@),
                _ => None,
            },
        },
    }
}

fn line(path: &str, middle: &str, what: &str) -> (r: String)
    ensures
        r@ == path@ + middle@ + what@,
{
    let mut out: String = String::new();
    push_text(&mut out, path);
    push_text(&mut out, middle);
    push_text(&mut out, what);
    assert(out@ =~= path@ + middle@ + what@);
    out
}

/// What one decode gives.
pub fn decode_one(id: i64, path: &str, event: &DecodeEvent) -> (r: Decoded)
    ensures
        r@ == gained(id, path@, *event),
{
    match event {
        DecodeEvent::NoStat(e) => Decoded {
            id,
            phash: None,
            dom_color: None,
            dims: None,
            thumb_written: false,
            error: Some(line(path, ": ", e.as_str())),
        },
        DecodeEvent::NotAnImage => Decoded {
            id,
            phash: None,
            dom_color: None,
            dims: None,
            thumb_written: false,
            error: None,
        },
        DecodeEvent::Image { phash, dom_color, width, height, thumb } => {
            let (thumb_written, error): (bool, Option<String>) = match thumb {
                ThumbEvent::Cached => (false, None),
                ThumbEvent::Written => (true, None),
                ThumbEvent::Failed(e) => (false, Some(line(path, ": thumbnail: ", e.as_str()))),
            };
            Decoded {
                id,
                phash: Some(*phash),
                dom_color: Some(*dom_color),
                dims: Some((*width, *height)),
                thumb_written,
                error,
            }
        },
    }
}

/// The state once what one decode gave is taken in.
pub open spec fn after_decode(out: Summary, t: catalog::Tables, d: Gained) -> (
    Summary,
    catalog::Tables,
) {
    let analysed = catalog::with_row(
        t.media,
        d.id,
        catalog::with_analysis(d.phash, d.dom_color),
    );
    (
        Summary {
            errors: match d.error {
                Some(e) => out.errors.push(e),
                None => out.errors,
            },
            thumbs: if d.thumb_written {
                out.thumbs + 1
            } else {
                out.thumbs
            },
            phashed: if d.phash is Some {
                out.phashed + 1
            } else {
                out.phashed
            },
            ..out
        },
        catalog::Tables {
            media: match d.dims {
                Some((w, h)) => catalog::with_row(analysed, d.id, catalog::with_dimensions(w, h)),
                None => analysed,
            },
            ..t
        },
    )
}

/// The state after the first `n` decodes.
pub open spec fn decoded_upto(
    out: Summary,
    t: catalog::Tables,
    results: Seq<Decoded>,
    n: int,
) -> (Summary, catalog::Tables)
    decreases n,
{
    if n <= 0 {
        (out, t)
    } else {
        let (o, u) = decoded_upto(out, t, results, n - 1);
        after_decode(o, u, results[n - 1]@)
    }
}

/// Takes in what one decode gave.
pub fn decode_step(cat: &mut Catalog, out: &mut IndexOutcome, done: &Decoded)
    requires
        old(cat).wf(),
        old(out).thumbs < usize::MAX,
        old(out).phashed < usize::MAX,
    ensures
        final(cat).wf(),
        (final(out)@, final(cat)@) == after_decode(old(out)@, old(cat)@, done@),
{
    let ghost before = out@;
    let ghost tables = cat@;
    let ghost errors = out.errors@;
    if let Some(e) = &done.error {
        out.errors.push(e.clone());
        assert(engine::views(out.errors@) =~= engine::views(errors).push(e@));
    }
    if done.thumb_written {
        out.thumbs += 1;
    }
    if done.phash.is_some() {
        out.phashed += 1;
    }
    cat.set_analysis(done.id, done.phash, done.dom_color);
    if let Some((w, h)) = done.dims {
        cat.set_dimensions(done.id, w, h);
    }
    assert((out@, cat@) == after_decode(before, tables, done@));
}

/// Takes in what all decodes gave.
pub fn run_decode_pass(cat: &mut Catalog, out: &mut IndexOutcome, results: &[Decoded])
    requires
        old(cat).wf(),
        old(out).thumbs + results@.len() <= usize::MAX,
        old(out).phashed + results@.len() <= usize::MAX,
    ensures
        final(cat).wf(),
        (final(out)@, final(cat)@) == decoded_upto(
            old(out)@,
            old(cat)@,
            results@,
            results@.len() as int,
        ),
{
    let ghost start = out@;
    let ghost tables = cat@;
    let ghost thumbs = out.thumbs;
    let ghost phashed = out.phashed;
    let mut i: usize = 0;
    while i < results.len()
        invariant
            start == old(out)@,
            tables == old(cat)@,
            thumbs + results@.len() <= usize::MAX,
            phashed + results@.len() <= usize::MAX,
            cat.wf(),
            i <= results@.len(),
            out.thumbs <= thumbs + i,
            out.phashed <= phashed + i,
            (out@, cat@) == decoded_upto(start, tables, results@, i as int),
        decreases results@.len() - i,
    {
        decode_step(cat, out, &results[i]);
        i += 1;
    }
}

/// The outcome with the catalog's totals for the root, where they can be had.
pub open spec fn with_stats(out: Summary, t: catalog::Tables, root: Seq<char>, s: Summary) -> bool {
    let rows = catalog::selected(t.media, catalog::present_at(root));
    if catalog::bytes_of(rows) > i64::MAX {
        s == out
    } else {
        s == (Summary { stats: s.stats, ..out }) && catalog::stats_of(rows) == (
            s.stats.files as nat,
            s.stats.hashed as nat,
            s.stats.phashed as nat,
            s.stats.bytes as nat,
        )
    }
}

/// Adds the catalog's totals for the root.
pub fn add_stats(cat: &Catalog, out: &mut IndexOutcome, root: &str)
    requires
        cat.wf(),
    ensures
        with_stats(old(out)@, cat@, root@, final(out)@),
{
    if let Ok(stats) = cat.stats_under(root) {
        out.stats = stats;
    }
}

/// What is to be done next in an index run.
#[derive(Debug)]
pub enum IndexStep {
    /// Find out the sizes and modification times of the run's files.
    Stat,
    /// Read the metadata of those of the run's files that have to be examined.
    Examine,
    /// Hash the files of these rows.
    Hash(Vec<(i64, String)>),
    /// Decode the files of these rows.
    Decode(Vec<(i64, String)>),
    Finished,
}

/// What came of a step of an index run.
#[derive(Debug)]
pub enum StepResult {
    /// The files beneath the root.
    Found(Vec<String>),
    /// The size and modification time of each of the run's files, if they can be had.
    Stats(Vec<Option<(u64, i64)>>),
    /// The metadata of each of the run's files that was to be examined.
    Examined(Vec<Option<FileMeta>>),
    Hashed(Vec<HashResult>),
    Decoded(Vec<Decoded>),
}

/// An index run under way.
#[derive(Debug)]
pub struct IndexRun {
    pub cfg: IndexConfig,
    /// The files to be looked at.
    pub files: Vec<String>,
    /// What is to be done about each of them.
    pub looks: Vec<Look>,
    pub out: IndexOutcome,
}

impl IndexRun {
    /// An index run that has not begun.
    pub fn new(cfg: IndexConfig) -> (r: Self)
        ensures
            r.cfg == cfg,
            r.files@.len() == 0,
            r.looks@.len() == 0,
            r.out@ == blank_summary(),
    {
        IndexRun { cfg, files: Vec::new(), looks: Vec::new(), out: IndexOutcome::default() }
    }
}

/// Whether a size is one that the catalog can hold.
pub open spec fn size_fits(stat: Option<(u64, i64)>) -> bool {
    stat matches Some((size, mtime)) ==> size <= i64::MAX
}

/// Whether the size of a file that has to be examined is one that the catalog can hold.
pub open spec fn look_fits(look: Look) -> bool {
    look matches Look::Examine { size, mtime } ==> size <= i64::MAX
}

/// Whether a step's result is one that a run can take in: there is something for every
/// file looked at, and the counts stay within bounds.
pub open spec fn can_take(run: IndexRun, result: StepResult) -> bool {
    match result {
        StepResult::Found(found) => true,
        StepResult::Stats(stats) => {
            &&& stats@.len() == run.files@.len()
            &&& forall|i: int| 0 <= i < stats@.len() ==> size_fits(#[trigger] stats@[i])
        },
        StepResult::Examined(metas) => {
            &&& run.looks@.len() == run.files@.len()
            &&& metas@.len() == run.files@.len()
            &&& forall|i: int| 0 <= i < run.looks@.len() ==> look_fits(#[trigger] run.looks@[i])
            &&& forall|i: int|
                0 <= i < run.looks@.len() ==> is_examined(#[trigger] run.looks@[i], metas@[i])
        },
        StepResult::Hashed(results) => run.out.hashed + results@.len() <= usize::MAX,
        StepResult::Decoded(results) => run.out.thumbs + results@.len() <= usize::MAX
            && run.out.phashed + results@.len() <= usize::MAX,
    }
}

/// The tables once the scans of all files are taken in, and those of files that are
/// gone are marked.
pub open spec fn reconciled(scan: Run, root: Seq<char>) -> catalog::Tables {
    catalog::Tables {
        media: catalog::marked_missing(scan.tables.media, catalog::unseen(root, scan.seen)),
        ..scan.tables
    }
}

/// What becomes of a run and of the catalog when a step's result is taken in, and what
/// is to be done next. Files are looked at first and examined where they are new or have
/// changed, then hashed where a size is shared, then decoded if that is wanted.
pub open spec fn run_goes_on(
    before: IndexRun,
    t: catalog::Tables,
    result: StepResult,
    after: IndexRun,
    u: catalog::Tables,
    next: IndexStep,
) -> bool {
    let root = before.cfg.root@;
    &&& after.cfg == before.cfg
    &&& match result {
        StepResult::Found(found) => {
            let files = engine::sorted_paths(
                engine::without_log(media_among(engine::views(found@), before.cfg.images_only)),
            );
            &&& u == t
            &&& after.out@ == blank_summary()
            &&& engine::views(after.files@) == files
            &&& after.looks@.len() == 0
            &&& next is Stat
        },
        StepResult::Stats(stats) => {
            &&& u == t
            &&& after.out@ == before.out@
            &&& after.files == before.files
            &&& after.looks@ == looks_of(t, root, engine::views(before.files@), stats@)
            &&& next is Examine
        },
        StepResult::Examined(metas) => {
            let scan = scanned_upto(
                t,
                engine::views(before.files@),
                events_of(before.looks@, metas@),
                before.files@.len() as int,
            );
            &&& u == reconciled(scan, root)
            &&& after.files == before.files
            &&& after.looks == before.looks
            &&& after.out@ == (Summary {
                missing: catalog::selected(
                    scan.tables.media,
                    catalog::unseen(root, scan.seen),
                ).len(),
                ..scan.out
            })
            &&& next matches IndexStep::Hash(work) && catalog::pairs_of(work@)
                == catalog::ids_and_paths(
                catalog::listed_rows(u, catalog::needs_hash(u.media)),
            )
        },
        StepResult::Hashed(results) => {
            let (out, v) = hashed_upto(before.out@, t, results@, results@.len() as int);
            &&& u == v
            &&& after.files == before.files
            &&& after.looks == before.looks
            &&& if before.cfg.compute_phash {
                &&& after.out@ == out
                &&& next matches IndexStep::Decode(work) && catalog::pairs_of(work@)
                    == decodable_among(
                    catalog::ids_and_paths(catalog::listed_rows(u, catalog::needs_analysis())),
                )
            } else {
                with_stats(out, u, root, after.out@) && next is Finished
            }
        },
        StepResult::Decoded(results) => {
            let (out, v) = decoded_upto(before.out@, t, results@, results@.len() as int);
            &&& u == v
            &&& after.files == before.files
            &&& after.looks == before.looks
            &&& with_stats(out, u, root, after.out@)
            &&& next is Finished
        },
    }
}

/// Takes in what came of a step of an index run, and says what is to be done next. The
/// expensive work is only asked for where it is needed.
pub fn index_library(cat: &mut Catalog, run: &mut IndexRun, result: StepResult) -> (next: IndexStep)
    requires
        old(cat).wf(),
        can_take(*old(run), result),
    ensures
        final(cat).wf(),
        run_goes_on(*old(run), old(cat)@, result, *final(run), final(cat)@, next),
{
    match result {
        StepResult::Found(found) => {
            run.files = collect_files(found.as_slice(), run.cfg.images_only);
            run.looks = Vec::new();
            run.out = IndexOutcome::default();
            IndexStep::Stat
        },
        StepResult::Stats(stats) => {
            run.looks = files_to_examine(cat, run, stats.as_slice());
            IndexStep::Examine
        },
        StepResult::Examined(metas) => {
            let events: Vec<ScanEvent> = to_events(run.looks.as_slice(), metas);
            assert forall|i: int| 0 <= i < events@.len() implies fits(#[trigger] events@[i]) by {
                assert(look_fits(run.looks@[i]));
            }
            let (out, seen): (IndexOutcome, Vec<i64>) = scan_phase(
                cat,
                run.files.as_slice(),
                events.as_slice(),
            );
            run.out = out;
            reconcile(cat, &mut run.out, run.cfg.root.as_str(), seen.as_slice());
            IndexStep::Hash(cat.rows_needing_content_hash())
        },
        StepResult::Hashed(results) => {
            hash_phase(cat, &mut run.out, results.as_slice());
            if run.cfg.compute_phash {
                IndexStep::Decode(decode_work(cat))
            } else {
                add_stats(cat, &mut run.out, run.cfg.root.as_str());
                IndexStep::Finished
            }
        },
        StepResult::Decoded(results) => {
            run_decode_pass(cat, &mut run.out, results.as_slice());
            add_stats(cat, &mut run.out, run.cfg.root.as_str());
            IndexStep::Finished
        },
    }
}

/// A row's content hash, recorded if it was not known. What the user supplies
/// goes by content hash, so it has to exist by the time something is supplied:
/// `read` is what hashing the file gave, and is used only where no hash is known.
pub fn ensure_content_hash(cat: &mut Catalog, row: &MediaRow, read: &Result<String, String>) -> (r: Result<
    String,
    String,
>)
    requires
        old(cat).wf(),
    ensures
        final(cat).wf(),
        row@.content_hash matches Some(h) ==> r matches Ok(s) && s@ == h && final(cat)@ == old(
            cat,
        )@,
        row@.content_hash is None ==> match *read {
            Ok(hash) => (r matches Ok(s) && s@ == hash@) && final(cat)@ == (catalog::Tables {
                media: catalog::with_row(old(cat)@.media, row.id, catalog::with_hash(hash@)),
                ..old(cat)@
            }),
            Err(e) => (r matches Err(m) && m@ == about(row@.path, e@)) && final(cat)@ == old(cat)@,
        },
{
    if let Some(h) = &row.content_hash {
        return Ok(h.clone());
    }
    match read {
        Ok(hash) => {
            cat.set_content_hash(row.id, hash.as_str());
            Ok(hash.clone())
        },
        Err(e) => Err(line(row.path.as_str(), ": ", e.as_str())),
    }
}

/// A scan in which every file is current changes nothing in the catalog: this is
/// what makes indexing an unchanged library again nearly free.
pub proof fn unchanged_libraries_stay_as_they_are(
    start: catalog::Tables,
    paths: Seq<Seq<char>>,
    events: Seq<ScanEvent>,
    n: int,
)
    requires
        0 <= n,
        forall|i: int| 0 <= i < n ==> (#[trigger] events[i]) is Current,
    ensures
        scanned_upto(start, paths, events, n).tables == start,
        scanned_upto(start, paths, events, n).out == (Summary {
            scanned: n as nat,
            unchanged: n as nat,
            ..blank_summary()
        }),
    decreases n,
{
    if n > 0 {
        unchanged_libraries_stay_as_they_are(start, paths, events, n - 1);
        assert(events[n - 1] is Current);
    }
}

proof fn lemma_seen_are_current(
    start: catalog::Tables,
    paths: Seq<Seq<char>>,
    events: Seq<ScanEvent>,
    n: int,
    i: int,
)
    requires
        0 <= i < n,
        forall|i: int| 0 <= i < n ==> (#[trigger] events[i]) is Current,
    ensures
        scanned_upto(start, paths, events, n).seen.contains(events[i]->id),
    decreases n,
{
    let before = scanned_upto(start, paths, events, n - 1).seen;
    let now = scanned_upto(start, paths, events, n).seen;
    assert(events[n - 1] is Current);
    if i == n - 1 {
        assert(now[before.len() as int] == events[i]->id);
    } else {
        lemma_seen_are_current(start, paths, events, n - 1, i);
        let k = choose|k: int| 0 <= k < before.len() && before[k] == events[i]->id;
        assert(now[k] == events[i]->id);
    }
}

/// Where every file is current, and every row beneath the root is that of one of them,
/// looking at the files changes nothing in the catalog and finds none gone.
pub proof fn indexing_an_unchanged_library_changes_nothing(
    t: catalog::Tables,
    root: Seq<char>,
    paths: Seq<Seq<char>>,
    events: Seq<ScanEvent>,
)
    requires
        forall|i: int| 0 <= i < events.len() ==> (#[trigger] events[i]) is Current,
        forall|k: int|
            0 <= k < t.media.len() && catalog::is_under(root, (#[trigger] t.media[k]).row.path)
                ==> exists|i: int|
                0 <= i < events.len() && (#[trigger] events[i])->id == t.media[k].row.id,
    ensures
        reconciled(scanned_upto(t, paths, events, events.len() as int), root) == t,
        catalog::selected(
            t.media,
            catalog::unseen(root, scanned_upto(t, paths, events, events.len() as int).seen),
        ).len() == 0,
{
    let n = events.len() as int;
    let scan = scanned_upto(t, paths, events, n);
    let gone = catalog::unseen(root, scan.seen);
    unchanged_libraries_stay_as_they_are(t, paths, events, n);
    assert forall|k: int| 0 <= k < t.media.len() implies !gone(#[trigger] t.media[k]) by {
        if catalog::is_under(root, t.media[k].row.path) {
            let i = choose|i: int|
                0 <= i < events.len() && (#[trigger] events[i])->id == t.media[k].row.id;
            lemma_seen_are_current(t, paths, events, n, i);
        }
    }
    assert(catalog::marked_missing(t.media, gone) =~= t.media);
    lemma_none_selected(t.media, gone);
}

proof fn lemma_none_selected(
    media: Seq<catalog::Stored>,
    p: spec_fn(catalog::Stored) -> bool,
)
    requires
        forall|k: int| 0 <= k < media.len() ==> !p(#[trigger] media[k]),
    ensures
        catalog::selected(media, p).len() == 0,
    decreases media.len(),
{
    if media.len() > 0 {
        let rest = media.drop_last();
        assert forall|k: int| 0 <= k < rest.len() implies !p(#[trigger] rest[k]) by {
            assert(rest[k] == media[k]);
        }
        lemma_none_selected(rest, p);
        assert(!p(media[media.len() - 1]));
    }
}

/// Every scanned file is accounted for: it is current, was updated, or there is a
/// message about it.
pub proof fn every_scan_is_accounted_for(
    start: catalog::Tables,
    paths: Seq<Seq<char>>,
    events: Seq<ScanEvent>,
    n: int,
)
    requires
        0 <= n,
    ensures
        ({
            let out = scanned_upto(start, paths, events, n).out;
            &&& out.scanned == n
            &&& out.unchanged + out.updated + out.errors.len() == n
        }),
    decreases n,
{
    if n > 0 {
        every_scan_is_accounted_for(start, paths, events, n - 1);
    }
}

proof fn lemma_scans_leave_user_data_alone(
    start: catalog::Tables,
    paths: Seq<Seq<char>>,
    events: Seq<ScanEvent>,
    n: int,
)
    requires
        0 <= n,
    ensures
        scanned_upto(start, paths, events, n).tables.users == start.users,
        scanned_upto(start, paths, events, n).tables.ledger == start.ledger,
    decreases n,
{
    if n > 0 {
        lemma_scans_leave_user_data_alone(start, paths, events, n - 1);
    }
}

proof fn lemma_hashes_leave_user_data_alone(
    out: Summary,
    t: catalog::Tables,
    results: Seq<HashResult>,
    n: int,
)
    requires
        0 <= n,
    ensures
        hashed_upto(out, t, results, n).1.users == t.users,
        hashed_upto(out, t, results, n).1.ledger == t.ledger,
    decreases n,
{
    if n > 0 {
        lemma_hashes_leave_user_data_alone(out, t, results, n - 1);
    }
}

proof fn lemma_decodes_leave_user_data_alone(
    out: Summary,
    t: catalog::Tables,
    results: Seq<Decoded>,
    n: int,
)
    requires
        0 <= n,
    ensures
        decoded_upto(out, t, results, n).1.users == t.users,
        decoded_upto(out, t, results, n).1.ledger == t.ledger,
    decreases n,
{
    if n > 0 {
        lemma_decodes_leave_user_data_alone(out, t, results, n - 1);
    }
}

/// No step of an index run touches what the user supplied, nor the quarantine ledger.
pub proof fn indexing_leaves_user_data_alone(
    before: IndexRun,
    t: catalog::Tables,
    result: StepResult,
    after: IndexRun,
    u: catalog::Tables,
    next: IndexStep,
)
    requires
        run_goes_on(before, t, result, after, u, next),
    ensures
        u.users == t.users,
        u.ledger == t.ledger,
{
    match result {
        StepResult::Found(found) => {},
        StepResult::Stats(stats) => {},
        StepResult::Examined(metas) => {
            lemma_scans_leave_user_data_alone(
                t,
                engine::views(before.files@),
                events_of(before.looks@, metas@),
                before.files@.len() as int,
            );
        },
        StepResult::Hashed(results) => {
            lemma_hashes_leave_user_data_alone(
                before.out@,
                t,
                results@,
                results@.len() as int,
            );
        },
        StepResult::Decoded(results) => {
            lemma_decodes_leave_user_data_alone(
                before.out@,
                t,
                results@,
                results@.len() as int,
            );
        },
    }
}

/// No image is decoded in a run that is not to analyse images.
pub proof fn images_are_decoded_only_if_wanted(
    before: IndexRun,
    t: catalog::Tables,
    result: StepResult,
    after: IndexRun,
    u: catalog::Tables,
    next: IndexStep,
)
    requires
        run_goes_on(before, t, result, after, u, next),
        !before.cfg.compute_phash,
    ensures
        !(next is Decode),
{
}

/// A row of an older metadata version is not current, whatever its file's size
/// and modification time, so that a new field reaches files indexed before.
pub proof fn older_versions_are_examined_again(stamp: Stamp, size: u64, mtime: i64)
    requires
        stamp.meta_version < META_VERSION,
    ensures
        !is_current(stamp, size, mtime),
{
}

/// A file is taken in if all are, or if its extension, whatever the case, is one of those
/// that pictures have; nothing else is, and the order stays.
pub proof fn pictures_are_told_by_extension(paths: Seq<Seq<char>>)
    ensures
        media_among(paths, false) == paths,
        media_among(paths, true) == paths.filter(
            |p: Seq<char>|
                {
                    let ext = text::lowercase(
                        match pathname::extension(p) {
                            Some(e) => e,
                            None => Seq::empty(),
                        },
                    );
                    ext == "jpg"@ || ext == "jpeg"@ || ext == "tif"@ || ext == "tiff"@ || ext
                        == "heic"@ || ext == "heif"@ || ext == "png"@ || ext == "webp"@ || ext
                        == "dng"@ || ext == "cr2"@ || ext == "nef"@ || ext == "arw"@ || ext
                        == "raf"@ || ext == "rw2"@ || ext == "orf"@
                },
        ),
    decreases paths.len(),
{
    reveal(Seq::filter);
    if paths.len() > 0 {
        pictures_are_told_by_extension(paths.drop_last());
        lemma_picture_extension(text::lowercase(ext_or_empty(paths.last())));
        assert(paths =~= paths.drop_last().push(paths.last()));
    }
}

proof fn lemma_picture_extension(ext: Seq<char>)
    ensures
        text::listed(metadata::IMAGE_EXTS@, ext) <==> (ext == "jpg"@ || ext == "jpeg"@ || ext
            == "tif"@ || ext == "tiff"@ || ext == "heic"@ || ext == "heif"@ || ext == "png"@ || ext
            == "webp"@ || ext == "dng"@ || ext == "cr2"@ || ext == "nef"@ || ext == "arw"@ || ext
            == "raf"@ || ext == "rw2"@ || ext == "orf"@),
{
    let l = metadata::IMAGE_EXTS@;
    assert(l[0] == "jpg" && l[1] == "jpeg" && l[2] == "tif" && l[3] == "tiff" && l[4] == "heic"
        && l[5] == "heif" && l[6] == "png" && l[7] == "webp" && l[8] == "dng" && l[9] == "cr2"
        && l[10] == "nef" && l[11] == "arw" && l[12] == "raf" && l[13] == "rw2" && l[14] == "orf");
    if text::listed(l, ext) {
        let j = choose|j: int| 0 <= j < l.len() && (#[trigger] l[j])@ == ext;
        assert(j == 0 || j == 1 || j == 2 || j == 3 || j == 4 || j == 5 || j == 6 || j == 7 || j
            == 8 || j == 9 || j == 10 || j == 11 || j == 12 || j == 13 || j == 14);
    }
}

proof fn lemma_decodable_extension(ext: Seq<char>)
    ensures
        text::listed(DECODABLE_EXTS@, ext) <==> (ext == "jpg"@ || ext == "jpeg"@ || ext == "png"@
            || ext == "gif"@ || ext == "bmp"@ || ext == "tif"@ || ext == "tiff"@ || ext == "webp"@),
{
    let l = DECODABLE_EXTS@;
    assert(l[0] == "jpg" && l[1] == "jpeg" && l[2] == "png" && l[3] == "gif" && l[4] == "bmp"
        && l[5] == "tif" && l[6] == "tiff" && l[7] == "webp");
    if text::listed(l, ext) {
        let j = choose|j: int| 0 <= j < l.len() && (#[trigger] l[j])@ == ext;
        assert(j == 0 || j == 1 || j == 2 || j == 3 || j == 4 || j == 5 || j == 6 || j == 7);
    }
}

/// Of the files to be analysed those are decoded whose extension, whatever the case, is
/// one that can be; the order stays.
pub proof fn decodable_files_are_told_by_extension(work: Seq<(i64, Seq<char>)>)
    ensures
        decodable_among(work) == work.filter(
            |w: (i64, Seq<char>)|
                {
                    let ext = text::lowercase(
                        match pathname::extension(w.1) {
                            Some(e) => e,
                            None => Seq::empty(),
                        },
                    );
                    ext == "jpg"@ || ext == "jpeg"@ || ext == "png"@ || ext == "gif"@ || ext
                        == "bmp"@ || ext == "tif"@ || ext == "tiff"@ || ext == "webp"@
                },
        ),
    decreases work.len(),
{
    reveal(Seq::filter);
    if work.len() > 0 {
        decodable_files_are_told_by_extension(work.drop_last());
        lemma_decodable_extension(text::lowercase(ext_or_empty(work.last().1)));
    }
}

/// The row of a file holds its path and name, its size and time, and what its metadata
/// says: dimensions where they are numbers, the date as its moment, and the rest as it is.
/// Nothing is computed yet, and it has no marks.
pub proof fn rows_hold_what_was_read(path: Seq<char>, m: metadata::Meta, size: u64, mtime: i64)
    ensures
        ({
            let row = row_of(path, m, size, mtime);
            &&& row.path == path && row.size == size && row.mtime == mtime && row.ext == m.ext
            &&& pathname::file_name(path) matches Some(name) ==> row.file_name == name
            &&& pathname::file_name(path) is None ==> row.file_name.len() == 0
            &&& m.date_taken matches Some(d) ==> row.date_taken == Some(d.secs)
            &&& m.date_taken is None ==> row.date_taken is None
            &&& row.camera_make == m.camera_make && row.camera_model == m.camera_model
            &&& row.lens == m.lens && row.iso == m.iso && row.lat == m.lat && row.lon == m.lon
            &&& row.width == number_in(m.width) && row.height == number_in(m.height)
            &&& row.content_hash is None && row.phash is None && row.dom_color is None
            &&& !row.missing && !row.hidden && row.rating == 0 && row.kind_override is None
        }),
{
}

/// A dimension is the number that is written, if it is one that fits.
pub proof fn dimensions_are_read_from_decimals(n: nat, s: Seq<char>)
    ensures
        number_in(None) is None,
        n <= u32::MAX ==> number_in(Some(text::decimal(n))) == Some(n as u32),
        n > u32::MAX ==> number_in(Some(text::decimal(n))) is None,
        number_in(Some(s)) is Some ==> s.len() > 0 && forall|i: int|
            0 <= i < s.len() ==> '0' <= #[trigger] s[i] <= '9' || (i == 0 && s[i] == '+'),
{
    text::numbers_are_read_from_their_decimals(n, u32::MAX as nat, s);
}

/// A file is passed over exactly if a row beneath the folder has its path, its size and its
/// time, and was read by this version; if it is there otherwise, it is examined.
pub proof fn unchanged_files_are_passed_over(
    t: catalog::Tables,
    root: Seq<char>,
    k: int,
    size: u64,
    mtime: i64,
)
    requires
        catalog::media_ok(t.media),
        0 <= k < t.media.len(),
    ensures
        ({
            let s = t.media[k];
            let look = look_of(t, root, s.row.path, Some((size, mtime)));
            if catalog::is_under(root, s.row.path) && s.row.size == size && s.row.mtime == mtime
                && s.meta_version == 2 {
                look == Look::Current { id: s.row.id }
            } else {
                look == Look::Examine { size, mtime }
            }
        }),
        look_of(t, root, t.media[k].row.path, None) == Look::NoStat,
{
    catalog::stamps_tell_what_is_stored(t.media, root, k);
}

/// A file that no row has is examined if it is there.
pub proof fn new_files_are_examined(
    t: catalog::Tables,
    root: Seq<char>,
    path: Seq<char>,
    size: u64,
    mtime: i64,
)
    requires
        forall|i: int| 0 <= i < t.media.len() ==> (#[trigger] t.media[i]).row.path != path,
    ensures
        look_of(t, root, path, Some((size, mtime))) == (Look::Examine { size, mtime }),
        look_of(t, root, path, None) == Look::NoStat,
{
    catalog::unknown_paths_have_no_stamp(t.media, root, path);
}

/// File by file, a scan counts what it saw and remembers the numbers of the rows it found
/// or made; an examined file is stored, and one that cannot be is told with its path.
pub proof fn scans_go_file_by_file(
    start: catalog::Tables,
    paths: Seq<Seq<char>>,
    events: Seq<ScanEvent>,
    n: int,
)
    requires
        0 < n,
    ensures
        ({
            let a = scanned_upto(start, paths, events, n - 1);
            let b = scanned_upto(start, paths, events, n);
            let path = paths[n - 1];
            let full = catalog::row_at(a.tables.media, path) is None && catalog::max_id(
                a.tables.media,
            ) == i64::MAX;
            &&& b.out.scanned == a.out.scanned + 1
            &&& b.out.hashed == a.out.hashed && b.out.phashed == a.out.phashed
            &&& b.out.thumbs == a.out.thumbs && b.out.missing == a.out.missing
            &&& events[n - 1] is NoStat ==> b.tables == a.tables && b.seen == a.seen
                && b.out.updated == a.out.updated && b.out.unchanged == a.out.unchanged
                && b.out.errors == a.out.errors.push(path + ": cannot stat"@)
            &&& events[n - 1] matches ScanEvent::Current { id } ==> b.tables == a.tables && b.seen
                == a.seen.push(id) && b.out.updated == a.out.updated && b.out.unchanged
                == a.out.unchanged + 1 && b.out.errors == a.out.errors
            &&& events[n - 1] matches ScanEvent::Examined { size, mtime, meta } ==> if full {
                b.tables == a.tables && b.seen == a.seen && b.out.updated == a.out.updated
                    && b.out.unchanged == a.out.unchanged && b.out.errors == a.out.errors.push(
                    path + ": "@ + "no row number left"@,
                )
            } else {
                let row = row_of(path, meta@, size, mtime);
                &&& b.tables.media == catalog::upserted(a.tables.media, row)
                &&& b.seen == a.seen.push(catalog::upserted_id(a.tables.media, row) as i64)
                &&& b.out.updated == a.out.updated + 1
                &&& b.out.unchanged == a.out.unchanged
                &&& b.out.errors == a.out.errors
            }
        }),
        scanned_upto(start, paths, events, 0).tables == start,
        scanned_upto(start, paths, events, 0).seen.len() == 0,
{
}

/// Each hash goes to the row it was computed for; one that could not be is told with the
/// path of its file.
pub proof fn hashes_are_stored_one_by_one(
    out: Summary,
    t: catalog::Tables,
    results: Seq<HashResult>,
    n: int,
)
    requires
        0 < n,
    ensures
        ({
            let (o, a) = hashed_upto(out, t, results, n - 1);
            let (p, b) = hashed_upto(out, t, results, n);
            let h = results[n - 1];
            &&& h.hash matches Ok(hash) ==> p.hashed == o.hashed + 1 && p.errors == o.errors
                && b.media.len() == a.media.len() && forall|i: int|
                0 <= i < a.media.len() ==> (#[trigger] b.media[i]).row == if a.media[i].row.id
                    == h.id {
                    catalog::Row { content_hash: Some(hash@), ..a.media[i].row }
                } else {
                    a.media[i].row
                }
            &&& h.hash matches Err(e) ==> b == a && p.hashed == o.hashed && p.errors
                == o.errors.push(h.path@ + ": "@ + e@)
            &&& p.scanned == o.scanned && p.updated == o.updated && p.unchanged == o.unchanged
            &&& p.phashed == o.phashed && p.thumbs == o.thumbs && p.missing == o.missing
            &&& b.users == a.users && b.ledger == a.ledger
        }),
        hashed_upto(out, t, results, 0) == (out, t),
{
}

/// What decoding a picture gives goes to its row: the perceptual hash and the colour, and
/// the dimensions if they are known; and what went wrong is told.
pub proof fn analyses_are_stored_one_by_one(
    out: Summary,
    t: catalog::Tables,
    results: Seq<Decoded>,
    n: int,
)
    requires
        0 < n,
    ensures
        ({
            let (o, a) = decoded_upto(out, t, results, n - 1);
            let (p, b) = decoded_upto(out, t, results, n);
            let d = results[n - 1]@;
            &&& b.media.len() == a.media.len()
            &&& forall|i: int|
                0 <= i < a.media.len() ==> (#[trigger] b.media[i]).row == if a.media[i].row.id
                    == d.id {
                    catalog::Row {
                        phash: d.phash,
                        dom_color: d.dom_color,
                        width: if d.dims is Some {
                            Some((d.dims->0).0)
                        } else {
                            a.media[i].row.width
                        },
                        height: if d.dims is Some {
                            Some((d.dims->0).1)
                        } else {
                            a.media[i].row.height
                        },
                        ..a.media[i].row
                    }
                } else {
                    a.media[i].row
                }
            &&& p.phashed == o.phashed + if d.phash is Some {
                1nat
            } else {
                0nat
            }
            &&& p.thumbs == o.thumbs + if d.thumb_written {
                1nat
            } else {
                0nat
            }
            &&& p.errors == match d.error {
                Some(e) => o.errors.push(e),
                None => o.errors,
            }
            &&& p.scanned == o.scanned && p.updated == o.updated && p.unchanged == o.unchanged
            &&& p.hashed == o.hashed && p.missing == o.missing
            &&& b.users == a.users && b.ledger == a.ledger
        }),
        decoded_upto(out, t, results, 0) == (out, t),
{
}

/// What is gained from a file: from a picture its hash, colour and dimensions, whatever
/// comes of its thumbnail; from anything else nothing; and what went wrong is told with
/// the path.
pub proof fn pictures_give_hash_colour_and_dimensions(
    id: i64,
    path: Seq<char>,
    event: DecodeEvent,
)
    ensures
        gained(id, path, event).id == id,
        event matches DecodeEvent::Image { phash, dom_color, width, height, thumb } ==> {
            let d = gained(id, path, event);
            &&& d.phash == Some(phash) && d.dom_color == Some(dom_color)
            &&& d.dims == Some((width, height))
            &&& d.thumb_written <==> thumb is Written
            &&& thumb matches ThumbEvent::Failed(e) ==> d.error == Some(path + ": thumbnail: "@ + e@)
            &&& !(thumb is Failed) ==> d.error is None
        },
        !(event is Image) ==> {
            let d = gained(id, path, event);
            d.phash is None && d.dom_color is None && d.dims is None && !d.thumb_written
        },
        event matches DecodeEvent::NoStat(e) ==> gained(id, path, event).error == Some(
            path + ": "@ + e@,
        ),
        event is NotAnImage ==> gained(id, path, event).error is None,
{
}

/// The line about a run tells how many files were scanned, updated and unchanged, and of
/// the rest what there is to tell.
pub proof fn runs_are_told_in_one_line(s: Summary)
    ensures
        text::begins_with(
            summary_line(s),
            text::decimal(s.scanned) + " file(s): "@ + text::decimal(s.updated) + " updated, "@
                + text::decimal(s.unchanged) + " unchanged"@,
        ),
        s.hashed == 0 && s.phashed == 0 && s.thumbs == 0 && s.missing == 0 && s.errors.len() == 0
            ==> summary_line(s) == text::decimal(s.scanned) + " file(s): "@ + text::decimal(
            s.updated,
        ) + " updated, "@ + text::decimal(s.unchanged) + " unchanged"@,
{
    let front = text::decimal(s.scanned) + " file(s): "@ + text::decimal(s.updated) + " updated, "@
        + text::decimal(s.unchanged) + " unchanged"@;
    let tail = mention(s.hashed, " hashed"@) + (mention(s.phashed, " analysed"@) + (mention(
        s.thumbs,
        " thumbnails"@,
    ) + (mention(s.missing, " missing"@) + mention(s.errors.len(), " error(s)"@))));
    assert(summary_line(s) =~= front + tail);
    assert((front + tail).take(front.len() as int) =~= front);
    if s.hashed == 0 && s.phashed == 0 && s.thumbs == 0 && s.missing == 0 && s.errors.len() == 0 {
        assert(front + tail =~= front);
    }
}

/// The statistics of a run are those of the files that are there beneath its folder: how
/// many, how many with each hash, and what they take up.
pub proof fn runs_end_with_the_statistics(
    out: Summary,
    t: catalog::Tables,
    root: Seq<char>,
    s: Summary,
)
    requires
        with_stats(out, t, root, s),
        t.media.filter(
            |s: catalog::Stored| !s.row.missing && catalog::is_under(root, s.row.path),
        ).fold_left(0, |n: int, s: catalog::Stored| n + s.row.size) <= i64::MAX,
    ensures
        ({
            let there = t.media.filter(
                |s: catalog::Stored| !s.row.missing && catalog::is_under(root, s.row.path),
            );
            &&& s.stats.files == there.len()
            &&& s.stats.hashed == there.filter(
                |s: catalog::Stored| s.row.content_hash is Some,
            ).len()
            &&& s.stats.phashed == there.filter(|s: catalog::Stored| s.row.phash is Some).len()
            &&& s.stats.bytes == there.fold_left(0, |n: int, s: catalog::Stored| n + s.row.size)
            &&& s.errors == out.errors && s.scanned == out.scanned && s.updated == out.updated
            &&& s.unchanged == out.unchanged && s.hashed == out.hashed && s.phashed == out.phashed
            &&& s.thumbs == out.thumbs && s.missing == out.missing
        }),
{
    catalog::statistics_count_present_files(t, root);
}

/// A run looks at every file found that is of the sort wanted and is not the undo log, by
/// path, and at no other.
pub proof fn runs_look_at_what_was_found(
    before: IndexRun,
    t: catalog::Tables,
    found: Vec<String>,
    after: IndexRun,
    u: catalog::Tables,
    next: IndexStep,
    path: Seq<char>,
)
    requires
        run_goes_on(before, t, StepResult::Found(found), after, u, next),
    ensures
        u == t,
        next is Stat,
        engine::views(after.files@).contains(path) <==> engine::views(found@).contains(path)
            && is_media(path, before.cfg.images_only) && pathname::file_name(path) != Some(
            ".renamer_undo.log"@,
        ),
        after.out@.scanned == 0 && after.out@.errors.len() == 0,
{
    let all = engine::views(found@);
    let wanted = media_among(all, before.cfg.images_only);
    let kept = engine::without_log(wanted);
    let files = engine::sorted_paths(kept);
    lemma_media_among(all, before.cfg.images_only, path);
    engine::only_the_undo_log_is_left_out(wanted);
    let p = |p: Seq<char>| pathname::file_name(p) != Some(".renamer_undo.log"@);
    assert(kept == wanted.filter(p));
    lemma_filter_contains(wanted, p, path);
    lemma_sorted_contains(kept, path);
}

proof fn lemma_filter_contains(s: Seq<Seq<char>>, p: spec_fn(Seq<char>) -> bool, x: Seq<char>)
    ensures
        s.filter(p).contains(x) <==> s.contains(x) && p(x),
    decreases s.len(),
{
    reveal(Seq::filter);
    if s.len() > 0 {
        let rest = s.drop_last();
        lemma_filter_contains(rest, p, x);
        assert(s.contains(x) <==> rest.contains(x) || s.last() == x) by {
            if s.contains(x) {
                let i = choose|i: int| 0 <= i < s.len() && s[i] == x;
                if i < rest.len() {
                    assert(rest[i] == x);
                }
            }
            if rest.contains(x) {
                let i = choose|i: int| 0 <= i < rest.len() && rest[i] == x;
                assert(s[i] == x);
            }
            if s.last() == x {
                assert(s[s.len() - 1] == x);
            }
        }
        let f = rest.filter(p);
        if p(s.last()) {
            let g = f.push(s.last());
            assert(s.filter(p) == g);
            if g.contains(x) {
                let i = choose|i: int| 0 <= i < g.len() && g[i] == x;
                if i < f.len() {
                    assert(f[i] == x);
                }
            }
            if f.contains(x) {
                let i = choose|i: int| 0 <= i < f.len() && f[i] == x;
                assert(g[i] == x);
            }
            assert(g[f.len() as int] == s.last());
        } else {
            assert(s.filter(p) == f);
        }
    } else {
        assert(s.filter(p).len() == 0);
    }
}

proof fn lemma_media_among(paths: Seq<Seq<char>>, images_only: bool, x: Seq<char>)
    ensures
        media_among(paths, images_only).contains(x) <==> paths.contains(x) && is_media(
            x,
            images_only,
        ),
    decreases paths.len(),
{
    lemma_media_is_filter(paths, images_only);
    lemma_filter_contains(paths, |p: Seq<char>| is_media(p, images_only), x);
}

proof fn lemma_media_is_filter(paths: Seq<Seq<char>>, images_only: bool)
    ensures
        media_among(paths, images_only) == paths.filter(|p: Seq<char>| is_media(p, images_only)),
    decreases paths.len(),
{
    reveal(Seq::filter);
    if paths.len() > 0 {
        lemma_media_is_filter(paths.drop_last(), images_only);
    }
}

proof fn lemma_sorted_contains(paths: Seq<Seq<char>>, x: Seq<char>)
    ensures
        engine::sorted_paths(paths).contains(x) <==> paths.contains(x),
{
    let keys = paths.map_values(|p: Seq<char>| engine::path_key(p));
    order::rearranging_keeps_every_item(paths, keys);
    order::stable_order_is_in_order(keys);
    assert(order::rearranged(paths, keys) =~= engine::sorted_paths(paths));
    vstd::seq_lib::to_multiset_contains(paths, x);
    vstd::seq_lib::to_multiset_contains(engine::sorted_paths(paths), x);
}

/// After the scan every row that needs a content hash is to be hashed: those of files that
/// are there, have none, and share their size with another that is.
pub proof fn runs_hash_every_row_that_needs_it(
    before: IndexRun,
    t: catalog::Tables,
    metas: Vec<Option<FileMeta>>,
    after: IndexRun,
    u: catalog::Tables,
    next: IndexStep,
    i: int,
    j: int,
)
    requires
        run_goes_on(before, t, StepResult::Examined(metas), after, u, next),
        0 <= i < u.media.len(),
        0 <= j < u.media.len(),
        i != j,
        !u.media[i].row.missing && !u.media[j].row.missing,
        u.media[i].row.content_hash is None,
        u.media[i].row.size == u.media[j].row.size,
    ensures
        next matches IndexStep::Hash(work) && catalog::pairs_of(work@).contains(
            (u.media[i].row.id, u.media[i].row.path),
        ),
{
    catalog::work_left_is_found(u.media, i, j);
    let p = catalog::needs_hash(u.media);
    catalog::lemma_listed(u, p);
    let rows = catalog::listed_rows(u, p);
    let row = catalog::joined_row(u.users, u.media[i].row);
    assert(rows.contains(row));
    let k = choose|k: int| 0 <= k < rows.len() && rows[k] == row;
    assert(catalog::ids_and_paths(rows)[k] == (u.media[i].row.id, u.media[i].row.path));
}

/// After hashing, if pictures are to be analysed, every row of a file that can be decoded
/// and lacks its perceptual hash or its colour is.
pub proof fn runs_decode_every_row_that_needs_it(
    before: IndexRun,
    t: catalog::Tables,
    results: Vec<HashResult>,
    after: IndexRun,
    u: catalog::Tables,
    next: IndexStep,
    i: int,
)
    requires
        run_goes_on(before, t, StepResult::Hashed(results), after, u, next),
        before.cfg.compute_phash,
        0 <= i < u.media.len(),
        !u.media[i].row.missing,
        u.media[i].row.phash is None || u.media[i].row.dom_color is None,
        text::listed(DECODABLE_EXTS@, text::lowercase(ext_or_empty(u.media[i].row.path))),
    ensures
        next matches IndexStep::Decode(work) && catalog::pairs_of(work@).contains(
            (u.media[i].row.id, u.media[i].row.path),
        ),
{
    catalog::work_left_is_found(u.media, i, i);
    let p = catalog::needs_analysis();
    catalog::lemma_listed(u, p);
    let rows = catalog::listed_rows(u, p);
    let row = catalog::joined_row(u.users, u.media[i].row);
    assert(rows.contains(row));
    let k = choose|k: int| 0 <= k < rows.len() && rows[k] == row;
    let work = catalog::ids_and_paths(rows);
    assert(work[k] == (u.media[i].row.id, u.media[i].row.path));
    lemma_decodable_contains(work, k);
}

proof fn lemma_decodable_contains(work: Seq<(i64, Seq<char>)>, k: int)
    requires
        0 <= k < work.len(),
        text::listed(DECODABLE_EXTS@, text::lowercase(ext_or_empty(work[k].1))),
    ensures
        decodable_among(work).contains(work[k]),
    decreases work.len(),
{
    let rest = work.drop_last();
    let before = decodable_among(rest);
    let now = decodable_among(work);
    if k < rest.len() {
        lemma_decodable_contains(rest, k);
        let m = choose|m: int| 0 <= m < before.len() && before[m] == rest[k];
        assert(now[m] == work[k]);
    } else {
        assert(now[before.len() as int] == work[k]);
    }
}

/// An analysis tells of a picture its dimensions, its difference hash, pixel pair by pixel
/// pair of nine by eight grey levels, and its dominant colour among 64 by 64 pixels; and it
/// renders a thumbnail unless there is one.
pub proof fn analyses_tell_hash_colour_and_dimensions(
    a: Analysis,
    img: image::DynamicImage,
    cached: bool,
    row: int,
    col: int,
)
    requires
        is_analysis(a, img, cached),
        hashing::grey_levels(img, 9, 8).len() == 72,
        0 <= row < 8,
        0 <= col < 8,
    ensures
        a.width == picture::image_width(img) && a.height == picture::image_height(img),
        ({
            let grid = hashing::grey_levels(img, 9, 8);
            (a.phash >> ((8 * row + col) as u64)) & 1 == 1 <==> grid[9 * row + col] > grid[9 * row
                + col + 1]
        }),
        ({
            let d = colour::dominant_of(colour::pixels_of(colour::colour_levels(img, 64, 64)));
            a.dom_color == d.0 * 0x10000 + d.1 * 0x100 + d.2
        }),
        cached <==> a.thumb is None,
{
    hashing::hash_bits_are_falls_in_lightness(
        a.phash,
        hashing::grey_levels(img, 9, 8),
        row,
        col,
    );
}

/// Each file is looked at by itself, and what comes of it is what the look asked for: a
/// file passed over keeps its number, and one examined has the size and time it was looked
/// at with.
pub proof fn files_are_looked_at_one_by_one(
    t: catalog::Tables,
    root: Seq<char>,
    paths: Seq<Seq<char>>,
    stats: Seq<Option<(u64, i64)>>,
    metas: Seq<Option<FileMeta>>,
    i: int,
)
    requires
        0 <= i < paths.len(),
    ensures
        looks_of(t, root, paths, stats).len() == paths.len(),
        looks_of(t, root, paths, stats)[i] == look_of(t, root, paths[i], stats[i]),
        ({
            let looks = looks_of(t, root, paths, stats);
            let event = events_of(looks, metas)[i];
            &&& events_of(looks, metas).len() == paths.len()
            &&& looks[i] is NoStat <==> event is NoStat
            &&& looks[i] matches Look::Current { id } ==> event == ScanEvent::Current { id }
            &&& looks[i] matches Look::Examine { size, mtime } ==> event == ScanEvent::Examined {
                size,
                mtime,
                meta: metas[i]->0,
            }
        }),
{
}

/// What there is nothing of is not mentioned, and what there is, is with its number. A
/// failure is told with what it is about in front.
pub proof fn only_what_there_is_is_mentioned(n: nat, what: Seq<char>, why: Seq<char>)
    ensures
        n == 0 ==> mention(n, what).len() == 0,
        n > 0 ==> mention(n, what) == ", "@ + (text::decimal(n) + what),
        about(what, why) == what + (": "@ + why),
{
    assert(", "@ + text::decimal(n) + what =~= ", "@ + (text::decimal(n) + what));
    assert(what + ": "@ + why =~= what + (": "@ + why));
}

} // verus!
