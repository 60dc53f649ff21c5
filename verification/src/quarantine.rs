//! Quarantine: reversible removal of duplicate files.
//!
//! Nothing here deletes a photo. Removing a duplicate moves it into a quarantine
//! folder and records the move in the catalog's ledger, so that every file can be
//! put back where it came from. The quarantine mirrors the original folders under
//! one folder for each batch, so that a file is identifiable by eye.
use vstd::prelude::*;

use crate::catalog;
use crate::catalog::{Catalog, CatalogError, QuarantineEntry};
use crate::engine;
use crate::order;
use crate::order::{sorted_order, SortKey};
use crate::pathname;
use crate::pathname::{components_of, ext_of_name, file_name_of, join, stem_of_name, with_name};
use crate::template;
use crate::template::push_padded;
use crate::text;
use crate::text::{chars_eq, push_decimal, push_text, string_of};

verus! {

/// What came of quarantining a selection.
#[derive(Debug, Clone)]
pub struct QuarantineOutcome {
    /// The batch, for undoing it, if anything was moved.
    pub batch: Option<i64>,
    pub moved: usize,
    /// Bytes moved out of the library.
    pub bytes: u64,
    pub errors: Vec<String>,
}

/// An outcome as mathematical values.
#[verifier::ext_equal]
pub struct Outcome {
    pub batch: Option<i64>,
    pub moved: nat,
    pub bytes: nat,
    pub errors: Seq<Seq<char>>,
}

impl View for QuarantineOutcome {
    type V = Outcome;

    open spec fn view(&self) -> Outcome {
        Outcome {
            batch: self.batch,
            moved: self.moved as nat,
            bytes: self.bytes as nat,
            errors: engine::views(self.errors@),
        }
    }
}

/// Nothing moved.
pub open spec fn nothing() -> Outcome {
    Outcome { batch: None, moved: 0, bytes: 0, errors: Seq::empty() }
}

impl Default for QuarantineOutcome {
    fn default() -> (r: Self)
        ensures
            r@ == nothing(),
    {
        let r: QuarantineOutcome = QuarantineOutcome {
            batch: None,
            moved: 0,
            bytes: 0,
            errors: Vec::new(),
        };
        assert(engine::views(r.errors@) =~= Seq::<Seq<char>>::empty());
        r
    }
}

/// The name of a batch's folder: its number with at least four digits, the sign
/// of a negative one counted.
pub open spec fn batch_name(batch: int) -> Seq<char> {
    "batch-"@ + (if batch < 0 {
        seq!['-'] + template::padded((-batch) as nat, 3)
    } else {
        template::padded(batch as nat, 4)
    })
}

/// The folder of a batch.
pub fn batch_folder(quarantine_dir: &str, batch: i64) -> (r: String)
    ensures
        r@ == pathname::joined(quarantine_dir@, batch_name(batch as int)),
{
    let mut name: String = String::new();
    push_text(&mut name, "batch-");
    if batch < 0 {
        name.push('-');
        let magnitude: u64 = if batch == i64::MIN {
            0x8000_0000_0000_0000
        } else {
            (-batch) as u64
        };
        push_padded(&mut name, magnitude, 3);
    } else {
        push_padded(&mut name, batch as u64, 4);
    }
    assert(name@ =~= batch_name(batch as int));
    join(quarantine_dir, name.as_str())
}

/// The names among some components.
pub open spec fn names_among(components: Seq<Seq<char>>) -> Seq<Seq<char>>
    decreases components.len(),
{
    if components.len() == 0 {
        Seq::empty()
    } else {
        match pathname::name_of(components.last()) {
            Some(name) => names_among(components.drop_last()).push(name),
            None => names_among(components.drop_last()),
        }
    }
}

/// Names with a slash between each two.
pub open spec fn slashed(names: Seq<Seq<char>>) -> Seq<char>
    decreases names.len(),
{
    if names.len() == 0 {
        Seq::empty()
    } else if names.len() == 1 {
        names[0]
    } else {
        slashed(names.drop_last()).push('/') + names.last()
    }
}

/// Where a file goes beneath a batch's folder: its own path, less the root and
/// anything that is not a name.
pub open spec fn mirrored(root: Seq<char>, src: Seq<char>) -> Seq<char> {
    pathname::joined(root, slashed(names_among(pathname::components(src))))
}

/// A name with a number, before its extension.
pub open spec fn numbered_name(name: Seq<char>, n: nat) -> Seq<char> {
    let stem = pathname::stem_of(name).push('-') + text::decimal(n);
    match pathname::ext_of(name) {
        Some(e) => stem.push('.') + e,
        None => stem,
    }
}

/// Where a file goes if what stands at its place, and at those with smaller
/// numbers, is not to be overwritten. What has no name of its own goes by the folder's.
pub open spec fn numbered(root: Seq<char>, src: Seq<char>, n: nat) -> Seq<char> {
    let names = names_among(pathname::components(src));
    if names.len() == 0 {
        let place = pathname::joined(root, Seq::empty());
        pathname::renamed(
            place,
            numbered_name(
                match pathname::file_name(place) {
                    Some(name) => name,
                    None => "file"@,
                },
                n,
            ),
        )
    } else {
        pathname::joined(
            root,
            slashed(names.drop_last().push(numbered_name(names.last(), n))),
        )
    }
}

fn names_of(src: &str) -> (r: Vec<Vec<char>>)
    ensures
        text::texts(r@) == names_among(pathname::components(src@)),
{
    let components: Vec<Vec<char>> = components_of(src);
    let ghost cs = text::texts(components@);
    let mut out: Vec<Vec<char>> = Vec::new();
    let mut i: usize = 0;
    assert(cs.take(0) =~= Seq::<Seq<char>>::empty());
    assert(text::texts(out@) =~= names_among(cs.take(0)));
    while i < components.len()
        invariant
            cs == text::texts(components@),
            i <= components@.len(),
            text::texts(out@) == names_among(cs.take(i as int)),
        decreases components@.len() - i,
    {
        let ghost before = out@;
        let c: &Vec<char> = &components[i];
        proof {
            assert(cs.take(i + 1).drop_last() =~= cs.take(i as int));
            assert(cs.take(i + 1).last() == c@);
        }
        if c.len() > 0 && c[0] == '\u{3}' {
            let mut name: Vec<char> = Vec::new();
            let mut k: usize = 1;
            while k < c.len()
                invariant
                    1 <= k <= c@.len(),
                    name@ == c@.subrange(1, k as int),
                decreases c@.len() - k,
            {
                name.push(c[k]);
                assert(c@.subrange(1, k + 1) =~= c@.subrange(1, k as int).push(c@[k as int]));
                k += 1;
            }
            assert(name@ =~= c@.drop_first());
            let ghost model = name@;
            out.push(name);
            assert(text::texts(out@) =~= text::texts(before).push(model));
        }
        i += 1;
    }
    assert(cs.take(i as int) =~= cs);
    out
}

fn with_slashes(names: &[Vec<char>]) -> (r: String)
    ensures
        r@ == slashed(text::texts(names@)),
{
    let ghost ns = text::texts(names@);
    let mut out: String = String::new();
    let mut i: usize = 0;
    assert(ns.take(0) =~= Seq::<Seq<char>>::empty());
    assert(out@ =~= slashed(ns.take(0)));
    while i < names.len()
        invariant
            ns == text::texts(names@),
            i <= names@.len(),
            out@ == slashed(ns.take(i as int)),
        decreases names@.len() - i,
    {
        proof {
            assert(ns.take(i + 1).drop_last() =~= ns.take(i as int));
            assert(ns.take(i + 1).last() == names@[i as int]@);
        }
        let ghost before = out@;
        if i > 0 {
            out.push('/');
        }
        push_text(&mut out, string_of(names[i].as_slice()).as_str());
        proof {
            if i == 0 {
                assert(out@ =~= ns.take(1)[0]);
            }
        }
        i += 1;
    }
    assert(ns.take(i as int) =~= ns);
    out
}

/// Where a file goes beneath a batch's folder.
pub fn mirror_path(root: &str, src: &str) -> (r: String)
    ensures
        r@ == mirrored(root@, src@),
{
    let names: Vec<Vec<char>> = names_of(src);
    join(root, with_slashes(names.as_slice()).as_str())
}

/// A name with a number, before its extension.
pub fn number_name(name: &str, n: u64) -> (r: String)
    ensures
        r@ == numbered_name(name@, n as nat),
{
    let mut fresh: String = stem_of_name(name);
    fresh.push('-');
    push_decimal(&mut fresh, n);
    if let Some(e) = ext_of_name(name) {
        fresh.push('.');
        push_text(&mut fresh, e.as_str());
    }
    fresh
}

/// Where a file goes, with a number in its name.
pub fn numbered_path(root: &str, src: &str, n: u64) -> (r: String)
    ensures
        r@ == numbered(root@, src@, n as nat),
{
    let mut names: Vec<Vec<char>> = names_of(src);
    let ghost ns = text::texts(names@);
    if names.len() == 0 {
        let none: String = String::new();
        assert(none@ =~= Seq::<char>::empty());
        let place: String = join(root, none.as_str());
        let own: String = match file_name_of(place.as_str()) {
            Some(name) => name,
            None => "file".to_string(),
        };
        return with_name(place.as_str(), number_name(own.as_str(), n).as_str());
    }
    let ghost before = names@;
    let last: Vec<char> = names.pop().unwrap();
    assert(ns.last() == last@);
    let fresh: String = number_name(string_of(last.as_slice()).as_str(), n);
    let chars: Vec<char> = text::chars_of(fresh.as_str());
    assert(chars@ == numbered_name(ns.last(), n as nat));
    names.push(chars);
    assert(text::texts(names@) =~= ns.drop_last().push(numbered_name(ns.last(), n as nat)));
    join(root, with_slashes(names.as_slice()).as_str())
}

/// The first of a file's places that is free: the mirrored one, or else the first
/// numbered one from two on. `taken` says of the mirrored place and then of each
/// numbered one whether something is there; the last is free.
pub open spec fn free_place(root: Seq<char>, src: Seq<char>, taken: nat) -> Seq<char> {
    if taken == 0 {
        mirrored(root, src)
    } else {
        numbered(root, src, taken + 1)
    }
}

/// The place to try after `taken` places were found not to be free.
pub fn next_place(root: &str, src: &str, taken: u64) -> (r: String)
    requires
        taken < u64::MAX,
    ensures
        r@ == free_place(root@, src@, taken as nat),
{
    if taken == 0 {
        mirror_path(root, src)
    } else {
        numbered_path(root, src, taken + 1)
    }
}

/// What came of trying to move one file into quarantine.
#[derive(Debug, Clone)]
pub enum QuarantineEvent {
    /// The file was moved to `dest`.
    Moved { dest: String, size: u64 },
    /// No place for it could be made.
    NoPlace(String),
    /// It could not be moved.
    NotMoved(String),
    /// It was moved, but that could not be recorded, so it was put back.
    NotRecorded(String),
}

/// An outcome once a file's event is taken in.
pub open spec fn after_event(out: Outcome, src: Seq<char>, event: QuarantineEvent) -> Outcome {
    match event {
        QuarantineEvent::Moved { dest, size } => Outcome {
            moved: out.moved + 1,
            bytes: out.bytes + size as nat,
            ..out
        },
        QuarantineEvent::NoPlace(e) => Outcome {
            errors: out.errors.push(src + ": "@ + e@),
            ..out
        },
        QuarantineEvent::NotMoved(e) => Outcome {
            errors: out.errors.push(src + ": "@ + e@),
            ..out
        },
        QuarantineEvent::NotRecorded(e) => Outcome {
            errors: out.errors.push(src + ": ledger write failed: "@ + e@),
            ..out
        },
    }
}

/// The bytes that an event moves.
pub open spec fn event_bytes(event: QuarantineEvent) -> nat {
    match event {
        QuarantineEvent::Moved { dest, size } => size as nat,
        _ => 0,
    }
}

fn error_line(subject: &str, middle: &str, e: &str) -> (r: String)
    ensures
        r@ == subject@ + middle@ + e@,
{
    let mut out: String = String::new();
    push_text(&mut out, subject);
    push_text(&mut out, middle);
    push_text(&mut out, e);
    assert(out@ =~= subject@ + middle@ + e@);
    out
}

/// Takes in what came of one file.
pub fn take_event(out: &mut QuarantineOutcome, src: &str, event: &QuarantineEvent)
    requires
        old(out).moved < usize::MAX,
        old(out).bytes + event_bytes(*event) <= u64::MAX,
    ensures
        final(out)@ == after_event(old(out)@, src@, *event),
{
    let ghost before = out.errors@;
    match event {
        QuarantineEvent::Moved { dest: _, size } => {
            out.moved += 1;
            out.bytes += *size;
        },
        QuarantineEvent::NoPlace(e) => {
            let line: String = error_line(src, ": ", e.as_str());
            let ghost l = line@;
            out.errors.push(line);
            assert(engine::views(out.errors@) =~= engine::views(before).push(l));
        },
        QuarantineEvent::NotMoved(e) => {
            let line: String = error_line(src, ": ", e.as_str());
            let ghost l = line@;
            out.errors.push(line);
            assert(engine::views(out.errors@) =~= engine::views(before).push(l));
        },
        QuarantineEvent::NotRecorded(e) => {
            let line: String = error_line(src, ": ledger write failed: ", e.as_str());
            let ghost l = line@;
            out.errors.push(line);
            assert(engine::views(out.errors@) =~= engine::views(before).push(l));
        },
    }
}

/// The tables once a file's move into quarantine is recorded: the ledger has a
/// line for it, and its media row is gone.
pub open spec fn quarantined(
    t: catalog::Tables,
    batch: i64,
    src: Seq<char>,
    dest: Seq<char>,
) -> catalog::Tables {
    catalog::Tables {
        media: catalog::selected(t.media, |s: catalog::Stored| s.row.path != src),
        users: t.users,
        ledger: t.ledger.push(
            catalog::Line {
                id: (catalog::max_line(t.ledger) + 1) as i64,
                batch,
                original_path: src,
                quarantine_path: dest,
                restored: false,
            },
        ),
    }
}

/// Records a file's move into quarantine. Where that fails nothing is recorded,
/// and the file has to be put back.
pub fn record_moved(cat: &mut Catalog, batch: i64, src: &str, dest: &str) -> (r: Result<
    (),
    CatalogError,
>)
    requires
        old(cat).wf(),
    ensures
        final(cat).wf(),
        r is Err <==> catalog::max_line(old(cat)@.ledger) == i64::MAX,
        r is Err ==> final(cat)@ == old(cat)@,
        r is Ok ==> final(cat)@ == quarantined(old(cat)@, batch, src@, dest@),
{
    match cat.record_quarantine(batch, src, dest) {
        Ok(_) => {
            cat.remove_path(src);
            Ok(())
        },
        Err(e) => Err(e),
    }
}

/// The outcome of a selection, from what came of each of its first `n` files.
pub open spec fn outcome_upto(
    paths: Seq<Seq<char>>,
    events: Seq<QuarantineEvent>,
    n: int,
) -> Outcome
    decreases n,
{
    if n <= 0 {
        nothing()
    } else {
        after_event(outcome_upto(paths, events, n - 1), paths[n - 1], events[n - 1])
    }
}

/// The outcome of quarantining a selection. It has a batch if anything was moved.
pub open spec fn outcome_of(
    paths: Seq<Seq<char>>,
    events: Seq<QuarantineEvent>,
    batch: i64,
) -> Outcome {
    let out = outcome_upto(paths, events, paths.len() as int);
    Outcome {
        batch: if out.moved > 0 {
            Some(batch)
        } else {
            None
        },
        ..out
    }
}

proof fn lemma_outcome_grows(paths: Seq<Seq<char>>, events: Seq<QuarantineEvent>, m: int, n: int)
    requires
        0 <= m <= n,
    ensures
        outcome_upto(paths, events, m).bytes <= outcome_upto(paths, events, n).bytes,
        outcome_upto(paths, events, m).moved <= m,
        outcome_upto(paths, events, m).batch is None,
    decreases n,
{
    if m < n {
        lemma_outcome_grows(paths, events, m, n - 1);
    } else if m > 0 {
        lemma_outcome_grows(paths, events, m - 1, n - 1);
    }
}

/// Sums up the quarantining of a selection from what came of each file.
pub fn quarantine(paths: &[String], events: &[QuarantineEvent], batch: i64) -> (r: QuarantineOutcome)
    requires
        events@.len() == paths@.len(),
        outcome_upto(engine::views(paths@), events@, paths@.len() as int).bytes <= u64::MAX,
    ensures
        r@ == outcome_of(engine::views(paths@), events@, batch),
{
    let ghost ps = engine::views(paths@);
    let n: usize = paths.len();
    let mut out: QuarantineOutcome = QuarantineOutcome::default();
    let mut i: usize = 0;
    while i < n
        invariant
            n == paths@.len(),
            n == events@.len(),
            ps == engine::views(paths@),
            outcome_upto(ps, events@, n as int).bytes <= u64::MAX,
            i <= n,
            out@ == outcome_upto(ps, events@, i as int),
        decreases n - i,
    {
        proof {
            lemma_outcome_grows(ps, events@, i as int, n as int);
            lemma_outcome_grows(ps, events@, i + 1, n as int);
            assert(ps[i as int] == paths@[i as int]@);
        }
        take_event(&mut out, paths[i].as_str(), &events[i]);
        i += 1;
    }
    proof {
        lemma_outcome_grows(ps, events@, n as int, n as int);
    }
    if out.moved > 0 {
        out.batch = Some(batch);
    }
    out
}

/// Every file is accounted for: it was moved, or there is a message why not.
pub proof fn every_file_is_accounted_for(
    paths: Seq<Seq<char>>,
    events: Seq<QuarantineEvent>,
    n: int,
)
    requires
        0 <= n,
    ensures
        outcome_upto(paths, events, n).moved + outcome_upto(paths, events, n).errors.len() == n,
    decreases n,
{
    if n > 0 {
        every_file_is_accounted_for(paths, events, n - 1);
    }
}

/// What came of trying to put one file back.
#[derive(Debug, Clone)]
pub enum RestoreEvent {
    /// The file was put back.
    Restored,
    /// It was put back, but that could not be recorded.
    NotRecorded(String),
    /// Something else is at its place, so it stays in quarantine.
    Occupied,
    /// The folder for it could not be made.
    NoFolder(String),
    /// It could not be moved.
    NotMoved(String),
}

/// What an event says against an entry.
pub open spec fn restore_error(entry: catalog::Held, event: RestoreEvent) -> Option<Seq<char>> {
    match event {
        RestoreEvent::Restored => None,
        RestoreEvent::NotRecorded(e) => Some(entry.original_path + ": ledger: "@ + e@),
        RestoreEvent::Occupied => Some(
            entry.original_path + ": something is already there, left in quarantine"@,
        ),
        RestoreEvent::NoFolder(e) => Some(entry.original_path + ": mkdir: "@ + e@),
        RestoreEvent::NotMoved(e) => Some(entry.quarantine_path + ": "@ + e@),
    }
}

/// Whether the file is back at its place after an event.
pub open spec fn is_back(event: RestoreEvent) -> bool {
    event is Restored || event is NotRecorded
}

/// How many files are back, and what is to be said, after the first `n` events.
pub open spec fn restored_upto(
    entries: Seq<catalog::Held>,
    events: Seq<RestoreEvent>,
    n: int,
) -> (nat, Seq<Seq<char>>)
    decreases n,
{
    if n <= 0 {
        (0, Seq::empty())
    } else {
        let (count, errors) = restored_upto(entries, events, n - 1);
        (
            if is_back(events[n - 1]) {
                count + 1
            } else {
                count
            },
            match restore_error(entries[n - 1], events[n - 1]) {
                Some(e) => errors.push(e),
                None => errors,
            },
        )
    }
}

/// The ledger once the files that are back, and recorded as such, are marked.
pub open spec fn ledger_after(
    ledger: Seq<catalog::Line>,
    entries: Seq<catalog::Held>,
    events: Seq<RestoreEvent>,
    n: int,
) -> Seq<catalog::Line>
    decreases n,
{
    if n <= 0 {
        ledger
    } else {
        let rest = ledger_after(ledger, entries, events, n - 1);
        if events[n - 1] is Restored {
            catalog::restored_lines(rest, entries[n - 1].id)
        } else {
            rest
        }
    }
}

/// Entries as mathematical values.
pub open spec fn held_of(entries: Seq<QuarantineEntry>) -> Seq<catalog::Held> {
    entries.map_values(|e: QuarantineEntry| e@)
}

/// What an event says against an entry.
pub fn restore_message(entry: &QuarantineEntry, event: &RestoreEvent) -> (r: Option<String>)
    ensures
        text::opt_view(r) == restore_error(entry@, *event),
{
    let original: &str = entry.original_path.as_str();
    match event {
        RestoreEvent::Restored => None,
        RestoreEvent::NotRecorded(e) => Some(error_line(original, ": ledger: ", e.as_str())),
        RestoreEvent::Occupied => {
            let mut out: String = String::new();
            push_text(&mut out, original);
            push_text(&mut out, ": something is already there, left in quarantine");
            assert(out@ =~= original@ + ": something is already there, left in quarantine"@);
            Some(out)
        },
        RestoreEvent::NoFolder(e) => Some(error_line(original, ": mkdir: ", e.as_str())),
        RestoreEvent::NotMoved(e) => Some(
            error_line(entry.quarantine_path.as_str(), ": ", e.as_str()),
        ),
    }
}

/// Sums up the restoring of a batch's entries from what came of each, and marks
/// in the ledger those that are back.
pub fn restore_batch(
    cat: &mut Catalog,
    entries: &[QuarantineEntry],
    events: &[RestoreEvent],
) -> (r: (usize, Vec<String>))
    requires
        old(cat).wf(),
        events@.len() == entries@.len(),
    ensures
        final(cat).wf(),
        (r.0 as nat, engine::views(r.1@)) == restored_upto(
            held_of(entries@),
            events@,
            entries@.len() as int,
        ),
        final(cat)@ == (catalog::Tables {
            ledger: ledger_after(
                old(cat)@.ledger,
                held_of(entries@),
                events@,
                entries@.len() as int,
            ),
            ..old(cat)@
        }),
{
    let ghost hs = held_of(entries@);
    let ghost tables = cat@;
    let n: usize = entries.len();
    let mut restored: usize = 0;
    let mut errors: Vec<String> = Vec::new();
    let mut i: usize = 0;
    assert(engine::views(errors@) =~= Seq::<Seq<char>>::empty());
    while i < n
        invariant
            n == entries@.len(),
            n == events@.len(),
            hs == held_of(entries@),
            tables == old(cat)@,
            cat.wf(),
            i <= n,
            restored <= i,
            (restored as nat, engine::views(errors@)) == restored_upto(hs, events@, i as int),
            cat@ == (catalog::Tables {
                ledger: ledger_after(tables.ledger, hs, events@, i as int),
                ..tables
            }),
        decreases n - i,
    {
        let ghost before = errors@;
        let entry: &QuarantineEntry = &entries[i];
        assert(hs[i as int] == entry@);
        if let Some(message) = restore_message(entry, &events[i]) {
            let ghost m = message@;
            errors.push(message);
            assert(engine::views(errors@) =~= engine::views(before).push(m));
        }
        match &events[i] {
            RestoreEvent::Restored => {
                cat.mark_restored(entry.id);
                restored += 1;
            },
            RestoreEvent::NotRecorded(_) => {
                restored += 1;
            },
            _ => {},
        }
        i += 1;
    }
    (restored, errors)
}

/// A file that is not put back stays in quarantine: its line is as it was.
pub proof fn what_is_not_restored_stays(
    ledger: Seq<catalog::Line>,
    entries: Seq<catalog::Held>,
    events: Seq<RestoreEvent>,
    n: int,
    k: int,
)
    requires
        0 <= n,
        0 <= k < ledger.len(),
        forall|i: int|
            0 <= i < n && (#[trigger] events[i]) is Restored ==> entries[i].id != ledger[k].id,
    ensures
        ledger_after(ledger, entries, events, n).len() == ledger.len(),
        ledger_after(ledger, entries, events, n)[k] == ledger[k],
    decreases n,
{
    if n > 0 {
        what_is_not_restored_stays(ledger, entries, events, n - 1, k);
    }
}

/// A file that is put back is no longer in quarantine.
pub proof fn what_is_restored_leaves(
    ledger: Seq<catalog::Line>,
    entries: Seq<catalog::Held>,
    events: Seq<RestoreEvent>,
    n: int,
    i: int,
    k: int,
)
    requires
        0 <= i < n,
        0 <= k < ledger.len(),
        events[i] is Restored,
        entries[i].id == ledger[k].id,
    ensures
        ledger_after(ledger, entries, events, n).len() == ledger.len(),
        ledger_after(ledger, entries, events, n)[k].restored,
        ledger_after(ledger, entries, events, n)[k].id == ledger[k].id,
    decreases n,
{
    lemma_ledger_ids(ledger, entries, events, n - 1, k);
    if i < n - 1 {
        what_is_restored_leaves(ledger, entries, events, n - 1, i, k);
    }
}

proof fn lemma_ledger_ids(
    ledger: Seq<catalog::Line>,
    entries: Seq<catalog::Held>,
    events: Seq<RestoreEvent>,
    n: int,
    k: int,
)
    requires
        0 <= n,
        0 <= k < ledger.len(),
    ensures
        ledger_after(ledger, entries, events, n).len() == ledger.len(),
        ledger_after(ledger, entries, events, n)[k].id == ledger[k].id,
    decreases n,
{
    if n > 0 {
        lemma_ledger_ids(ledger, entries, events, n - 1, k);
    }
}

/// The tables once the first `n` of some moves into a batch are recorded.
pub open spec fn batch_recorded(
    t: catalog::Tables,
    batch: i64,
    moves: Seq<(Seq<char>, Seq<char>)>,
    n: int,
) -> catalog::Tables
    decreases n,
{
    if n <= 0 {
        t
    } else {
        quarantined(
            batch_recorded(t, batch, moves, n - 1),
            batch,
            moves[n - 1].0,
            moves[n - 1].1,
        )
    }
}

/// The ledger line of a batch's move, with the moves numbered from a first number on.
pub open spec fn line_of(
    first: int,
    batch: i64,
    moves: Seq<(Seq<char>, Seq<char>)>,
    i: int,
) -> catalog::Line {
    catalog::Line {
        id: (first + i) as i64,
        batch,
        original_path: moves[i].0,
        quarantine_path: moves[i].1,
        restored: false,
    }
}

proof fn lemma_batch_lines(
    t: catalog::Tables,
    batch: i64,
    moves: Seq<(Seq<char>, Seq<char>)>,
    n: int,
)
    requires
        0 <= n <= moves.len(),
        catalog::max_line(t.ledger) + n <= i64::MAX,
        forall|i: int| 0 <= i < t.ledger.len() ==> (#[trigger] t.ledger[i]).batch != batch,
    ensures
        catalog::max_line(batch_recorded(t, batch, moves, n).ledger) == catalog::max_line(t.ledger)
            + n,
        catalog::selected_lines(
            batch_recorded(t, batch, moves, n).ledger,
            catalog::pending_in(batch),
        ) == Seq::new(
            n as nat,
            |i: int| line_of(catalog::max_line(t.ledger) + 1, batch, moves, i),
        ),
    decreases n,
{
    let first = catalog::max_line(t.ledger) + 1;
    let now = batch_recorded(t, batch, moves, n).ledger;
    let lines = Seq::new(n as nat, |i: int| line_of(first, batch, moves, i));
    if n == 0 {
        lemma_nothing_selected(t.ledger, catalog::pending_in(batch));
        assert(lines =~= Seq::<catalog::Line>::empty());
    } else {
        lemma_batch_lines(t, batch, moves, n - 1);
        let before = batch_recorded(t, batch, moves, n - 1).ledger;
        assert(now.drop_last() =~= before);
        assert(now.last() == line_of(first, batch, moves, n - 1));
        assert(lines =~= Seq::new(
            (n - 1) as nat,
            |i: int| line_of(first, batch, moves, i),
        ).push(line_of(first, batch, moves, n - 1)));
    }
}

/// What was moved into a fresh batch can all be put back: the batch's entries are the
/// moves that were recorded, each with where the file was and where it went, the last
/// one first.
pub proof fn quarantined_files_can_be_put_back(
    t: catalog::Tables,
    batch: i64,
    moves: Seq<(Seq<char>, Seq<char>)>,
)
    requires
        catalog::max_line(t.ledger) + moves.len() <= i64::MAX,
        forall|i: int| 0 <= i < t.ledger.len() ==> (#[trigger] t.ledger[i]).batch != batch,
    ensures
        catalog::newest_first(
            catalog::selected_lines(
                batch_recorded(t, batch, moves, moves.len() as int).ledger,
                catalog::pending_in(batch),
            ),
        ) == Seq::new(
            moves.len(),
            |i: int|
                catalog::held(
                    line_of(
                        catalog::max_line(t.ledger) + 1,
                        batch,
                        moves,
                        moves.len() - 1 - i,
                    ),
                ),
        ),
{
    let n = moves.len() as int;
    let first = catalog::max_line(t.ledger) + 1;
    lemma_batch_lines(t, batch, moves, n);
    catalog::lemma_max_line(t.ledger);
    let lines = Seq::new(n as nat, |i: int| line_of(first, batch, moves, i));
    let keys = lines.map_values(|l: catalog::Line| catalog::newest_key(l));
    let p = Seq::new(n as nat, |i: int| n - 1 - i);
    assert forall|i: int| 0 <= i < n implies #[trigger] p.contains(i) by {
        assert(p[n - 1 - i] == i);
    }
    assert forall|a: int, b: int| 0 <= a < b < p.len() implies order::before(
        keys,
        #[trigger] p[a],
        #[trigger] p[b],
    ) by {
        assert(keys[p[a]].first == -(first + p[a]));
        assert(keys[p[b]].first == -(first + p[b]));
        assert(keys[p[a]].lead =~= keys[p[b]].lead);
    }
    assert(order::in_order(keys, p, 0, n));
    order::stable_order_is_in_order(keys);
    order::lemma_order_unique(keys, p, order::stable_order(keys), 0, n);
    assert(catalog::newest_first(lines) =~= Seq::new(
        moves.len(),
        |i: int| catalog::held(line_of(first, batch, moves, n - 1 - i)),
    ));
}

proof fn lemma_selected_are_there(
    ledger: Seq<catalog::Line>,
    p: spec_fn(catalog::Line) -> bool,
    k: int,
)
    requires
        0 <= k < ledger.len(),
        p(ledger[k]),
    ensures
        catalog::selected_lines(ledger, p).contains(ledger[k]),
    decreases ledger.len(),
{
    let some = catalog::selected_lines(ledger, p);
    let fewer = catalog::selected_lines(ledger.drop_last(), p);
    if k == ledger.len() - 1 {
        assert(some[fewer.len() as int] == ledger[k]);
    } else {
        lemma_selected_are_there(ledger.drop_last(), p, k);
        let j = choose|j: int| 0 <= j < fewer.len() && fewer[j] == ledger[k];
        assert(some[j] == ledger[k]);
    }
}

proof fn lemma_nothing_selected(ledger: Seq<catalog::Line>, p: spec_fn(catalog::Line) -> bool)
    requires
        forall|k: int| 0 <= k < ledger.len() ==> !p(#[trigger] ledger[k]),
    ensures
        catalog::selected_lines(ledger, p).len() == 0,
    decreases ledger.len(),
{
    if ledger.len() > 0 {
        let rest = ledger.drop_last();
        assert forall|k: int| 0 <= k < rest.len() implies !p(#[trigger] rest[k]) by {
            assert(rest[k] == ledger[k]);
        }
        lemma_nothing_selected(rest, p);
        assert(!p(ledger[ledger.len() - 1]));
    }
}

proof fn lemma_same_batches(
    ledger: Seq<catalog::Line>,
    entries: Seq<catalog::Held>,
    events: Seq<RestoreEvent>,
    n: int,
    k: int,
)
    requires
        0 <= n,
        0 <= k < ledger.len(),
    ensures
        ledger_after(ledger, entries, events, n).len() == ledger.len(),
        ledger_after(ledger, entries, events, n)[k].batch == ledger[k].batch,
        ledger[k].restored ==> ledger_after(ledger, entries, events, n)[k].restored,
    decreases n,
{
    if n > 0 {
        lemma_same_batches(ledger, entries, events, n - 1, k);
    }
}

/// Once every entry of a batch is put back, the batch has nothing left to put back.
pub proof fn restoring_a_whole_batch_empties_it(
    ledger: Seq<catalog::Line>,
    batch: i64,
    events: Seq<RestoreEvent>,
)
    requires
        events.len() == catalog::newest_first(
            catalog::selected_lines(ledger, catalog::pending_in(batch)),
        ).len(),
        forall|i: int| 0 <= i < events.len() ==> (#[trigger] events[i]) is Restored,
    ensures
        catalog::selected_lines(
            ledger_after(
                ledger,
                catalog::newest_first(
                    catalog::selected_lines(ledger, catalog::pending_in(batch)),
                ),
                events,
                events.len() as int,
            ),
            catalog::pending_in(batch),
        ).len() == 0,
{
    let lines = catalog::selected_lines(ledger, catalog::pending_in(batch));
    let entries = catalog::newest_first(lines);
    let after = ledger_after(ledger, entries, events, events.len() as int);
    let keys = lines.map_values(|l: catalog::Line| catalog::newest_key(l));
    let sorted = order::stable_order(keys);
    order::stable_order_is_in_order(keys);
    if ledger.len() > 0 {
        lemma_same_batches(ledger, entries, events, events.len() as int, 0);
    } else {
        lemma_no_ledger(entries, events, events.len() as int);
        assert(ledger =~= Seq::<catalog::Line>::empty());
    }
    assert forall|k: int| 0 <= k < after.len() implies !catalog::pending_in(batch)(
        #[trigger] after[k],
    ) by {
        lemma_same_batches(ledger, entries, events, events.len() as int, k);
        if catalog::pending_in(batch)(ledger[k]) {
            lemma_selected_are_there(ledger, catalog::pending_in(batch), k);
            let j = choose|j: int| 0 <= j < lines.len() && lines[j] == ledger[k];
            assert(sorted.contains(j));
            let i = choose|i: int| 0 <= i < sorted.len() && sorted[i] == j;
            assert(entries[i] == catalog::held(lines[j]));
            assert(events[i] is Restored);
            what_is_restored_leaves(ledger, entries, events, events.len() as int, i, k);
        }
    }
    lemma_nothing_selected(after, catalog::pending_in(batch));
}

proof fn lemma_no_ledger(entries: Seq<catalog::Held>, events: Seq<RestoreEvent>, n: int)
    requires
        0 <= n,
    ensures
        ledger_after(Seq::empty(), entries, events, n).len() == 0,
    decreases n,
{
    if n > 0 {
        lemma_no_ledger(entries, events, n - 1);
    }
}

/// Folders with the deepest first.
pub open spec fn deepest_first(dirs: Seq<Seq<char>>) -> Seq<Seq<char>> {
    order::stable_order(dirs.map_values(|d: Seq<char>| depth_key(d))).map_values(|i: int| dirs[i])
}

/// What folders are sorted by: how many components they have, most first.
pub open spec fn depth_key(dir: Seq<char>) -> order::Key {
    order::Key { first: -(pathname::components(dir).len() as int), ..order::no_key() }
}

/// Folders without those that are the same as the one before them.
pub open spec fn without_repeats(dirs: Seq<Seq<char>>) -> Seq<Seq<char>>
    decreases dirs.len(),
{
    if dirs.len() <= 1 {
        dirs
    } else if pathname::components(dirs[dirs.len() - 1]) == pathname::components(
        dirs[dirs.len() - 2],
    ) {
        without_repeats(dirs.drop_last())
    } else {
        without_repeats(dirs.drop_last()).push(dirs.last())
    }
}

fn same_components(a: &[Vec<char>], b: &[Vec<char>]) -> (r: bool)
    ensures
        r == (text::texts(a@) == text::texts(b@)),
{
    if a.len() != b.len() {
        assert(text::texts(a@).len() != text::texts(b@).len());
        return false;
    }
    let mut i: usize = 0;
    while i < a.len()
        invariant
            a@.len() == b@.len(),
            i <= a@.len(),
            forall|k: int| 0 <= k < i ==> (#[trigger] a@[k])@ == b@[k]@,
        decreases a@.len() - i,
    {
        if !chars_eq(a[i].as_slice(), b[i].as_slice()) {
            assert(text::texts(a@)[i as int] != text::texts(b@)[i as int]);
            return false;
        }
        i += 1;
    }
    assert(text::texts(a@) =~= text::texts(b@));
    true
}

/// The folders that restoring may have left empty, in the order to try removing
/// them in: the deepest first, and one after another that is the same only once.
pub fn tidy_order(dirs: &[String]) -> (r: Vec<String>)
    ensures
        engine::views(r@) == without_repeats(deepest_first(engine::views(dirs@))),
{
    let ghost ds = engine::views(dirs@);
    let n: usize = dirs.len();
    let mut keys: Vec<SortKey> = Vec::new();
    let mut i: usize = 0;
    while i < n
        invariant
            n == dirs@.len(),
            ds == engine::views(dirs@),
            i <= n,
            keys@.len() == i,
            forall|k: int| 0 <= k < i ==> (#[trigger] keys@[k])@ == depth_key(ds[k]),
        decreases n - i,
    {
        assert(ds[i as int] == dirs@[i as int]@);
        let components: Vec<Vec<char>> = components_of(dirs[i].as_str());
        let depth: usize = components.len();
        assert(depth == pathname::components(ds[i as int]).len());
        let key: SortKey = SortKey {
            lead: Vec::new(),
            first: -(depth as i128),
            second: 0,
            third: 0,
            fourth: 0,
            words: Vec::new(),
        };
        assert(key@ =~= depth_key(ds[i as int]));
        keys.push(key);
        i += 1;
    }
    let ghost ks = ds.map_values(|d: Seq<char>| depth_key(d));
    assert(order::keys_of(keys@) =~= ks);
    let sorted: Vec<usize> = sorted_order(keys.as_slice());
    let ghost all = deepest_first(ds);
    let mut out: Vec<String> = Vec::new();
    let mut k: usize = 0;
    assert(all.take(0) =~= Seq::<Seq<char>>::empty());
    assert(engine::views(out@) =~= without_repeats(all.take(0)));
    while k < sorted.len()
        invariant
            ds == engine::views(dirs@),
            all == deepest_first(ds),
            order::positions(sorted@) == order::stable_order(
                ds.map_values(|d: Seq<char>| depth_key(d)),
            ),
            forall|i: int| 0 <= i < sorted@.len() ==> (#[trigger] sorted@[i]) < dirs@.len(),
            k <= sorted@.len(),
            all.len() == sorted@.len(),
            engine::views(out@) == without_repeats(all.take(k as int)),
        decreases sorted@.len() - k,
    {
        let ghost before = out@;
        proof {
            assert(order::positions(sorted@)[k as int] == sorted@[k as int]);
            assert(all[k as int] == dirs@[sorted@[k as int] as int]@);
            assert(all.take(k + 1).drop_last() =~= all.take(k as int));
            assert(all.take(k + 1)[k as int] == all[k as int]);
            if k > 0 {
                assert(order::positions(sorted@)[k - 1] == sorted@[k - 1]);
                assert(all[k - 1] == dirs@[sorted@[k - 1] as int]@);
                assert(all.take(k + 1)[k - 1] == all[k - 1]);
            }
        }
        let dir: &String = &dirs[sorted[k]];
        let repeats: bool = if k == 0 {
            false
        } else {
            let here: Vec<Vec<char>> = components_of(dir.as_str());
            let prior: Vec<Vec<char>> = components_of(dirs[sorted[k - 1]].as_str());
            same_components(here.as_slice(), prior.as_slice())
        };
        if !repeats {
            out.push(dir.clone());
            assert(engine::views(out@) =~= engine::views(before).push(dir@));
            assert(engine::views(out@) =~= without_repeats(all.take(k + 1))) by {
                if k == 0 {
                    assert(all.take(1) =~= Seq::<Seq<char>>::empty().push(dir@));
                }
            }
        }
        k += 1;
    }
    assert(all.take(k as int) =~= all);
    out
}

/// What is wrong with a copy: nothing if all bytes were copied.
pub fn short_copy(copied: u64, expected: u64) -> (r: Option<String>)
    ensures
        r is None <==> copied == expected,
        r matches Some(m) ==> m@ == "short copy: "@ + text::decimal(copied as nat) + " of "@
            + text::decimal(expected as nat) + " bytes"@,
{
    if copied == expected {
        return None;
    }
    let mut out: String = String::new();
    push_text(&mut out, "short copy: ");
    push_decimal(&mut out, copied);
    push_text(&mut out, " of ");
    push_decimal(&mut out, expected);
    push_text(&mut out, " bytes");
    assert(out@ =~= "short copy: "@ + text::decimal(copied as nat) + " of "@ + text::decimal(
        expected as nat,
    ) + " bytes"@);
    Some(out)
}

proof fn lemma_joined_apart(base: Seq<char>, x: Seq<char>, y: Seq<char>)
    requires
        pathname::is_absolute(x) == pathname::is_absolute(y),
        x != y,
    ensures
        pathname::joined(base, x) != pathname::joined(base, y),
{
    if !pathname::is_absolute(x) {
        let head = if base.len() == 0 || base.last() == '/' {
            base
        } else {
            base.push('/')
        };
        assert(x =~= (head + x).skip(head.len() as int));
        assert(y =~= (head + y).skip(head.len() as int));
    }
}

proof fn lemma_numbered_name(name: Seq<char>, m: nat, n: nat)
    requires
        m != n,
    ensures
        numbered_name(name, m) != numbered_name(name, n),
        numbered_name(name, m)[0] == numbered_name(name, n)[0],
        numbered_name(name, m).len() > 0,
{
    let front = pathname::stem_of(name).push('-');
    let tail = match pathname::ext_of(name) {
        Some(e) => seq!['.'] + e,
        None => Seq::empty(),
    };
    let (x, y) = (text::decimal(m), text::decimal(n));
    assert(numbered_name(name, m) =~= front + x + tail);
    assert(numbered_name(name, n) =~= front + y + tail);
    text::lemma_decimal(m);
    text::lemma_decimal(n);
    if front + x + tail == front + y + tail {
        assert((front + x + tail).len() == (front + y + tail).len());
        assert(x =~= (front + x + tail).subrange(front.len() as int, (front.len() + x.len()) as int));
        assert(y =~= (front + y + tail).subrange(front.len() as int, (front.len() + x.len()) as int));
        text::lemma_decimal_int_is_injective(m as int, n as int);
    }
}

proof fn lemma_slashed_apart(names: Seq<Seq<char>>, x: Seq<char>, y: Seq<char>)
    requires
        x != y,
        x.len() > 0,
        y.len() > 0,
        x[0] == y[0],
    ensures
        slashed(names.push(x)) != slashed(names.push(y)),
        pathname::is_absolute(slashed(names.push(x))) == pathname::is_absolute(
            slashed(names.push(y)),
        ),
{
    let (a, b) = (names.push(x), names.push(y));
    assert(a.drop_last() =~= names && b.drop_last() =~= names);
    if names.len() > 0 {
        let head = slashed(names).push('/');
        assert(slashed(a) =~= head + x && slashed(b) =~= head + y);
        assert(x =~= slashed(a).skip(head.len() as int));
        assert(y =~= slashed(b).skip(head.len() as int));
        assert(slashed(a)[0] == head[0] && slashed(b)[0] == head[0]);
    }
}

/// Numbered places all differ, so that whatever there is already, a free one is found.
pub proof fn numbered_places_differ(root: Seq<char>, src: Seq<char>, m: nat, n: nat)
    requires
        m != n,
    ensures
        numbered(root, src, m) != numbered(root, src, n),
{
    let names = names_among(pathname::components(src));
    if names.len() == 0 {
        let place = pathname::joined(root, Seq::empty());
        let own = match pathname::file_name(place) {
            Some(name) => name,
            None => "file"@,
        };
        lemma_numbered_name(own, m, n);
        lemma_numbered_name(own, n, m);
        let (x, y) = (numbered_name(own, m), numbered_name(own, n));
        lemma_joined_apart(place, x, y);
        lemma_joined_apart(pathname::parent(place), x, y);
    } else {
        lemma_numbered_name(names.last(), m, n);
        lemma_numbered_name(names.last(), n, m);
        let (x, y) = (numbered_name(names.last(), m), numbered_name(names.last(), n));
        lemma_slashed_apart(names.drop_last(), x, y);
        lemma_joined_apart(
            root,
            slashed(names.drop_last().push(x)),
            slashed(names.drop_last().push(y)),
        );
    }
}

/// A batch has a folder of its own: its name says so, and its number follows in at least
/// four digits.
pub proof fn batches_have_numbered_folders(batch: nat)
    ensures
        batch_name(batch as int).len() == 6 + template::padded(batch, 4).len(),
        batch_name(batch as int).take(6) == "batch-"@,
        batch_name(batch as int).skip(6) == template::padded(batch, 4),
{
    reveal_strlit("batch-");
    assert("batch-"@.len() == 6);
    let name = batch_name(batch as int);
    assert(name.take(6) =~= "batch-"@);
    assert(name.skip(6) =~= template::padded(batch, 4));
}

proof fn lemma_slashed_more(names: Seq<Seq<char>>, name: Seq<char>)
    ensures
        names.len() == 0 ==> slashed(names.push(name)) == name,
        names.len() > 0 ==> slashed(names.push(name)) == slashed(names) + seq!['/'] + name,
{
    let more = names.push(name);
    assert(more.drop_last() =~= names);
    if names.len() > 0 {
        assert(slashed(names).push('/') + name =~= slashed(names) + seq!['/'] + name);
    }
}

/// In quarantine a file has the path it had, below the folder of its batch: what a folder
/// holds lies there below the place of the folder, under its own name.
pub proof fn quarantine_mirrors_paths(root: Seq<char>, dir: Seq<char>, name: Seq<char>)
    requires
        root.len() > 0 && root.last() != '/',
        dir.len() > 0,
        !name.contains('/') && name.len() > 0 && name != seq!['.'] && name != seq!['.', '.'],
    ensures
        mirrored(root, seq!['/'] + name) == root + seq!['/'] + name,
        mirrored(root, name) == root + seq!['/'] + name,
        names_among(pathname::components(dir)).len() > 0 && (forall|i: int|
            0 <= i < names_among(pathname::components(dir)).len() ==> (
            #[trigger] names_among(pathname::components(dir))[i]).len() > 0 && names_among(
                pathname::components(dir),
            )[i][0] != '/') ==> mirrored(root, dir + seq!['/'] + name) == mirrored(root, dir) + seq![
            '/',
        ] + name,
        names_among(pathname::components(dir)).len() == 0 ==> mirrored(
            root,
            dir + seq!['/'] + name,
        ) == root + seq!['/'] + name,
{
    reveal_with_fuel(names_among, 3);
    let own = seq!['\u{3}'] + name;
    assert(own.drop_first() =~= name);
    if name[0] == '/' {
        assert(name.contains('/'));
    }
    pathname::a_path_of_one_segment(name);
    pathname::a_segment_adds_a_component(dir, name);
    pathname::joining_puts_one_slash_between(root, name);
    let none = Seq::<Seq<char>>::empty();
    lemma_slashed_more(none, name);
    let one = pathname::components(name);
    assert(one.drop_last() =~= none);
    assert(names_among(one) =~= none.push(name));
    let rooted = pathname::components(seq!['/'] + name);
    assert(rooted.drop_last() =~= seq![seq!['\u{0}']]);
    assert(seq![seq!['\u{0}']].drop_last() =~= none);
    assert(names_among(rooted) =~= none.push(name));
    let c = pathname::components(dir);
    let names = names_among(c);
    assert(c.push(own).drop_last() =~= c);
    assert(names_among(c.push(own)) == names.push(name));
    lemma_slashed_more(names, name);
    if names.len() == 0 {
        assert(names =~= none);
    } else if forall|i: int|
        0 <= i < names.len() ==> (#[trigger] names[i]).len() > 0 && names[i][0] != '/' {
        lemma_slashed_begins(names);
        let s = slashed(names);
        let t = s + seq!['/'] + name;
        assert(t[0] == s[0]);
        pathname::joining_puts_one_slash_between(root, s);
        pathname::joining_puts_one_slash_between(root, t);
        assert(root + seq!['/'] + t =~= root + seq!['/'] + s + seq!['/'] + name);
    }
}

proof fn lemma_slashed_begins(names: Seq<Seq<char>>)
    requires
        names.len() > 0,
        names[0].len() > 0,
    ensures
        slashed(names).len() > 0,
        slashed(names)[0] == names[0][0],
    decreases names.len(),
{
    if names.len() > 1 {
        lemma_slashed_begins(names.drop_last());
    }
}

/// A name that is taken gets a number behind its stem, and keeps its extension.
pub proof fn taken_names_are_numbered(stem: Seq<char>, ext: Seq<char>, n: nat)
    requires
        stem.len() > 0,
        !ext.contains('.'),
    ensures
        numbered_name(stem + seq!['.'] + ext, n) == stem + seq!['-'] + text::decimal(n) + seq!['.']
            + ext,
        !stem.contains('.') ==> numbered_name(stem, n) == stem + seq!['-'] + text::decimal(n),
{
    pathname::names_split_at_the_last_dot(stem, ext, stem);
    let d = text::decimal(n);
    assert(stem.push('-') + d =~= stem + seq!['-'] + d);
    assert((stem + seq!['-'] + d).push('.') + ext =~= stem + seq!['-'] + d + seq!['.'] + ext);
}

/// A file whose place is taken goes to the place of a file of its own name with a number:
/// the second to number two, and so on.
pub proof fn taken_places_are_numbered(
    root: Seq<char>,
    dir: Seq<char>,
    name: Seq<char>,
    taken: nat,
)
    requires
        dir.len() > 0,
        !name.contains('/') && name.len() > 0 && name != seq!['.'] && name != seq!['.', '.'],
    ensures
        free_place(root, dir + seq!['/'] + name, 0) == mirrored(root, dir + seq!['/'] + name),
        taken > 0 ==> free_place(root, dir + seq!['/'] + name, taken) == pathname::joined(
            root,
            slashed(
                names_among(pathname::components(dir)).push(numbered_name(name, taken + 1)),
            ),
        ),
{
    let own = seq!['\u{3}'] + name;
    assert(own.drop_first() =~= name);
    pathname::a_segment_adds_a_component(dir, name);
    let c = pathname::components(dir);
    assert(c.push(own).drop_last() =~= c);
    let names = names_among(c);
    assert(names_among(c.push(own)) == names.push(name));
    assert(names.push(name).drop_last() =~= names);
}

/// Empty folders are removed from the deepest up: none comes after one that lies less
/// deep, and none is left out.
pub proof fn deeper_folders_come_first(dirs: Seq<Seq<char>>, i: int, j: int)
    requires
        0 <= i < j < dirs.len(),
    ensures
        deepest_first(dirs).len() == dirs.len(),
        pathname::components(deepest_first(dirs)[i]).len() >= pathname::components(
            deepest_first(dirs)[j],
        ).len(),
        deepest_first(dirs).to_multiset() == dirs.to_multiset(),
{
    let keys = dirs.map_values(|d: Seq<char>| depth_key(d));
    let at = order::sorting_goes_by_key(dirs, keys);
    assert(order::rearranged(dirs, keys) =~= deepest_first(dirs));
    order::rearranging_keeps_every_item(dirs, keys);
    assert(at[i] != at[j]);
    assert(order::rearranged(dirs, keys)[i] == dirs[at[i]]);
    assert(order::rearranged(dirs, keys)[j] == dirs[at[j]]);
}

/// Of folders that follow one another as the same folder only the first stays, and every
/// folder is still there.
pub proof fn repeated_folders_are_listed_once(dirs: Seq<Seq<char>>)
    ensures
        dirs.len() > 0 ==> without_repeats(dirs).len() > 0 && without_repeats(dirs)[0] == dirs[0]
            && pathname::components(without_repeats(dirs).last()) == pathname::components(
            dirs.last(),
        ),
        forall|i: int|
            0 <= i < without_repeats(dirs).len() - 1 ==> pathname::components(
                #[trigger] without_repeats(dirs)[i],
            ) != pathname::components(without_repeats(dirs)[i + 1]),
        forall|i: int|
            0 <= i < dirs.len() ==> exists|k: int|
                0 <= k < without_repeats(dirs).len() && pathname::components(
                    #[trigger] without_repeats(dirs)[k],
                ) == pathname::components(#[trigger] dirs[i]),
    decreases dirs.len(),
{
    let kept = without_repeats(dirs);
    if dirs.len() <= 1 {
        assert forall|i: int| 0 <= i < dirs.len() implies exists|k: int|
            0 <= k < kept.len() && pathname::components(#[trigger] kept[k])
                == pathname::components(#[trigger] dirs[i]) by {
            assert(kept[i] == dirs[i]);
        }
    } else {
        let rest = dirs.drop_last();
        let before = without_repeats(rest);
        repeated_folders_are_listed_once(rest);
        assert forall|i: int| 0 <= i < kept.len() - 1 implies pathname::components(
            #[trigger] kept[i],
        ) != pathname::components(kept[i + 1]) by {
            assert(kept[i] == before[i]);
            if i + 1 < before.len() {
                assert(kept[i + 1] == before[i + 1]);
            }
        }
        assert forall|i: int| 0 <= i < dirs.len() implies exists|k: int|
            0 <= k < kept.len() && pathname::components(#[trigger] kept[k])
                == pathname::components(#[trigger] dirs[i]) by {
            if i < rest.len() {
                assert(rest[i] == dirs[i]);
                let k = choose|k: int|
                    0 <= k < before.len() && pathname::components(#[trigger] before[k])
                        == pathname::components(rest[i]);
                assert(kept[k] == before[k]);
            } else {
                assert(pathname::components(kept[kept.len() - 1]) == pathname::components(
                    dirs[i],
                ));
            }
        }
    }
}

/// What quarantining reports: how many files were moved, how much they take up, and for
/// each that was not its path and why; the batch is named if it holds anything.
pub proof fn quarantining_reports_what_it_did(
    paths: Seq<Seq<char>>,
    events: Seq<QuarantineEvent>,
    batch: i64,
)
    requires
        paths.len() == events.len(),
    ensures
        ({
            let out = outcome_of(paths, events, batch);
            let moved = events.filter(|e: QuarantineEvent| e is Moved);
            &&& out.moved == moved.len()
            &&& out.bytes == moved.fold_left(
                0,
                |n: int, e: QuarantineEvent| n + e->Moved_size,
            )
            &&& out.batch == if moved.len() > 0 {
                Some(batch)
            } else {
                None
            }
            &&& out.errors.len() == events.len() - moved.len()
        }),
{
    lemma_outcome(paths, events, events.len());
    assert(events.take(events.len() as int) =~= events);
}

proof fn lemma_outcome(paths: Seq<Seq<char>>, events: Seq<QuarantineEvent>, n: nat)
    requires
        n <= events.len(),
    ensures
        ({
            let out = outcome_upto(paths, events, n as int);
            let moved = events.take(n as int).filter(|e: QuarantineEvent| e is Moved);
            &&& out.moved == moved.len()
            &&& out.bytes == moved.fold_left(
                0,
                |k: int, e: QuarantineEvent| k + e->Moved_size,
            )
            &&& out.errors.len() == n - moved.len()
        }),
    decreases n,
{
    reveal(Seq::filter);
    let p = |e: QuarantineEvent| e is Moved;
    if n > 0 {
        lemma_outcome(paths, events, (n - 1) as nat);
        let some = events.take(n as int);
        assert(some.drop_last() =~= events.take(n - 1));
        assert(some.last() == events[n - 1]);
        let rest = some.drop_last().filter(p);
        if events[n - 1] is Moved {
            assert(some.filter(p) == rest.push(events[n - 1]));
            assert(rest.push(events[n - 1]).drop_last() =~= rest);
        } else {
            assert(some.filter(p) == rest);
        }
    }
}

/// A file that could not be quarantined is named with its path and the reason; after one
/// that was moved nothing is said.
pub proof fn files_left_behind_are_named(
    paths: Seq<Seq<char>>,
    events: Seq<QuarantineEvent>,
    n: int,
)
    requires
        0 < n,
    ensures
        ({
            let before = outcome_upto(paths, events, n - 1).errors;
            let after = outcome_upto(paths, events, n).errors;
            let path = paths[n - 1];
            &&& events[n - 1] is Moved ==> after == before
            &&& events[n - 1] matches QuarantineEvent::NoPlace(e) ==> after == before.push(
                path + ": "@ + e@,
            )
            &&& events[n - 1] matches QuarantineEvent::NotMoved(e) ==> after == before.push(
                path + ": "@ + e@,
            )
            &&& events[n - 1] matches QuarantineEvent::NotRecorded(e) ==> after == before.push(
                path + ": ledger write failed: "@ + e@,
            )
        }),
{
}

/// A quarantined file has no row any more, the others keep theirs, and a line of the
/// ledger tells where it was and where it is.
pub proof fn quarantined_files_leave_the_catalog(
    t: catalog::Tables,
    batch: i64,
    src: Seq<char>,
    dest: Seq<char>,
)
    requires
        catalog::max_line(t.ledger) < i64::MAX,
    ensures
        ({
            let u = quarantined(t, batch, src, dest);
            let line = u.ledger.last();
            &&& u.media == t.media.filter(|s: catalog::Stored| s.row.path != src)
            &&& u.users == t.users
            &&& u.ledger.drop_last() == t.ledger
            &&& line.batch == batch && line.original_path == src && line.quarantine_path == dest
            &&& !line.restored
            &&& forall|i: int| 0 <= i < t.ledger.len() ==> (#[trigger] t.ledger[i]).id < line.id
        }),
{
    catalog::removals_keep_the_rest(t.media, src);
    catalog::entries_are_numbered_on(t.ledger);
    assert(quarantined(t, batch, src, dest).ledger.drop_last() =~= t.ledger);
}

/// What putting back reports: a file is back if it was moved, even if that could not be
/// recorded; and each thing that went wrong is told, with the path it is about.
pub proof fn restoring_reports_what_it_did(
    entries: Seq<catalog::Held>,
    events: Seq<RestoreEvent>,
    n: int,
)
    requires
        0 < n,
    ensures
        ({
            let before = restored_upto(entries, events, n - 1);
            let after = restored_upto(entries, events, n);
            let entry = entries[n - 1];
            &&& events[n - 1] is Restored ==> after == (before.0 + 1, before.1)
            &&& events[n - 1] matches RestoreEvent::NotRecorded(e) ==> after == (
                before.0 + 1,
                before.1.push(entry.original_path + ": ledger: "@ + e@),
            )
            &&& events[n - 1] is Occupied ==> after == (
                before.0,
                before.1.push(
                    entry.original_path + ": something is already there, left in quarantine"@,
                ),
            )
            &&& events[n - 1] matches RestoreEvent::NoFolder(e) ==> after == (
                before.0,
                before.1.push(entry.original_path + ": mkdir: "@ + e@),
            )
            &&& events[n - 1] matches RestoreEvent::NotMoved(e) ==> after == (
                before.0,
                before.1.push(entry.quarantine_path + ": "@ + e@),
            )
        }),
        restored_upto(entries, events, 0) == (0nat, Seq::<Seq<char>>::empty()),
{
}

} // verus!
