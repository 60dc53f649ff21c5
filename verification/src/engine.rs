//! Rename plans: which file gets which path, what stands in the way, and what
//! moving the files one by one makes of the plan.
use vstd::prelude::*;

use crate::clusters;
use crate::clusters::{labels_of_keys, repeated};
use crate::metadata;
use crate::metadata::{needs_exif, FileMeta};
use crate::order;
use crate::order::{sorted_order, SortKey};
use crate::pathname;
use crate::pathname::{components_of, file_name_of, join};
use crate::template;
use crate::template::Template;
use crate::text;
use crate::text::{chars_of, ends_with, push_text, str_eq, to_lower};

verus! {

/// Name of the file that holds the undo log, in the output folder. Scans ignore
/// it, and it is never renamed itself.
pub const UNDO_FILE: &'static str = ".renamer_undo.log";

/// What to rename, and how.
#[derive(Debug, Clone)]
pub struct Settings {
    /// Folder scanned for files to rename.
    pub source: String,
    /// Folder that the rendered relative paths are placed under.
    pub output_root: String,
    /// Template, such as `{date_taken:%Y}/{date_taken:%m}/{name}`.
    pub template: String,
    /// Whether to go into subfolders of `source`.
    pub recursive: bool,
    /// Whether to append the original extension if the rendered name lacks it.
    pub append_ext: bool,
}

#[derive(Debug, PartialEq)]
pub enum RowStatus {
    Ready,
    /// Two or more files get the same target.
    Collision,
    /// The target already exists and is not one of the files to be renamed.
    Exists,
    /// A template field has no value for this file.
    Error(String),
    /// The rename happened.
    Done,
    /// The rename failed.
    Failed(String),
}

/// A row's status as mathematical values.
#[verifier::ext_equal]
pub enum Status {
    Ready,
    Collision,
    Exists,
    Error(Seq<char>),
    Done,
    Failed(Seq<char>),
}

impl View for RowStatus {
    type V = Status;

    open spec fn view(&self) -> Status {
        match self {
            RowStatus::Ready => Status::Ready,
            RowStatus::Collision => Status::Collision,
            RowStatus::Exists => Status::Exists,
            RowStatus::Error(e) => Status::Error(e@),
            RowStatus::Done => Status::Done,
            RowStatus::Failed(e) => Status::Failed(e@),
        }
    }
}

impl Clone for RowStatus {
    fn clone(&self) -> (r: Self)
        ensures
            r@ == self@,
    {
        match self {
            RowStatus::Ready => RowStatus::Ready,
            RowStatus::Collision => RowStatus::Collision,
            RowStatus::Exists => RowStatus::Exists,
            RowStatus::Error(e) => RowStatus::Error(e.clone()),
            RowStatus::Done => RowStatus::Done,
            RowStatus::Failed(e) => RowStatus::Failed(e.clone()),
        }
    }
}

impl RowStatus {
    /// Whether the row is to be renamed.
    pub fn is_ok(&self) -> (r: bool)
        ensures
            r == (self@ == Status::Ready),
    {
        match self {
            RowStatus::Ready => true,
            _ => false,
        }
    }
}

#[derive(Debug, Clone)]
pub struct PlanRow {
    pub src: String,
    /// Target path relative to the output folder. Empty where there is none.
    pub rel_target: String,
    pub status: RowStatus,
}

/// A plan row as mathematical values.
#[verifier::ext_equal]
pub struct Step {
    pub src: Seq<char>,
    pub rel_target: Seq<char>,
    pub status: Status,
}

impl View for PlanRow {
    type V = Step;

    open spec fn view(&self) -> Step {
        Step { src: self.src@, rel_target: self.rel_target@, status: self.status@ }
    }
}

/// Plan rows as mathematical values.
pub open spec fn steps_of(rows: Seq<PlanRow>) -> Seq<Step> {
    rows.map_values(|r: PlanRow| r@)
}

#[derive(Debug, Clone)]
pub struct Plan {
    pub rows: Vec<PlanRow>,
    pub output_root: String,
}

/// How many rows have a status that something holds of.
pub open spec fn count_steps(steps: Seq<Step>, p: spec_fn(Status) -> bool) -> nat
    decreases steps.len(),
{
    if steps.len() == 0 {
        0
    } else {
        count_steps(steps.drop_last(), p) + (if p(steps.last().status) {
            1nat
        } else {
            0nat
        })
    }
}

/// Whether a row is to be renamed.
pub open spec fn is_ready() -> spec_fn(Status) -> bool {
    |s: Status| s == Status::Ready
}

/// Whether a row has a problem: it is neither to be renamed nor renamed.
pub open spec fn is_problem() -> spec_fn(Status) -> bool {
    |s: Status| s != Status::Ready && s != Status::Done
}

/// Whether a row was renamed.
pub open spec fn is_done() -> spec_fn(Status) -> bool {
    |s: Status| s == Status::Done
}

/// Every row is to be renamed, renamed, or a problem.
pub proof fn counts_cover_all_rows(steps: Seq<Step>)
    ensures
        count_steps(steps, is_ready()) + count_steps(steps, is_done()) + count_steps(
            steps,
            is_problem(),
        ) == steps.len(),
    decreases steps.len(),
{
    if steps.len() > 0 {
        counts_cover_all_rows(steps.drop_last());
    }
}

impl Plan {
    /// How many rows are to be renamed.
    pub fn ok_count(&self) -> (r: usize)
        ensures
            r == count_steps(steps_of(self.rows@), is_ready()),
    {
        let ghost ss = steps_of(self.rows@);
        let mut count: usize = 0;
        let mut i: usize = 0;
        assert(ss.take(0) =~= Seq::<Step>::empty());
        while i < self.rows.len()
            invariant
                ss == steps_of(self.rows@),
                i <= self.rows@.len(),
                count <= i,
                count == count_steps(ss.take(i as int), is_ready()),
            decreases self.rows@.len() - i,
        {
            assert(ss.take(i + 1).drop_last() =~= ss.take(i as int));
            assert(ss.take(i + 1).last() == self.rows@[i as int]@);
            if self.rows[i].status.is_ok() {
                count += 1;
            }
            i += 1;
        }
        assert(ss.take(i as int) =~= ss);
        count
    }

    /// How many rows have a problem.
    pub fn problem_count(&self) -> (r: usize)
        ensures
            r == count_steps(steps_of(self.rows@), is_problem()),
    {
        let ghost ss = steps_of(self.rows@);
        let mut count: usize = 0;
        let mut i: usize = 0;
        assert(ss.take(0) =~= Seq::<Step>::empty());
        while i < self.rows.len()
            invariant
                ss == steps_of(self.rows@),
                i <= self.rows@.len(),
                count <= i,
                count == count_steps(ss.take(i as int), is_problem()),
            decreases self.rows@.len() - i,
        {
            assert(ss.take(i + 1).drop_last() =~= ss.take(i as int));
            assert(ss.take(i + 1).last() == self.rows@[i as int]@);
            let problem: bool = match &self.rows[i].status {
                RowStatus::Ready => false,
                RowStatus::Done => false,
                _ => true,
            };
            if problem {
                count += 1;
            }
            i += 1;
        }
        assert(ss.take(i as int) =~= ss);
        count
    }
}

/// The paths that are not the undo log's.
pub open spec fn without_log(paths: Seq<Seq<char>>) -> Seq<Seq<char>>
    decreases paths.len(),
{
    if paths.len() == 0 {
        Seq::empty()
    } else if pathname::file_name(paths.last()) == Some(UNDO_FILE@) {
        without_log(paths.drop_last())
    } else {
        without_log(paths.drop_last()).push(paths.last())
    }
}

/// What paths are sorted by.
pub open spec fn path_key(path: Seq<char>) -> order::Key {
    order::Key { words: pathname::components(path), ..order::no_key() }
}

/// Paths in order.
pub open spec fn sorted_paths(paths: Seq<Seq<char>>) -> Seq<Seq<char>> {
    order::stable_order(paths.map_values(|p: Seq<char>| path_key(p))).map_values(|i: int| paths[i])
}

/// Texts as mathematical values.
pub open spec fn views(v: Seq<String>) -> Seq<Seq<char>> {
    v.map_values(|s: String| s@)
}

fn key_of_path(path: &str) -> (r: SortKey)
    ensures
        r@ == path_key(path@),
{
    let key: SortKey = SortKey {
        lead: Vec::new(),
        first: 0,
        second: 0,
        third: 0,
        fourth: 0,
        words: components_of(path),
    };
    assert(key@ =~= path_key(path@));
    key
}

/// The files to rename out of those that a scan found, in order, so that the
/// counter is the same on every run.
pub fn candidate_files(found: &[String]) -> (r: Vec<String>)
    ensures
        views(r@) == sorted_paths(without_log(views(found@))),
{
    let ghost all = views(found@);
    let mut some: Vec<String> = Vec::new();
    let mut keys: Vec<SortKey> = Vec::new();
    let mut i: usize = 0;
    assert(all.take(0) =~= Seq::<Seq<char>>::empty());
    assert(views(some@) =~= without_log(all.take(0)));
    assert(order::keys_of(keys@) =~= views(some@).map_values(|p: Seq<char>| path_key(p)));
    while i < found.len()
        invariant
            all == views(found@),
            i <= found@.len(),
            views(some@) == without_log(all.take(i as int)),
            order::keys_of(keys@) == views(some@).map_values(|p: Seq<char>| path_key(p)),
        decreases found@.len() - i,
    {
        let ghost some_before = some@;
        let ghost keys_before = keys@;
        assert(all.take(i + 1).drop_last() =~= all.take(i as int));
        assert(all.take(i + 1).last() == found@[i as int]@);
        let path: &String = &found[i];
        let is_log: bool = match file_name_of(path.as_str()) {
            Some(name) => str_eq(name.as_str(), UNDO_FILE),
            None => false,
        };
        if !is_log {
            some.push(path.clone());
            keys.push(key_of_path(path.as_str()));
            assert(views(some@) =~= views(some_before).push(path@));
            assert(order::keys_of(keys@) =~= order::keys_of(keys_before).push(path_key(path@)));
            assert(order::keys_of(keys@) =~= views(some@).map_values(|p: Seq<char>| path_key(p)));
        }
        i += 1;
    }
    assert(all.take(i as int) =~= all);
    let ghost chosen = without_log(all);
    let sorted: Vec<usize> = sorted_order(keys.as_slice());
    let ghost done = sorted_paths(chosen);
    assert(order::keys_of(keys@).len() == keys@.len());
    assert(views(some@).len() == some@.len());
    let mut out: Vec<String> = Vec::new();
    let mut k: usize = 0;
    assert(views(out@) =~= done.take(0));
    while k < sorted.len()
        invariant
            views(some@) == chosen,
            done == sorted_paths(chosen),
            order::positions(sorted@) == order::stable_order(
                chosen.map_values(|p: Seq<char>| path_key(p)),
            ),
            forall|i: int| 0 <= i < sorted@.len() ==> (#[trigger] sorted@[i]) < some@.len(),
            k <= sorted@.len(),
            views(out@) == done.take(k as int),
        decreases sorted@.len() - k,
    {
        let ghost before = out@;
        assert(order::positions(sorted@)[k as int] == sorted@[k as int]);
        assert(views(some@)[sorted@[k as int] as int] == some@[sorted@[k as int] as int]@);
        out.push(some[sorted[k]].clone());
        assert(views(out@) =~= views(before).push(done[k as int]));
        assert(done.take(k + 1) =~= done.take(k as int).push(done[k as int]));
        k += 1;
    }
    assert(done.take(k as int) =~= done);
    out
}

/// Whether files have to be read to preview a template: it uses a field that
/// comes from EXIF.
pub fn template_needs_exif(template: &str) -> (r: bool)
    ensures
        r == exists|i: int|
            0 <= i < template::field_names(template::parsed(template@)).len() && text::listed(
                metadata::EXIF_FIELDS@,
                #[trigger] template::field_names(template::parsed(template@))[i],
            ),
{
    let fields: Vec<String> = Template::parse(template).fields();
    let ghost names = template::field_names(template::parsed(template@));
    let r: bool = needs_exif(fields.as_slice());
    proof {
        assert(fields@.map_values(|s: String| s@) == names);
        assert(names.len() == fields@.len());
        if r {
            let i = choose|i: int|
                0 <= i < fields@.len() && text::listed(
                    metadata::EXIF_FIELDS@,
                    (#[trigger] fields@[i])@,
                );
            assert(names[i] == fields@[i]@);
        }
        if exists|i: int|
            0 <= i < names.len() && text::listed(metadata::EXIF_FIELDS@, #[trigger] names[i]) {
            let i = choose|i: int|
                0 <= i < names.len() && text::listed(metadata::EXIF_FIELDS@, #[trigger] names[i]);
            assert(names[i] == fields@[i]@);
        }
    }
    r
}

/// A rendered path with the extension appended, if that is wanted and it does not
/// end in it already, going by both in lowercase.
pub open spec fn with_ext_lowered(
    rel: Seq<char>,
    ext: Seq<char>,
    append: bool,
    lower_rel: Seq<char>,
    lower_ext: Seq<char>,
) -> Seq<char> {
    if append && ext.len() > 0 && !text::ends_in(lower_rel, seq!['.'] + lower_ext) {
        rel.push('.') + ext
    } else {
        rel
    }
}

/// A rendered path with the extension appended, if that is wanted and it does not
/// end in it already, whatever the case.
pub open spec fn with_ext(rel: Seq<char>, ext: Seq<char>, append: bool) -> Seq<char> {
    with_ext_lowered(rel, ext, append, text::lowercase(rel), text::lowercase(ext))
}

/// The row for a file before it is compared with others.
pub open spec fn drafted(
    src: Seq<char>,
    m: metadata::Meta,
    t: Seq<template::Piece>,
    append: bool,
    index: nat,
) -> Step {
    match template::rendered(t, m, index) {
        Ok(rel) => Step { src, rel_target: with_ext(rel, m.ext, append), status: Status::Ready },
        Err(name) => Step {
            src,
            rel_target: Seq::empty(),
            status: Status::Error(template::missing_message(name)),
        },
    }
}

/// The rows before they are compared with one another. The counter starts at one.
pub open spec fn drafts(
    files: Seq<Seq<char>>,
    metas: Seq<metadata::Meta>,
    t: Seq<template::Piece>,
    append: bool,
) -> Seq<Step> {
    Seq::new(files.len(), |i: int| drafted(files[i], metas[i], t, append, (i + 1) as nat))
}

/// Whether another row that is to be renamed gets the same target.
pub open spec fn collides(steps: Seq<Step>, i: int) -> bool {
    steps[i].status == Status::Ready && exists|j: int|
        0 <= j < steps.len() && j != i && (#[trigger] steps[j]).status == Status::Ready
            && steps[j].rel_target == steps[i].rel_target
}

/// The rows once those that get the same target are marked.
pub open spec fn with_collisions(steps: Seq<Step>) -> Seq<Step> {
    Seq::new(
        steps.len(),
        |i: int|
            if collides(steps, i) {
                Step { status: Status::Collision, ..steps[i] }
            } else {
                steps[i]
            },
    )
}

/// Whether a path is that of a file to be renamed.
pub open spec fn is_source(steps: Seq<Step>, path: Seq<char>) -> bool {
    exists|j: int|
        0 <= j < steps.len() && pathname::components((#[trigger] steps[j]).src)
            == pathname::components(path)
}

/// The rows once those whose target exists are marked, unless the target is a
/// file that is itself to be renamed.
pub open spec fn with_existing(steps: Seq<Step>, root: Seq<char>, on_disk: Seq<bool>) -> Seq<Step> {
    Seq::new(
        steps.len(),
        |i: int|
            if steps[i].status == Status::Ready && on_disk[i] && !is_source(
                steps,
                pathname::joined(root, steps[i].rel_target),
            ) {
                Step { status: Status::Exists, ..steps[i] }
            } else {
                steps[i]
            },
    )
}

/// Metadata as mathematical values.
pub open spec fn metas_of(metas: Seq<FileMeta>) -> Seq<metadata::Meta> {
    metas.map_values(|m: FileMeta| m@)
}

/// Whether the template meets no invalid date format for any of the files.
pub open spec fn all_renderable(t: Seq<template::Piece>, metas: Seq<metadata::Meta>) -> bool {
    forall|i: int|
        0 <= i < metas.len() ==> template::renderable(t, #[trigger] metas[i], (i + 1) as nat)
}

/// A rendered path with the extension appended, if that is wanted and it does not
/// end in it already, given both in lowercase too.
pub fn append_extension_lowered(
    rel: String,
    ext: &str,
    append: bool,
    lower_rel: &str,
    lower_ext: &str,
) -> (r: String)
    ensures
        r@ == with_ext_lowered(rel@, ext@, append, lower_rel@, lower_ext@),
{
    let mut rel: String = rel;
    let e: Vec<char> = chars_of(ext);
    if append && e.len() > 0 {
        let mut suffix: Vec<char> = Vec::new();
        suffix.push('.');
        let mut tail: Vec<char> = chars_of(lower_ext);
        suffix.append(&mut tail);
        assert(suffix@ =~= seq!['.'] + lower_ext@);
        let lower: Vec<char> = chars_of(lower_rel);
        if !ends_with(lower.as_slice(), suffix.as_slice()) {
            rel.push('.');
            push_text(&mut rel, ext);
        }
    }
    rel
}

/// A rendered path with the extension appended, if that is wanted and it does not
/// end in it already, whatever the case.
pub fn append_extension(rel: String, ext: &str, append: bool) -> (r: String)
    ensures
        r@ == with_ext(rel@, ext@, append),
{
    let lower_rel: String = to_lower(rel.as_str());
    let lower_ext: String = to_lower(ext);
    append_extension_lowered(rel, ext, append, lower_rel.as_str(), lower_ext.as_str())
}

/// Plans the renaming of `files`, each with its metadata, without touching any.
/// Rows that get the same target are marked; whether a target exists already is
/// for [`mark_existing`]. There is no plan where the template meets a date format
/// that is not valid.
pub fn try_build_plan(settings: &Settings, files: &[String], metas: &[FileMeta]) -> (r: Option<Plan>)
    requires
        files@.len() == metas@.len(),
    ensures
        r is Some <==> all_renderable(template::parsed(settings.template@), metas_of(metas@)),
        r is Some ==> r->0.output_root@ == settings.output_root@ && steps_of(r->0.rows@)
            == with_collisions(
            drafts(
                views(files@),
                metas_of(metas@),
                template::parsed(settings.template@),
                settings.append_ext,
            ),
        ),
{
    let template: Template = Template::parse(settings.template.as_str());
    let ghost t = template::parsed(settings.template@);
    let ghost fs = views(files@);
    let ghost ms = metas_of(metas@);
    let ghost want = drafts(fs, ms, t, settings.append_ext);
    let n: usize = files.len();
    let mut rows: Vec<PlanRow> = Vec::new();
    let mut i: usize = 0;
    while i < n
        invariant
            n == files@.len(),
            n == metas@.len(),
            template@ == t,
            t == template::parsed(settings.template@),
            fs == views(files@),
            ms == metas_of(metas@),
            want == drafts(fs, ms, t, settings.append_ext),
            i <= n,
            rows@.len() == i,
            forall|k: int| 0 <= k < i ==> (#[trigger] rows@[k])@ == want[k],
            forall|k: int|
                0 <= k < i ==> template::renderable(t, #[trigger] ms[k], (k + 1) as nat),
        decreases n - i,
    {
        let src: String = files[i].clone();
        let meta: &FileMeta = &metas[i];
        assert(ms[i as int] == meta@);
        assert(fs[i as int] == src@);
        let row: PlanRow = match template.try_render(meta, i + 1) {
            None => {
                assert(!template::renderable(t, ms[i as int], (i + 1) as nat));
                return None;
            },
            Some(Ok(rel)) => PlanRow {
                src,
                rel_target: append_extension(rel, meta.ext.as_str(), settings.append_ext),
                status: RowStatus::Ready,
            },
            Some(Err(e)) => PlanRow {
                src,
                rel_target: String::new(),
                status: RowStatus::Error(e.message()),
            },
        };
        assert(row@ =~= want[i as int]);
        rows.push(row);
        i += 1;
    }
    assert(steps_of(rows@) =~= want);
    mark_collisions(&mut rows);
    Some(Plan { rows, output_root: settings.output_root.clone() })
}

/// What rows are grouped by when looking for the same target.
pub open spec fn target_key(steps: Seq<Step>, i: int) -> order::Key {
    if steps[i].status == Status::Ready {
        order::Key { lead: steps[i].rel_target, first: 1, ..order::no_key() }
    } else {
        order::Key { first: 0, second: i, ..order::no_key() }
    }
}

fn mark_collisions(rows: &mut Vec<PlanRow>)
    ensures
        steps_of(final(rows)@) == with_collisions(steps_of(old(rows)@)),
{
    let ghost ss = steps_of(rows@);
    let ghost want = Seq::new(ss.len(), |i: int| target_key(ss, i));
    let n: usize = rows.len();
    let mut keys: Vec<SortKey> = Vec::new();
    let mut i: usize = 0;
    while i < n
        invariant
            n == rows@.len(),
            ss == steps_of(rows@),
            want == Seq::new(ss.len(), |i: int| target_key(ss, i)),
            i <= n,
            keys@.len() == i,
            forall|k: int| 0 <= k < i ==> (#[trigger] keys@[k])@ == want[k],
        decreases n - i,
    {
        assert(ss[i as int] == rows@[i as int]@);
        let ready: bool = rows[i].status.is_ok();
        let key: SortKey = SortKey {
            lead: if ready {
                chars_of(rows[i].rel_target.as_str())
            } else {
                Vec::new()
            },
            first: if ready {
                1
            } else {
                0
            },
            second: if ready {
                0
            } else {
                i as i128
            },
            third: 0,
            fourth: 0,
            words: Vec::new(),
        };
        assert(key@ =~= want[i as int]);
        keys.push(key);
        i += 1;
    }
    assert(order::keys_of(keys@) =~= want);
    let flags: Vec<bool> = repeated(keys.as_slice());
    let ghost done = with_collisions(ss);
    let mut i: usize = 0;
    while i < n
        invariant
            n == rows@.len(),
            n == ss.len(),
            want == Seq::new(ss.len(), |i: int| target_key(ss, i)),
            done == with_collisions(ss),
            flags@.len() == n,
            forall|k: int| 0 <= k < n ==> #[trigger] flags@[k] == clusters::is_repeated(want, k),
            i <= n,
            forall|k: int| 0 <= k < i ==> (#[trigger] rows@[k])@ == done[k],
            forall|k: int| i <= k < n ==> (#[trigger] rows@[k])@ == ss[k],
        decreases n - i,
    {
        assert(rows@[i as int]@ == ss[i as int]);
        proof {
            lemma_collides(ss, i as int);
        }
        if flags[i] {
            let row: PlanRow = PlanRow {
                src: rows[i].src.clone(),
                rel_target: rows[i].rel_target.clone(),
                status: RowStatus::Collision,
            };
            assert(row@ =~= done[i as int]);
            rows.set(i, row);
        }
        i += 1;
    }
    assert(steps_of(rows@) =~= done);
}

proof fn lemma_collides(steps: Seq<Step>, i: int)
    requires
        0 <= i < steps.len(),
    ensures
        collides(steps, i) == clusters::is_repeated(
            Seq::new(steps.len(), |i: int| target_key(steps, i)),
            i,
        ),
{
    let ks = Seq::new(steps.len(), |i: int| target_key(steps, i));
    if collides(steps, i) {
        let j = choose|j: int|
            0 <= j < steps.len() && j != i && (#[trigger] steps[j]).status == Status::Ready
                && steps[j].rel_target == steps[i].rel_target;
        assert(ks[j] == ks[i]);
    }
    if clusters::is_repeated(ks, i) {
        let j = choose|j: int| 0 <= j < ks.len() && j != i && #[trigger] ks[j] == ks[i];
        assert(target_key(steps, j) == target_key(steps, i));
        assert(steps[j].status == Status::Ready && steps[i].status == Status::Ready);
        assert(steps[j].rel_target == steps[i].rel_target);
    }
}

/// Plans the renaming of `files` with a template that meets no invalid date
/// format.
pub fn build_plan(settings: &Settings, files: &[String], metas: &[FileMeta]) -> (r: Plan)
    requires
        files@.len() == metas@.len(),
        all_renderable(template::parsed(settings.template@), metas_of(metas@)),
    ensures
        r.output_root@ == settings.output_root@,
        steps_of(r.rows@) == with_collisions(
            drafts(
                views(files@),
                metas_of(metas@),
                template::parsed(settings.template@),
                settings.append_ext,
            ),
        ),
{
    try_build_plan(settings, files, metas).unwrap()
}

/// Where each row's file goes.
pub fn target_paths(plan: &Plan) -> (r: Vec<String>)
    ensures
        views(r@) == steps_of(plan.rows@).map_values(
            |s: Step| pathname::joined(plan.output_root@, s.rel_target),
        ),
{
    let mut out: Vec<String> = Vec::new();
    let mut i: usize = 0;
    while i < plan.rows.len()
        invariant
            i <= plan.rows@.len(),
            out@.len() == i,
            forall|k: int|
                0 <= k < i ==> (#[trigger] out@[k])@ == pathname::joined(
                    plan.output_root@,
                    plan.rows@[k].rel_target@,
                ),
        decreases plan.rows@.len() - i,
    {
        out.push(join(plan.output_root.as_str(), plan.rows[i].rel_target.as_str()));
        i += 1;
    }
    assert(views(out@) =~= steps_of(plan.rows@).map_values(
        |s: Step| pathname::joined(plan.output_root@, s.rel_target),
    ));
    out
}

/// Marks the rows whose target exists, given whether each row's target does.
pub fn mark_existing(plan: &mut Plan, on_disk: &[bool])
    requires
        on_disk@.len() == old(plan).rows@.len(),
    ensures
        final(plan).output_root@ == old(plan).output_root@,
        steps_of(final(plan).rows@) == with_existing(
            steps_of(old(plan).rows@),
            old(plan).output_root@,
            on_disk@,
        ),
{
    let ghost ss = steps_of(plan.rows@);
    let ghost root = plan.output_root@;
    let ghost done = with_existing(ss, root, on_disk@);
    let n: usize = plan.rows.len();
    let targets: Vec<String> = target_paths(plan);
    assert(views(targets@).len() == n);
    let mut keys: Vec<SortKey> = Vec::new();
    let mut i: usize = 0;
    while i < n
        invariant
            n == plan.rows@.len(),
            *plan == *old(plan),
            ss == steps_of(plan.rows@),
            i <= n,
            keys@.len() == i,
            forall|k: int| 0 <= k < i ==> (#[trigger] keys@[k])@ == path_key(ss[k].src),
        decreases n - i,
    {
        assert(ss[i as int] == plan.rows@[i as int]@);
        keys.push(key_of_path(plan.rows[i].src.as_str()));
        i += 1;
    }
    let ghost goal = |k: int| pathname::joined(root, ss[k].rel_target);
    let mut i: usize = 0;
    while i < n
        invariant
            n == plan.rows@.len(),
            *plan == *old(plan),
            ss == steps_of(plan.rows@),
            n == ss.len(),
            root == plan.output_root@,
            goal == (|k: int| pathname::joined(root, ss[k].rel_target)),
            targets@.len() == n,
            views(targets@) == ss.map_values(|s: Step| pathname::joined(root, s.rel_target)),
            i <= n,
            keys@.len() == n + i,
            forall|k: int| 0 <= k < n ==> (#[trigger] keys@[k])@ == path_key(ss[k].src),
            forall|k: int| n <= k < n + i ==> (#[trigger] keys@[k])@ == path_key(goal(k - n)),
        decreases n - i,
    {
        assert(views(targets@)[i as int] == targets@[i as int]@);
        assert(goal(i as int) == targets@[i as int]@);
        keys.push(key_of_path(targets[i].as_str()));
        i += 1;
    }
    let labels: Vec<usize> = labels_of_keys(keys.as_slice());
    let ghost ks = order::keys_of(keys@);
    assert(order::positions(labels@).len() == keys@.len());
    let mut i: usize = 0;
    while i < n
        invariant
            n == plan.rows@.len(),
            n == ss.len(),
            n == on_disk@.len(),
            plan.output_root@ == root,
            goal == (|k: int| pathname::joined(root, ss[k].rel_target)),
            done == with_existing(ss, root, on_disk@),
            keys@.len() == n + n,
            ks == order::keys_of(keys@),
            order::positions(labels@) == clusters::key_labels(ks),
            labels@.len() == keys@.len(),
            forall|k: int| 0 <= k < n ==> (#[trigger] keys@[k])@ == path_key(ss[k].src),
            forall|k: int| n <= k < n + n ==> (#[trigger] keys@[k])@ == path_key(goal(k - n)),
            i <= n,
            forall|k: int| 0 <= k < i ==> (#[trigger] plan.rows@[k])@ == done[k],
            forall|k: int| i <= k < n ==> (#[trigger] plan.rows@[k])@ == ss[k],
        decreases n - i,
    {
        let at: usize = labels[keys.len() - n + i];
        proof {
            assert(plan.rows@[i as int]@ == ss[i as int]);
            assert(order::positions(labels@)[n + i] == labels@[n + i]);
            lemma_source_label(ss, ks, goal(i as int), n as int, n + i);
        }
        if plan.rows[i].status.is_ok() && on_disk[i] && at >= n {
            let row: PlanRow = PlanRow {
                src: plan.rows[i].src.clone(),
                rel_target: plan.rows[i].rel_target.clone(),
                status: RowStatus::Exists,
            };
            assert(row@ =~= done[i as int]);
            plan.rows.set(i, row);
        }
        i += 1;
    }
    assert(steps_of(plan.rows@) =~= done);
}

proof fn lemma_source_label(
    steps: Seq<Step>,
    ks: Seq<order::Key>,
    path: Seq<char>,
    n: int,
    at: int,
)
    requires
        n == steps.len(),
        n <= at < ks.len(),
        forall|k: int| 0 <= k < n ==> #[trigger] ks[k] == path_key(steps[k].src),
        ks[at] == path_key(path),
    ensures
        is_source(steps, path) == (clusters::key_labels(ks)[at] < n),
{
    clusters::lemma_key_label(ks, at);
    let l = clusters::key_labels(ks)[at];
    if l < n {
        assert(ks[l] == path_key(steps[l].src));
        assert(path_key(steps[l].src).words == path_key(path).words);
    }
    if is_source(steps, path) {
        let j = choose|j: int|
            0 <= j < steps.len() && pathname::components((#[trigger] steps[j]).src)
                == pathname::components(path);
        assert(ks[j] == ks[at]);
    }
}

/// A move that was made, for undoing it.
#[derive(Debug, Clone, PartialEq)]
pub struct UndoEntry {
    pub from: String,
    pub to: String,
}

/// A made move as mathematical values.
pub open spec fn moves_made(entries: Seq<UndoEntry>) -> Seq<(Seq<char>, Seq<char>)> {
    entries.map_values(|e: UndoEntry| (e.from@, e.to@))
}

/// What came of trying to move a file.
#[derive(Debug, Clone)]
pub enum MoveOutcome {
    /// The file was moved.
    Moved,
    /// The folder for it could not be made.
    NoFolder(String),
    /// The file could not be moved.
    NotMoved(String),
}

/// The status that an outcome gives a row.
pub open spec fn status_after(outcome: MoveOutcome) -> Status {
    match outcome {
        MoveOutcome::Moved => Status::Done,
        MoveOutcome::NoFolder(e) => Status::Failed("mkdir: "@ + e@),
        MoveOutcome::NotMoved(e) => Status::Failed(e@),
    }
}

/// The first row from a position on that is to be renamed, or the end.
pub open spec fn next_ready(steps: Seq<Step>, from: int) -> int {
    clusters::first_where(|i: int| steps[i].status == Status::Ready, from, steps.len() as int)
}

/// The next row to rename from position `from` on.
pub fn next_move(plan: &Plan, from: usize) -> (r: Option<usize>)
    requires
        from <= plan.rows@.len(),
    ensures
        match r {
            Some(i) => i == next_ready(steps_of(plan.rows@), from as int) && from <= i
                < plan.rows@.len(),
            None => next_ready(steps_of(plan.rows@), from as int) == plan.rows@.len(),
        },
{
    let ghost ss = steps_of(plan.rows@);
    let ghost p = |i: int| ss[i].status == Status::Ready;
    let n: usize = plan.rows.len();
    let mut i: usize = from;
    while i < n
        invariant
            n == plan.rows@.len(),
            ss == steps_of(plan.rows@),
            p == (|i: int| ss[i].status == Status::Ready),
            from <= i <= n,
            forall|k: int| from <= k < i ==> !#[trigger] p(k),
        decreases n - i,
    {
        assert(ss[i as int] == plan.rows@[i as int]@);
        if plan.rows[i].status.is_ok() {
            proof {
                assert(p(i as int));
                clusters::lemma_first_where(p, from as int, n as int, i as int);
            }
            return Some(i);
        }
        assert(!p(i as int));
        i += 1;
    }
    proof {
        clusters::lemma_first_where(p, from as int, n as int, n as int);
    }
    None
}

/// Where a row's file goes.
pub fn destination(plan: &Plan, row: usize) -> (r: String)
    requires
        row < plan.rows@.len(),
    ensures
        r@ == pathname::joined(plan.output_root@, plan.rows@[row as int].rel_target@),
{
    join(plan.output_root.as_str(), plan.rows[row].rel_target.as_str())
}

/// Records what came of moving a row's file. A move that was made is returned for
/// the undo log.
pub fn record_move(plan: &mut Plan, row: usize, outcome: MoveOutcome) -> (r: Option<UndoEntry>)
    requires
        row < old(plan).rows@.len(),
    ensures
        final(plan).output_root@ == old(plan).output_root@,
        steps_of(final(plan).rows@) == steps_of(old(plan).rows@).update(
            row as int,
            Step { status: status_after(outcome), ..steps_of(old(plan).rows@)[row as int] },
        ),
        r is Some <==> outcome is Moved,
        r matches Some(e) ==> e.from@ == old(plan).rows@[row as int].src@ && e.to@
            == pathname::joined(
            old(plan).output_root@,
            old(plan).rows@[row as int].rel_target@,
        ),
{
    let ghost ss = steps_of(plan.rows@);
    let ghost rows = plan.rows@;
    let src: String = plan.rows[row].src.clone();
    let rel_target: String = plan.rows[row].rel_target.clone();
    let to: String = destination(plan, row);
    let mut entry: Option<UndoEntry> = None;
    let status: RowStatus = match &outcome {
        MoveOutcome::Moved => {
            entry = Some(UndoEntry { from: src.clone(), to });
            RowStatus::Done
        },
        MoveOutcome::NoFolder(e) => {
            let mut message: String = String::new();
            push_text(&mut message, "mkdir: ");
            push_text(&mut message, e.as_str());
            assert(message@ =~= "mkdir: "@ + e@);
            RowStatus::Failed(message)
        },
        MoveOutcome::NotMoved(e) => RowStatus::Failed(e.clone()),
    };
    assert(status@ == status_after(outcome));
    let fresh: PlanRow = PlanRow { src, rel_target, status };
    plan.rows.set(row, fresh);
    assert(steps_of(plan.rows@) =~= ss.update(
        row as int,
        Step { status: status_after(outcome), ..ss[row as int] },
    ));
    entry
}

/// The rows once all that were ready have been tried, with the outcomes for all
/// rows.
pub open spec fn applied(steps: Seq<Step>, outcomes: Seq<MoveOutcome>) -> Seq<Step> {
    Seq::new(
        steps.len(),
        |i: int|
            if steps[i].status == Status::Ready {
                Step { status: status_after(outcomes[i]), ..steps[i] }
            } else {
                steps[i]
            },
    )
}

/// The moves that were made, in order, among the first `n` rows.
pub open spec fn made(
    steps: Seq<Step>,
    root: Seq<char>,
    outcomes: Seq<MoveOutcome>,
    n: int,
) -> Seq<(Seq<char>, Seq<char>)>
    decreases n,
{
    if n <= 0 {
        Seq::empty()
    } else if steps[n - 1].status == Status::Ready && outcomes[n - 1] is Moved {
        made(steps, root, outcomes, n - 1).push(
            (steps[n - 1].src, pathname::joined(root, steps[n - 1].rel_target)),
        )
    } else {
        made(steps, root, outcomes, n - 1)
    }
}

/// Applies the outcomes of moving every file that was to be renamed. Returns the
/// moves that were made.
pub fn apply_plan(plan: &mut Plan, outcomes: &[MoveOutcome]) -> (r: Vec<UndoEntry>)
    requires
        outcomes@.len() == old(plan).rows@.len(),
    ensures
        final(plan).output_root@ == old(plan).output_root@,
        steps_of(final(plan).rows@) == applied(steps_of(old(plan).rows@), outcomes@),
        moves_made(r@) == made(
            steps_of(old(plan).rows@),
            old(plan).output_root@,
            outcomes@,
            outcomes@.len() as int,
        ),
{
    let ghost ss = steps_of(plan.rows@);
    let ghost root = plan.output_root@;
    let ghost done = applied(ss, outcomes@);
    let n: usize = plan.rows.len();
    let mut undo: Vec<UndoEntry> = Vec::new();
    let mut i: usize = 0;
    assert(moves_made(undo@) =~= made(ss, root, outcomes@, 0));
    while i < n
        invariant
            n == plan.rows@.len(),
            n == ss.len(),
            n == outcomes@.len(),
            plan.output_root@ == root,
            done == applied(ss, outcomes@),
            i <= n,
            forall|k: int| 0 <= k < i ==> #[trigger] steps_of(plan.rows@)[k] == done[k],
            forall|k: int| i <= k < n ==> #[trigger] steps_of(plan.rows@)[k] == ss[k],
            moves_made(undo@) == made(ss, root, outcomes@, i as int),
        decreases n - i,
    {
        let ghost before = undo@;
        assert(steps_of(plan.rows@)[i as int] == ss[i as int]);
        assert(plan.rows@[i as int]@ == ss[i as int]);
        if plan.rows[i].status.is_ok() {
            let outcome: MoveOutcome = copy_outcome(&outcomes[i]);
            if let Some(entry) = record_move(plan, i, outcome) {
                let ghost pair = (entry.from@, entry.to@);
                undo.push(entry);
                assert(moves_made(undo@) =~= moves_made(before).push(pair));
            }
            assert(steps_of(plan.rows@).len() == plan.rows@.len());
        }
        i += 1;
    }
    assert(steps_of(plan.rows@) =~= done);
    undo
}

fn copy_outcome(outcome: &MoveOutcome) -> (r: MoveOutcome)
    ensures
        status_after(r) == status_after(*outcome),
        r is Moved <==> *outcome is Moved,
{
    match outcome {
        MoveOutcome::Moved => MoveOutcome::Moved,
        MoveOutcome::NoFolder(e) => MoveOutcome::NoFolder(e.clone()),
        MoveOutcome::NotMoved(e) => MoveOutcome::NotMoved(e.clone()),
    }
}

/// The moves that take moves back: each the other way, the last one first.
pub open spec fn taken_back(moves: Seq<(Seq<char>, Seq<char>)>) -> Seq<(Seq<char>, Seq<char>)> {
    Seq::new(moves.len(), |i: int| (moves[moves.len() - 1 - i].1, moves[moves.len() - 1 - i].0))
}

/// The moves that undo what was made.
pub fn undo_moves(entries: &[UndoEntry]) -> (r: Vec<UndoEntry>)
    ensures
        moves_made(r@) == taken_back(moves_made(entries@)),
{
    let n: usize = entries.len();
    let mut out: Vec<UndoEntry> = Vec::new();
    let mut i: usize = 0;
    while i < n
        invariant
            n == entries@.len(),
            i <= n,
            out@.len() == i,
            forall|k: int|
                0 <= k < i ==> (#[trigger] out@[k]).from@ == entries@[n - 1 - k].to@ && out@[k].to@
                    == entries@[n - 1 - k].from@,
        decreases n - i,
    {
        let e: &UndoEntry = &entries[n - 1 - i];
        out.push(UndoEntry { from: e.to.clone(), to: e.from.clone() });
        i += 1;
    }
    assert(moves_made(out@) =~= taken_back(moves_made(entries@)));
    out
}

/// What came of taking moves back, for the first `n` that were tried: how many were
/// taken back, and a message for each that was not. The last move is tried first.
pub open spec fn undone(
    moves: Seq<(Seq<char>, Seq<char>)>,
    failures: Seq<Option<Seq<char>>>,
    n: int,
) -> (nat, Seq<Seq<char>>)
    decreases n,
{
    if n <= 0 {
        (0, Seq::empty())
    } else {
        let (count, errors) = undone(moves, failures, n - 1);
        match failures[n - 1] {
            None => (count + 1, errors),
            Some(e) => (count, errors.push(moves[moves.len() - n].1 + ": "@ + e)),
        }
    }
}

/// Sums up what came of taking moves back, the last one first: `failures` has the error
/// of each that was not taken back.
pub fn undo(entries: &[UndoEntry], failures: &[Option<String>]) -> (r: (usize, Vec<String>))
    requires
        failures@.len() == entries@.len(),
    ensures
        (r.0 as nat, views(r.1@)) == undone(
            moves_made(entries@),
            failures@.map_values(|f: Option<String>| text::opt_view(f)),
            entries@.len() as int,
        ),
{
    let ghost moves = moves_made(entries@);
    let ghost fs = failures@.map_values(|f: Option<String>| text::opt_view(f));
    let n: usize = entries.len();
    let mut reverted: usize = 0;
    let mut errors: Vec<String> = Vec::new();
    let mut i: usize = 0;
    assert(views(errors@) =~= Seq::<Seq<char>>::empty());
    while i < n
        invariant
            n == entries@.len(),
            n == failures@.len(),
            moves == moves_made(entries@),
            fs == failures@.map_values(|f: Option<String>| text::opt_view(f)),
            i <= n,
            reverted <= i,
            (reverted as nat, views(errors@)) == undone(moves, fs, i as int),
        decreases n - i,
    {
        let ghost before = errors@;
        let e: &UndoEntry = &entries[n - 1 - i];
        assert(moves[n - 1 - i].1 == e.to@);
        assert(fs[i as int] == text::opt_view(failures@[i as int]));
        match &failures[i] {
            None => {
                reverted += 1;
            },
            Some(err) => {
                let mut message: String = e.to.clone();
                push_text(&mut message, ": ");
                push_text(&mut message, err.as_str());
                let ghost m = message@;
                errors.push(message);
                assert(views(errors@) =~= views(before).push(m));
            },
        }
        i += 1;
    }
    (reverted, errors)
}

/// Every move is either taken back or reported.
pub proof fn every_move_is_taken_back_or_reported(
    moves: Seq<(Seq<char>, Seq<char>)>,
    failures: Seq<Option<Seq<char>>>,
    n: int,
)
    requires
        0 <= n,
    ensures
        undone(moves, failures, n).0 + undone(moves, failures, n).1.len() == n,
    decreases n,
{
    if n > 0 {
        every_move_is_taken_back_or_reported(moves, failures, n - 1);
    }
}

/// What is where, by path, once a file is moved.
pub open spec fn after_move<F>(
    files: Map<Seq<char>, F>,
    m: (Seq<char>, Seq<char>),
) -> Map<Seq<char>, F> {
    files.remove(m.0).insert(m.1, files[m.0])
}

/// What is where after the first `n` of some moves.
pub open spec fn after_moves<F>(
    files: Map<Seq<char>, F>,
    moves: Seq<(Seq<char>, Seq<char>)>,
    n: int,
) -> Map<Seq<char>, F>
    decreases n,
{
    if n <= 0 {
        files
    } else {
        after_move(after_moves(files, moves, n - 1), moves[n - 1])
    }
}

/// Whether a file can be moved without overwriting another.
pub open spec fn can_move<F>(files: Map<Seq<char>, F>, m: (Seq<char>, Seq<char>)) -> bool {
    files.contains_key(m.0) && (m.1 == m.0 || !files.contains_key(m.1))
}

proof fn lemma_moving_back<F>(files: Map<Seq<char>, F>, m: (Seq<char>, Seq<char>))
    requires
        can_move(files, m),
    ensures
        can_move(after_move(files, m), (m.1, m.0)),
        after_move(after_move(files, m), (m.1, m.0)) == files,
{
    assert(after_move(after_move(files, m), (m.1, m.0)) =~= files);
}

/// Undoing moves, of which none overwrote a file, puts every file back: after the first
/// `n` moves of the undo everything is where it was before the last `n` moves, and none
/// of these overwrites a file either.
pub proof fn undoing_puts_every_file_back<F>(
    files: Map<Seq<char>, F>,
    moves: Seq<(Seq<char>, Seq<char>)>,
    n: int,
)
    requires
        0 <= n <= moves.len(),
        forall|i: int|
            0 <= i < moves.len() ==> can_move(after_moves(files, moves, i), #[trigger] moves[i]),
    ensures
        after_moves(
            after_moves(files, moves, moves.len() as int),
            taken_back(moves),
            n,
        ) == after_moves(files, moves, moves.len() - n),
        n < moves.len() ==> can_move(
            after_moves(after_moves(files, moves, moves.len() as int), taken_back(moves), n),
            taken_back(moves)[n],
        ),
    decreases n,
{
    let len = moves.len() as int;
    if n > 0 {
        undoing_puts_every_file_back(files, moves, n - 1);
        lemma_moving_back(after_moves(files, moves, len - n), moves[len - n]);
    }
    if n < len {
        lemma_moving_back(after_moves(files, moves, len - 1 - n), moves[len - 1 - n]);
    }
}

/// Taking moves back twice makes them again.
pub proof fn undoing_an_undo_redoes(moves: Seq<(Seq<char>, Seq<char>)>)
    ensures
        taken_back(taken_back(moves)) == moves,
{
    assert(taken_back(taken_back(moves)) =~= moves);
}

/// No two rows of a plan that are to be renamed have the same target, so that no
/// rename can overwrite another.
pub proof fn ready_rows_have_their_own_targets(steps: Seq<Step>, i: int, j: int)
    requires
        0 <= i < steps.len(),
        0 <= j < steps.len(),
        i != j,
        with_collisions(steps)[i].status == Status::Ready,
        with_collisions(steps)[j].status == Status::Ready,
    ensures
        with_collisions(steps)[i].rel_target != with_collisions(steps)[j].rel_target,
{
    if steps[i].rel_target == steps[j].rel_target {
        assert(collides(steps, i));
    }
}

/// Marking existing targets makes no further row ready, and never blocks a file
/// whose target is where it already is.
pub proof fn existing_targets_only_block(
    steps: Seq<Step>,
    root: Seq<char>,
    on_disk: Seq<bool>,
    i: int,
)
    requires
        0 <= i < steps.len(),
    ensures
        with_existing(steps, root, on_disk)[i].status == Status::Ready ==> steps[i].status
            == Status::Ready,
        pathname::components(pathname::joined(root, steps[i].rel_target)) == pathname::components(
            steps[i].src,
        ) ==> with_existing(steps, root, on_disk)[i] == steps[i],
{
}

/// Only rows that were ready change when a plan is applied, and each of them ends
/// as done or failed.
pub proof fn applying_settles_ready_rows(steps: Seq<Step>, outcomes: Seq<MoveOutcome>, i: int)
    requires
        0 <= i < steps.len(),
    ensures
        steps[i].status != Status::Ready ==> applied(steps, outcomes)[i] == steps[i],
        steps[i].status == Status::Ready ==> applied(steps, outcomes)[i].status is Done || applied(
            steps,
            outcomes,
        )[i].status is Failed,
        applied(steps, outcomes)[i].src == steps[i].src,
        applied(steps, outcomes)[i].rel_target == steps[i].rel_target,
{
}

/// A row stays ready only where its target is free: nothing lies there, or what lies
/// there is itself a file that the plan renames.
pub proof fn ready_rows_overwrite_nothing(
    steps: Seq<Step>,
    root: Seq<char>,
    on_disk: Seq<bool>,
    i: int,
)
    requires
        0 <= i < steps.len(),
    ensures
        with_existing(steps, root, on_disk)[i].status == Status::Ready ==> !on_disk[i] || (
        exists|j: int|
            0 <= j < steps.len() && pathname::components((#[trigger] steps[j]).src)
                == pathname::components(pathname::joined(root, steps[i].rel_target))),
        with_existing(steps, root, on_disk)[i].status != steps[i].status ==> steps[i].status
            == Status::Ready && on_disk[i] && with_existing(steps, root, on_disk)[i].status
            == Status::Exists,
        with_existing(steps, root, on_disk)[i].src == steps[i].src,
        with_existing(steps, root, on_disk)[i].rel_target == steps[i].rel_target,
        with_existing(steps, root, on_disk).len() == steps.len(),
{
    if on_disk[i] && is_source(steps, pathname::joined(root, steps[i].rel_target)) {
        let path = pathname::joined(root, steps[i].rel_target);
        let j = choose|j: int|
            0 <= j < steps.len() && pathname::components((#[trigger] steps[j]).src)
                == pathname::components(path);
        assert(0 <= j < steps.len());
    }
}

/// A row is held back for what lies at its target only where something lies there that
/// the plan does not rename.
pub proof fn only_foreign_files_block(
    steps: Seq<Step>,
    root: Seq<char>,
    on_disk: Seq<bool>,
    i: int,
    j: int,
)
    requires
        0 <= i < steps.len(),
        0 <= j < steps.len(),
    ensures
        steps[i].status == Status::Ready && !on_disk[i] ==> with_existing(steps, root, on_disk)[i]
            == steps[i],
        pathname::components(steps[j].src) == pathname::components(
            pathname::joined(root, steps[i].rel_target),
        ) ==> with_existing(steps, root, on_disk)[i] == steps[i],
{
}

/// Two rows that are to be renamed to the same target are both held back, and a row
/// whose target no other row has is not.
pub proof fn collisions_are_between_two_rows(steps: Seq<Step>, i: int)
    requires
        0 <= i < steps.len(),
    ensures
        forall|j: int|
            0 <= j < steps.len() && j != i && steps[i].status == Status::Ready && (
            #[trigger] steps[j]).status == Status::Ready && steps[j].rel_target
                == steps[i].rel_target ==> with_collisions(steps)[i].status == Status::Collision,
        (forall|j: int|
            0 <= j < steps.len() && j != i ==> (#[trigger] steps[j]).status != Status::Ready
                || steps[j].rel_target != steps[i].rel_target) ==> with_collisions(steps)[i]
            == steps[i],
        steps[i].status != Status::Ready ==> with_collisions(steps)[i] == steps[i],
        with_collisions(steps)[i].src == steps[i].src,
        with_collisions(steps)[i].rel_target == steps[i].rel_target,
        with_collisions(steps).len() == steps.len(),
{
    if collides(steps, i) {
        let j = choose|j: int|
            0 <= j < steps.len() && j != i && (#[trigger] steps[j]).status == Status::Ready
                && steps[j].rel_target == steps[i].rel_target;
        assert(0 <= j < steps.len());
    }
}

/// The draft of a file is what its own template text comes to with its own metadata and
/// its number, counted from one; its place in the draft is its place in the list.
pub proof fn drafts_number_files_from_one(
    files: Seq<Seq<char>>,
    metas: Seq<metadata::Meta>,
    t: Seq<template::Piece>,
    append: bool,
    i: int,
)
    requires
        0 <= i < files.len(),
    ensures
        drafts(files, metas, t, append).len() == files.len(),
        drafts(files, metas, t, append)[i].src == files[i],
        drafts(files, metas, t, append)[i].status == Status::Ready <==> template::rendered(
            t,
            metas[i],
            (i + 1) as nat,
        ) is Ok,
        template::rendered(t, metas[i], (i + 1) as nat) matches Err(name) ==> drafts(
            files,
            metas,
            t,
            append,
        )[i].status == Status::Error("no value for {"@ + name + "}"@),
        template::rendered(t, metas[i], (i + 1) as nat) matches Ok(rel) ==> ({
            let target = drafts(files, metas, t, append)[i].rel_target;
            &&& !append || metas[i].ext.len() == 0 ==> target == rel
            &&& append ==> target == rel || target == rel + seq!['.'] + metas[i].ext
        }),
{
    if template::rendered(t, metas[i], (i + 1) as nat) is Ok {
        let rel = template::rendered(t, metas[i], (i + 1) as nat)->Ok_0;
        assert(rel.push('.') + metas[i].ext =~= rel + seq!['.'] + metas[i].ext);
    }
}

/// With its extension added, a target ends in it: either it did before, whatever the
/// case of its letters, and is left alone, or it is added behind a dot.
pub proof fn extensions_are_added_once(rel: Seq<char>, ext: Seq<char>)
    requires
        ext.len() > 0,
    ensures
        with_ext(rel, ext, true) == rel <==> exists|front: Seq<char>|
            text::lowercase(rel) == #[trigger] (front + (seq!['.'] + text::lowercase(ext))),
        with_ext(rel, ext, true) != rel ==> with_ext(rel, ext, true) == rel + seq!['.'] + ext,
        with_ext(rel, ext, false) == rel,
{
    let low = text::lowercase(rel);
    let end = seq!['.'] + text::lowercase(ext);
    assert(rel.push('.') + ext =~= rel + seq!['.'] + ext);
    assert((rel + seq!['.'] + ext).len() > rel.len());
    if text::ends_in(low, end) {
        text::what_is_found_is_a_part(end, low);
        assert(low == low.take(low.len() - end.len()) + end);
    }
    if exists|front: Seq<char>| low == #[trigger] (front + end) {
        let front = choose|front: Seq<char>| low == #[trigger] (front + end);
        text::a_part_of_a_text_is_found(front, end, Seq::empty());
    }
}

/// A folder is renamed by path: of two files the later listed has no lesser path, and
/// only the undo log is left out.
pub proof fn files_are_listed_by_path(paths: Seq<Seq<char>>, i: int, j: int)
    requires
        0 <= i < j < paths.len(),
    ensures
        sorted_paths(paths).len() == paths.len(),
        !order::words_lt(
            pathname::components(sorted_paths(paths)[j]),
            pathname::components(sorted_paths(paths)[i]),
        ),
        sorted_paths(paths).to_multiset() == paths.to_multiset(),
{
    let keys = paths.map_values(|p: Seq<char>| path_key(p));
    let at = order::sorting_goes_by_key(paths, keys);
    assert(at[i] != at[j]);
    order::rearranging_keeps_every_item(paths, keys);
    assert(order::rearranged(paths, keys) =~= sorted_paths(paths));
}

/// Of the files found, the undo log alone is left out.
pub proof fn only_the_undo_log_is_left_out(paths: Seq<Seq<char>>)
    ensures
        without_log(paths) == paths.filter(
            |p: Seq<char>| pathname::file_name(p) != Some(".renamer_undo.log"@),
        ),
    decreases paths.len(),
{
    reveal(Seq::filter);
    if paths.len() > 0 {
        only_the_undo_log_is_left_out(paths.drop_last());
    }
}

/// The log of an applied plan holds the moves that were made, in the order they were
/// made, each from where the file was to its target below the output folder.
pub proof fn the_log_holds_the_moves_made(
    steps: Seq<Step>,
    root: Seq<char>,
    outcomes: Seq<MoveOutcome>,
)
    ensures
        ({
            let ready = Seq::new(steps.len(), |i: int| i).filter(
                |i: int| steps[i].status == Status::Ready && outcomes[i] is Moved,
            );
            made(steps, root, outcomes, steps.len() as int) == ready.map_values(
                |i: int| (steps[i].src, pathname::joined(root, steps[i].rel_target)),
            )
        }),
{
    lemma_moves_made(steps, root, outcomes, steps.len());
}

proof fn lemma_moves_made(
    steps: Seq<Step>,
    root: Seq<char>,
    outcomes: Seq<MoveOutcome>,
    n: nat,
)
    ensures
        made(steps, root, outcomes, n as int) == Seq::new(n, |i: int| i).filter(
            |i: int| steps[i].status == Status::Ready && outcomes[i] is Moved,
        ).map_values(|i: int| (steps[i].src, pathname::joined(root, steps[i].rel_target))),
    decreases n,
{
    reveal(Seq::filter);
    let p = |i: int| steps[i].status == Status::Ready && outcomes[i] is Moved;
    let f = |i: int| (steps[i].src, pathname::joined(root, steps[i].rel_target));
    let all = Seq::new(n, |i: int| i);
    if n > 0 {
        lemma_moves_made(steps, root, outcomes, (n - 1) as nat);
        assert(all.drop_last() =~= Seq::new((n - 1) as nat, |i: int| i));
        assert(all.last() == n - 1);
        let rest = all.drop_last().filter(p);
        if p(n - 1) {
            assert(all.filter(p) == rest.push(n - 1));
            assert(rest.push(n - 1).map_values(f) =~= rest.map_values(f).push(f(n - 1)));
        } else {
            assert(all.filter(p) == rest);
        }
    } else {
        assert(all.filter(p).map_values(f) =~= Seq::empty());
    }
}

/// A row that was ready is done exactly where its file was moved; where it was not, the
/// row says why.
pub proof fn done_rows_were_moved(steps: Seq<Step>, outcomes: Seq<MoveOutcome>, i: int)
    requires
        0 <= i < steps.len(),
        steps[i].status == Status::Ready,
    ensures
        applied(steps, outcomes)[i].status == Status::Done <==> outcomes[i] is Moved,
        outcomes[i] matches MoveOutcome::NoFolder(e) ==> applied(steps, outcomes)[i].status
            == Status::Failed("mkdir: "@ + e@),
        outcomes[i] matches MoveOutcome::NotMoved(e) ==> applied(steps, outcomes)[i].status
            == Status::Failed(e@),
{
}

/// Undoing takes the last move back first: as many files are put back as moves did not
/// fail, and each failure is reported with the place its file is at.
pub proof fn failed_undos_are_named(
    moves: Seq<(Seq<char>, Seq<char>)>,
    failures: Seq<Option<Seq<char>>>,
)
    requires
        moves.len() == failures.len(),
    ensures
        undone(moves, failures, moves.len() as int).0 == failures.filter(
            |f: Option<Seq<char>>| f is None,
        ).len(),
        undone(moves, failures, moves.len() as int).1 == Seq::new(moves.len(), |i: int| i).filter(
            |i: int| failures[i] is Some,
        ).map_values(|i: int| moves[moves.len() - 1 - i].1 + ": "@ + failures[i]->0),
{
    lemma_failed_undos(moves, failures, moves.len());
    assert(failures.take(moves.len() as int) =~= failures);
}

proof fn lemma_failed_undos(
    moves: Seq<(Seq<char>, Seq<char>)>,
    failures: Seq<Option<Seq<char>>>,
    n: nat,
)
    requires
        n <= failures.len(),
    ensures
        undone(moves, failures, n as int).0 == failures.take(n as int).filter(
            |f: Option<Seq<char>>| f is None,
        ).len(),
        undone(moves, failures, n as int).1 == Seq::new(n, |i: int| i).filter(
            |i: int| failures[i] is Some,
        ).map_values(|i: int| moves[moves.len() - 1 - i].1 + ": "@ + failures[i]->0),
    decreases n,
{
    reveal(Seq::filter);
    let q = |f: Option<Seq<char>>| f is None;
    let p = |i: int| failures[i] is Some;
    let f = |i: int| moves[moves.len() - 1 - i].1 + ": "@ + failures[i]->0;
    let all = Seq::new(n, |i: int| i);
    let some = failures.take(n as int);
    if n > 0 {
        lemma_failed_undos(moves, failures, (n - 1) as nat);
        assert(all.drop_last() =~= Seq::new((n - 1) as nat, |i: int| i));
        assert(some.drop_last() =~= failures.take(n - 1));
        assert(some.last() == failures[n - 1]);
        let rest = all.drop_last().filter(p);
        if p(n - 1) {
            assert(all.filter(p) == rest.push(n - 1));
            assert(rest.push(n - 1).map_values(f) =~= rest.map_values(f).push(f(n - 1)));
        } else {
            assert(all.filter(p) == rest);
        }
    } else {
        assert(all.filter(p).map_values(f) =~= Seq::empty());
    }
}

/// The next file to move is the first from a place on whose row is ready; past it, from
/// that place on, there is none before it.
pub proof fn the_next_ready_row_is_the_first(steps: Seq<Step>, from: int, i: int)
    requires
        0 <= from <= i < steps.len(),
        steps[i].status == Status::Ready,
    ensures
        from <= next_ready(steps, from) <= i,
        steps[next_ready(steps, from)].status == Status::Ready,
{
    let p = |i: int| steps[i].status == Status::Ready;
    clusters::lemma_first_is(p, from, steps.len() as int, i);
    assert(p(next_ready(steps, from)));
}

/// A plan counts its rows by how far they are.
pub proof fn plans_count_their_rows(steps: Seq<Step>)
    ensures
        count_steps(steps, is_ready()) == steps.filter(
            |s: Step| s.status == Status::Ready,
        ).len(),
        count_steps(steps, is_done()) == steps.filter(|s: Step| s.status == Status::Done).len(),
        count_steps(steps, is_problem()) == steps.filter(
            |s: Step|
                s.status is Collision || s.status is Exists || s.status is Error
                    || s.status is Failed,
        ).len(),
    decreases steps.len(),
{
    reveal(Seq::filter);
    if steps.len() > 0 {
        plans_count_their_rows(steps.drop_last());
    }
}

/// Where no row is ready from a place on, there is nothing left to move.
pub proof fn nothing_is_moved_without_a_ready_row(steps: Seq<Step>, from: int)
    requires
        0 <= from <= steps.len(),
        forall|i: int| from <= i < steps.len() ==> (#[trigger] steps[i]).status != Status::Ready,
    ensures
        next_ready(steps, from) == steps.len(),
{
    let p = |i: int| steps[i].status == Status::Ready;
    assert forall|i: int| from <= i < steps.len() implies !#[trigger] p(i) by {
        assert(steps[i].status != Status::Ready);
    }
    clusters::lemma_first_where(p, from, steps.len() as int, steps.len() as int);
}

/// A file's plan can be made exactly if the template can be filled in for every file, each
/// with its number counted from one.
pub proof fn plans_need_every_file_to_be_filled_in(
    t: Seq<template::Piece>,
    metas: Seq<metadata::Meta>,
    i: int,
)
    ensures
        all_renderable(t, metas) && 0 <= i < metas.len() ==> template::renderable(
            t,
            metas[i],
            (i + 1) as nat,
        ),
        (forall|k: int|
            0 <= k < metas.len() ==> template::renderable(t, #[trigger] metas[k], (k + 1) as nat))
            ==> all_renderable(t, metas),
{
}

} // verus!
