//! Renaming files on pCloud: reading its listings, planning renames and keeping
//! track of what the server did.
//!
//! Operating through the service means that listing and renaming happen on its
//! servers, and no file contents are downloaded. EXIF is not available this way,
//! so template fields that come from it are not either.
use vstd::prelude::*;

use crate::engine;
use crate::engine::{try_build_plan, MoveOutcome, Plan, PlanRow, RowStatus, Settings};
use crate::metadata;
use crate::metadata::{DateStamp, FileMeta};
use crate::pathname;
use crate::pathname::{ext_of_name, stem_of_name};
use crate::template;
use crate::text;
use crate::text::{
    chars_of, decimal_of, push_signed, push_text, rfind_char, split_of, string_of, trim,
    trim_end_of, trim_of, trim_start_of,
};

verus! {

#[derive(Debug, Clone, Copy, PartialEq, Eq, Structural)]
pub enum Region {
    /// Accounts created in the US data region.
    Us,
    /// Accounts created in the EU data region.
    Eu,
}

impl Region {
    /// Where the region's service is.
    pub fn base(self) -> (r: &'static str)
        ensures
            r@ == (match self {
                Region::Us => "https://api.pcloud.com"@,
                Region::Eu => "https://eapi.pcloud.com"@,
            }),
    {
        match self {
            Region::Us => "https://api.pcloud.com",
            Region::Eu => "https://eapi.pcloud.com",
        }
    }
}

/// What a listing says of one file or folder, each thing where it says it.
#[derive(Debug)]
pub struct RemoteItem {
    pub name: Option<String>,
    pub is_folder: bool,
    pub fileid: Option<u64>,
    pub size: Option<u64>,
    pub created: Option<DateStamp>,
    pub modified: Option<DateStamp>,
    pub width: Option<u64>,
    pub height: Option<u64>,
    pub contents: Option<Vec<RemoteItem>>,
}

/// One remote file that a scan found.
#[derive(Debug, Clone)]
pub struct RemoteFile {
    pub fileid: u64,
    /// Absolute path, such as `/Camera/IMG_0001.jpg`.
    pub path: String,
    pub meta: FileMeta,
}

/// A remote file as mathematical values.
#[verifier::ext_equal]
pub struct Remote {
    pub fileid: u64,
    pub path: Seq<char>,
    pub meta: metadata::Meta,
}

impl View for RemoteFile {
    type V = Remote;

    open spec fn view(&self) -> Remote {
        Remote { fileid: self.fileid, path: self.path@, meta: self.meta@ }
    }
}

/// Remote files as mathematical values.
pub open spec fn remotes_of(files: Seq<RemoteFile>) -> Seq<Remote> {
    files.map_values(|f: RemoteFile| f@)
}

/// A directory in the form the service uses: with a slash in front and none at
/// the end.
pub open spec fn normalized(path: Seq<char>) -> Seq<char> {
    let p = text::trimmed(path);
    if p.len() == 0 || p == seq!['/'] {
        seq!['/']
    } else {
        seq!['/'] + text::trimmed_of(p, '/')
    }
}

/// A directory in the form the service uses.
pub fn normalize_dir(path: &str) -> (r: String)
    ensures
        r@ == normalized(path@),
{
    let p: String = trim(path);
    let v: Vec<char> = chars_of(p.as_str());
    let mut out: String = String::new();
    out.push('/');
    assert(out@ =~= seq!['/']);
    if v.len() == 0 || (v.len() == 1 && v[0] == '/') {
        assert(v@.len() == 1 && v@[0] == '/' ==> p@ =~= seq!['/']);
        return out;
    }
    assert(p@ != seq!['/']) by {
        if p@ == seq!['/'] {
            assert(v@.len() == 1 && v@[0] == '/');
        }
    }
    push_text(&mut out, trim_of(p.as_str(), '/').as_str());
    out
}

/// A name's stem and extension, the latter empty if there is none.
pub fn split_name(name: &str) -> (r: (String, String))
    ensures
        r.0@ == pathname::stem_of(name@),
        r.1@ == metadata::or_empty(pathname::ext_of(name@)),
{
    let ext: String = match ext_of_name(name) {
        Some(e) => e,
        None => String::new(),
    };
    (stem_of_name(name), ext)
}

/// What follows the last slash of a path.
pub open spec fn last_segment(path: Seq<char>) -> Seq<char> {
    path.skip(text::last_index(path, '/') + 1)
}

fn last_segment_of(path: &str) -> (r: String)
    ensures
        r@ == last_segment(path@),
{
    let v: Vec<char> = chars_of(path);
    let n: usize = v.len();
    match rfind_char(v.as_slice(), '/') {
        Some(k) => {
            assert(v@.subrange(k + 1, n as int) =~= path@.skip(k + 1));
            string_of(&v.as_slice()[k + 1..n])
        },
        None => {
            proof {
                lemma_no_slash(path@);
                assert(path@.skip(0) =~= path@);
            }
            string_of(v.as_slice())
        },
    }
}

proof fn lemma_no_slash(s: Seq<char>)
    ensures
        text::last_index(s, '/') < 0 ==> text::last_index(s, '/') == -1,
    decreases s.len(),
{
    if s.len() > 0 {
        lemma_no_slash(s.drop_last());
    }
}

/// A number as optional text.
pub open spec fn opt_decimal(n: Option<u64>) -> Option<Seq<char>> {
    match n {
        Some(x) => Some(text::decimal(x as nat)),
        None => None,
    }
}

/// The metadata of a listed file. What only EXIF could tell stays absent.
pub open spec fn item_meta(item: RemoteItem, name: Seq<char>, dir: Seq<char>) -> metadata::Meta {
    metadata::Meta {
        name: pathname::stem_of(name),
        ext: metadata::or_empty(pathname::ext_of(name)),
        parent: last_segment(dir),
        size: match item.size {
            Some(s) => s,
            None => 0,
        },
        date_created: item.created,
        date_modified: item.modified,
        width: opt_decimal(item.width),
        height: opt_decimal(item.height),
        ..metadata::blank_meta()
    }
}

fn decimal_opt(n: Option<u64>) -> (r: Option<String>)
    ensures
        text::opt_view(r) == opt_decimal(n),
{
    match n {
        Some(x) => Some(decimal_of(x)),
        None => None,
    }
}

/// The metadata of a listed file.
pub fn meta_from_item(item: &RemoteItem, name: &str, dir: &str) -> (r: FileMeta)
    ensures
        r@ == item_meta(*item, name@, dir@),
{
    let (stem, ext) = split_name(name);
    let mut m: FileMeta = FileMeta::default();
    m.name = stem;
    m.ext = ext;
    m.parent = last_segment_of(dir);
    m.size = match item.size {
        Some(s) => s,
        None => 0,
    };
    m.date_created = item.created;
    m.date_modified = item.modified;
    m.width = decimal_opt(item.width);
    m.height = decimal_opt(item.height);
    m
}

/// The path of something in a directory.
pub open spec fn child_path(dir: Seq<char>, name: Seq<char>) -> Seq<char> {
    if dir == seq!['/'] {
        dir + name
    } else {
        dir.push('/') + name
    }
}

/// The files in a listing, with those of its folders, in order. Anything without
/// a name is left out, and so is a file without a number.
pub open spec fn collected(items: Seq<RemoteItem>, dir: Seq<char>) -> Seq<Remote>
    decreases items,
{
    if items.len() == 0 {
        Seq::empty()
    } else {
        let item = items[items.len() - 1];
        let rest = collected(items.subrange(0, items.len() - 1), dir);
        let name = metadata::or_empty(text::opt_view(item.name));
        let path = child_path(dir, name);
        if name.len() == 0 {
            rest
        } else if item.is_folder {
            match item.contents {
                Some(inner) => rest + collected(inner@, path),
                None => rest,
            }
        } else {
            match item.fileid {
                Some(fileid) => rest.push(
                    Remote { fileid, path, meta: item_meta(item, name, dir) },
                ),
                None => rest,
            }
        }
    }
}

fn child_path_of(dir: &str, name: &str) -> (r: String)
    ensures
        r@ == child_path(dir@, name@),
{
    let v: Vec<char> = chars_of(dir);
    let mut out: String = string_of(v.as_slice());
    if !(v.len() == 1 && v[0] == '/') {
        assert(dir@ != seq!['/']) by {
            if dir@ == seq!['/'] {
                assert(v@.len() == 1 && v@[0] == '/');
            }
        }
        out.push('/');
    } else {
        assert(dir@ =~= seq!['/']);
    }
    push_text(&mut out, name);
    out
}

/// Appends the files in a listing, with those of its folders.
pub fn collect(items: &Vec<RemoteItem>, dir: &str, out: &mut Vec<RemoteFile>)
    ensures
        remotes_of(final(out)@) == remotes_of(old(out)@) + collected(items@, dir@),
    decreases items,
{
    let ghost base = remotes_of(out@);
    let mut i: usize = 0;
    assert(items@.subrange(0, 0) =~= Seq::<RemoteItem>::empty());
    assert(base + collected(items@.subrange(0, 0), dir@) =~= base);
    while i < items.len()
        invariant
            i <= items@.len(),
            remotes_of(out@) == base + collected(items@.subrange(0, i as int), dir@),
        decreases items@.len() - i,
    {
        let item: &RemoteItem = &items[i];
        let ghost before = out@;
        let ghost upto = items@.subrange(0, i + 1);
        proof {
            assert(upto.subrange(0, i as int) =~= items@.subrange(0, i as int));
            assert(upto[upto.len() - 1] == *item);
        }
        let name: String = match &item.name {
            Some(s) => s.clone(),
            None => String::new(),
        };
        if !name.as_str().is_empty() {
            let path: String = child_path_of(dir, name.as_str());
            if item.is_folder {
                if let Some(inner) = &item.contents {
                    proof {
                        assert(decreases_to!(items => items@));
                        assert(decreases_to!(items@ => items@[i as int]));
                    }
                    collect(inner, path.as_str(), out);
                    assert(remotes_of(out@) =~= base + collected(upto, dir@));
                }
            } else if let Some(fileid) = item.fileid {
                let meta: FileMeta = meta_from_item(item, name.as_str(), dir);
                let file: RemoteFile = RemoteFile { fileid, path, meta };
                let ghost f = file@;
                out.push(file);
                assert(remotes_of(out@) =~= remotes_of(before).push(f));
                assert(remotes_of(out@) =~= base + collected(upto, dir@));
            }
        }
        i += 1;
    }
    assert(items@.subrange(0, i as int) =~= items@);
}

/// What is wrong with a response: nothing if its result is zero, and otherwise
/// the service's own error, or that there is no result at all.
pub open spec fn response_error(result: Option<int>, error: Option<Seq<char>>) -> Option<Seq<char>> {
    match result {
        Some(code) => if code == 0 {
            None
        } else {
            Some(
                "pCloud error "@ + text::decimal_int(code) + ": "@ + (match error {
                    Some(e) => e,
                    None => "unknown error"@,
                }),
            )
        },
        None => Some("malformed pCloud response (no result field)"@),
    }
}

/// Checks a response's result and error fields, where it has them.
pub fn check_result(result: Option<i64>, error: Option<&str>) -> (r: Result<(), String>)
    ensures
        match r {
            Ok(_) => response_error(
                match result {
                    Some(c) => Some(c as int),
                    None => None,
                },
                text::opt_str(error),
            ) is None,
            Err(e) => response_error(
                match result {
                    Some(c) => Some(c as int),
                    None => None,
                },
                text::opt_str(error),
            ) == Some(e@),
        },
{
    match result {
        Some(code) => {
            if code == 0 {
                return Ok(());
            }
            let message: &str = match error {
                Some(e) => e,
                None => "unknown error",
            };
            let mut out: String = String::new();
            push_text(&mut out, "pCloud error ");
            push_signed(&mut out, code);
            push_text(&mut out, ": ");
            push_text(&mut out, message);
            assert(out@ =~= "pCloud error "@ + text::decimal_int(code as int) + ": "@ + message@);
            Err(out)
        },
        None => {
            let mut out: String = String::new();
            push_text(&mut out, "malformed pCloud response (no result field)");
            assert(out@ =~= "malformed pCloud response (no result field)"@);
            Err(out)
        },
    }
}

/// The token that a reply to logging in holds, or what is wrong with the reply.
pub open spec fn token_of(
    result: Option<int>,
    error: Option<Seq<char>>,
    token: Option<Seq<char>>,
) -> Result<Seq<char>, Seq<char>> {
    match response_error(result, error) {
        Some(e) => Err(e),
        None => match token {
            Some(t) => Ok(t),
            None => Err("login succeeded but no auth token returned"@),
        },
    }
}

/// Takes the token out of a reply to logging in, given those of its fields that it has.
pub fn login_reply(result: Option<i64>, error: Option<&str>, token: Option<&str>) -> (r: Result<
    String,
    String,
>)
    ensures
        match (
            r,
            token_of(
                match result {
                    Some(c) => Some(c as int),
                    None => None,
                },
                text::opt_str(error),
                text::opt_str(token),
            ),
        ) {
            (Ok(t), Ok(want)) => t@ == want,
            (Err(e), Err(want)) => e@ == want,
            _ => false,
        },
{
    match check_result(result, error) {
        Err(e) => Err(e),
        Ok(_) => match token {
            Some(t) => {
                let mut out: String = String::new();
                push_text(&mut out, t);
                assert(out@ =~= t@);
                Ok(out)
            },
            None => {
                let mut out: String = String::new();
                push_text(&mut out, "login succeeded but no auth token returned");
                assert(out@ =~= "login succeeded but no auth token returned"@);
                Err(out)
            },
        },
    }
}

/// A planned rename on the server, by file number.
#[derive(Debug, Clone)]
pub struct RemoteRow {
    pub fileid: u64,
    pub from_path: String,
    pub display_name: String,
    pub rel_target: String,
    pub status: RowStatus,
}

/// A planned remote rename as mathematical values.
#[verifier::ext_equal]
pub struct RemoteStep {
    pub fileid: u64,
    pub display_name: Seq<char>,
    pub step: engine::Step,
}

impl View for RemoteRow {
    type V = RemoteStep;

    open spec fn view(&self) -> RemoteStep {
        RemoteStep {
            fileid: self.fileid,
            display_name: self.display_name@,
            step: engine::Step {
                src: self.from_path@,
                rel_target: self.rel_target@,
                status: self.status@,
            },
        }
    }
}

/// Planned remote renames as mathematical values.
pub open spec fn remote_steps(rows: Seq<RemoteRow>) -> Seq<RemoteStep> {
    rows.map_values(|r: RemoteRow| r@)
}

/// The plain plan rows of planned remote renames.
pub open spec fn plain_steps(steps: Seq<RemoteStep>) -> Seq<engine::Step> {
    steps.map_values(|s: RemoteStep| s.step)
}

#[derive(Debug, Clone)]
pub struct RemotePlan {
    pub rows: Vec<RemoteRow>,
    /// Absolute path that the targets are placed under.
    pub base: String,
}

/// The rows of a plan for remote files.
pub open spec fn planned(
    files: Seq<Remote>,
    t: Seq<template::Piece>,
    append: bool,
) -> Seq<RemoteStep> {
    let steps = engine::with_collisions(
        engine::drafts(
            files.map_values(|f: Remote| f.path),
            files.map_values(|f: Remote| f.meta),
            t,
            append,
        ),
    );
    Seq::new(
        files.len(),
        |i: int|
            RemoteStep {
                fileid: files[i].fileid,
                display_name: last_segment(files[i].path),
                step: steps[i],
            },
    )
}

/// Plans the renaming of remote files. Rows that get the same target are marked;
/// whether a target exists already is not asked, since that would cost calls.
/// There is no plan where the template meets a date format that is not valid.
pub fn try_build_remote_plan(
    files: &[RemoteFile],
    base: &str,
    template_str: &str,
    append_ext: bool,
) -> (r: Option<RemotePlan>)
    ensures
        r is Some <==> engine::all_renderable(
            template::parsed(template_str@),
            remotes_of(files@).map_values(|f: Remote| f.meta),
        ),
        r is Some ==> r->0.base@ == normalized(base@) && remote_steps(r->0.rows@) == planned(
            remotes_of(files@),
            template::parsed(template_str@),
            append_ext,
        ),
{
    let ghost fs = remotes_of(files@);
    let n: usize = files.len();
    let mut paths: Vec<String> = Vec::new();
    let mut metas: Vec<FileMeta> = Vec::new();
    let mut i: usize = 0;
    while i < n
        invariant
            n == files@.len(),
            fs == remotes_of(files@),
            i <= n,
            paths@.len() == i,
            metas@.len() == i,
            forall|k: int| 0 <= k < i ==> (#[trigger] paths@[k])@ == fs[k].path,
            forall|k: int| 0 <= k < i ==> (#[trigger] metas@[k])@ == fs[k].meta,
        decreases n - i,
    {
        assert(fs[i as int] == files@[i as int]@);
        paths.push(files[i].path.clone());
        metas.push(copy_meta(&files[i].meta));
        i += 1;
    }
    assert(engine::views(paths@) =~= fs.map_values(|f: Remote| f.path));
    assert(engine::metas_of(metas@) =~= fs.map_values(|f: Remote| f.meta));
    let settings: Settings = Settings {
        source: String::new(),
        output_root: String::new(),
        template: string_of(chars_of(template_str).as_slice()),
        recursive: false,
        append_ext,
    };
    let plan: Plan = match try_build_plan(&settings, paths.as_slice(), metas.as_slice()) {
        Some(plan) => plan,
        None => {
            return None;
        },
    };
    let ghost steps = engine::steps_of(plan.rows@);
    let ghost want = planned(fs, template::parsed(template_str@), append_ext);
    assert(steps.len() == n);
    assert(plan.rows@.len() == n);
    let mut rows: Vec<RemoteRow> = Vec::new();
    let mut i: usize = 0;
    while i < n
        invariant
            n == files@.len(),
            n == plan.rows@.len(),
            fs == remotes_of(files@),
            steps == engine::steps_of(plan.rows@),
            want == planned(fs, template::parsed(template_str@), append_ext),
            steps == engine::with_collisions(
                engine::drafts(
                    fs.map_values(|f: Remote| f.path),
                    fs.map_values(|f: Remote| f.meta),
                    template::parsed(template_str@),
                    append_ext,
                ),
            ),
            i <= n,
            rows@.len() == i,
            forall|k: int| 0 <= k < i ==> (#[trigger] rows@[k])@ == want[k],
        decreases n - i,
    {
        assert(fs[i as int] == files@[i as int]@);
        let row: &PlanRow = &plan.rows[i];
        assert(steps[i as int] == row@);
        let remote: RemoteRow = RemoteRow {
            fileid: files[i].fileid,
            from_path: row.src.clone(),
            display_name: last_segment_of(files[i].path.as_str()),
            rel_target: row.rel_target.clone(),
            status: copy_status(&row.status),
        };
        assert(remote@ =~= want[i as int]);
        rows.push(remote);
        i += 1;
    }
    assert(remote_steps(rows@) =~= want);
    Some(RemotePlan { rows, base: normalize_dir(base) })
}

fn copy_status(status: &RowStatus) -> (r: RowStatus)
    ensures
        r@ == status@,
{
    match status {
        RowStatus::Ready => RowStatus::Ready,
        RowStatus::Collision => RowStatus::Collision,
        RowStatus::Exists => RowStatus::Exists,
        RowStatus::Error(e) => RowStatus::Error(e.clone()),
        RowStatus::Done => RowStatus::Done,
        RowStatus::Failed(e) => RowStatus::Failed(e.clone()),
    }
}

fn copy_meta(m: &FileMeta) -> (r: FileMeta)
    ensures
        r@ == m@,
{
    FileMeta {
        name: m.name.clone(),
        ext: m.ext.clone(),
        parent: m.parent.clone(),
        size: m.size,
        date_taken: m.date_taken,
        date_created: m.date_created,
        date_modified: m.date_modified,
        date_accessed: m.date_accessed,
        camera_make: text::clone_opt(&m.camera_make),
        camera_model: text::clone_opt(&m.camera_model),
        lens: text::clone_opt(&m.lens),
        iso: text::clone_opt(&m.iso),
        width: text::clone_opt(&m.width),
        height: text::clone_opt(&m.height),
        lat: m.lat,
        lon: m.lon,
    }
}

/// Plans the renaming of remote files with a template that meets no invalid date
/// format.
pub fn build_remote_plan(
    files: &[RemoteFile],
    base: &str,
    template_str: &str,
    append_ext: bool,
) -> (r: RemotePlan)
    requires
        engine::all_renderable(
            template::parsed(template_str@),
            remotes_of(files@).map_values(|f: Remote| f.meta),
        ),
    ensures
        r.base@ == normalized(base@),
        remote_steps(r.rows@) == planned(
            remotes_of(files@),
            template::parsed(template_str@),
            append_ext,
        ),
{
    try_build_remote_plan(files, base, template_str, append_ext).unwrap()
}

impl RemotePlan {
    /// How many rows are to be renamed.
    pub fn ok_count(&self) -> (r: usize)
        ensures
            r == engine::count_steps(plain_steps(remote_steps(self.rows@)), engine::is_ready()),
    {
        let ghost ss = plain_steps(remote_steps(self.rows@));
        let mut count: usize = 0;
        let mut i: usize = 0;
        assert(ss.take(0) =~= Seq::<engine::Step>::empty());
        while i < self.rows.len()
            invariant
                ss == plain_steps(remote_steps(self.rows@)),
                i <= self.rows@.len(),
                count <= i,
                count == engine::count_steps(ss.take(i as int), engine::is_ready()),
            decreases self.rows@.len() - i,
        {
            assert(ss.take(i + 1).drop_last() =~= ss.take(i as int));
            assert(ss.take(i + 1).last() == self.rows@[i as int]@.step);
            if self.rows[i].status.is_ok() {
                count += 1;
            }
            i += 1;
        }
        assert(ss.take(i as int) =~= ss);
        count
    }

    /// How many rows have a problem.
    pub fn problem_count(&self) -> (r: usize)
        ensures
            r == engine::count_steps(plain_steps(remote_steps(self.rows@)), engine::is_problem()),
    {
        let ghost ss = plain_steps(remote_steps(self.rows@));
        let mut count: usize = 0;
        let mut i: usize = 0;
        assert(ss.take(0) =~= Seq::<engine::Step>::empty());
        while i < self.rows.len()
            invariant
                ss == plain_steps(remote_steps(self.rows@)),
                i <= self.rows@.len(),
                count <= i,
                count == engine::count_steps(ss.take(i as int), engine::is_problem()),
            decreases self.rows@.len() - i,
        {
            assert(ss.take(i + 1).drop_last() =~= ss.take(i as int));
            assert(ss.take(i + 1).last() == self.rows@[i as int]@.step);
            let problem: bool = match &self.rows[i].status {
                RowStatus::Ready => false,
                RowStatus::Done => false,
                _ => true,
            };
            if problem {
                count += 1;
            }
            i += 1;
        }
        assert(ss.take(i as int) =~= ss);
        count
    }
}

/// Where a row's file goes: the target under the base, with one slash between.
pub open spec fn remote_target(base: Seq<char>, rel: Seq<char>) -> Seq<char> {
    text::cut_while(base, text::same_as('/')).push('/') + text::skip_while(
        rel,
        text::same_as('/'),
    )
}

/// Where a row's file goes.
pub fn remote_destination(base: &str, rel_target: &str) -> (r: String)
    ensures
        r@ == remote_target(base@, rel_target@),
{
    let mut out: String = trim_end_of(base, '/');
    out.push('/');
    push_text(&mut out, trim_start_of(rel_target, '/').as_str());
    out
}

/// The segments of a path that are not empty.
pub open spec fn solid(segments: Seq<Seq<char>>) -> Seq<Seq<char>>
    decreases segments.len(),
{
    if segments.len() == 0 {
        Seq::empty()
    } else if segments.last().len() == 0 {
        solid(segments.drop_last())
    } else {
        solid(segments.drop_last()).push(segments.last())
    }
}

/// The absolute path made of the first `n` of some names.
pub open spec fn absolute(names: Seq<Seq<char>>, n: int) -> Seq<char>
    decreases n,
{
    if n <= 0 {
        Seq::empty()
    } else {
        absolute(names, n - 1).push('/') + names[n - 1]
    }
}

/// A folder's ancestors from the top down, and itself: what has to be made for it
/// to exist.
pub open spec fn ancestors_of(path: Seq<char>) -> Seq<Seq<char>> {
    let names = solid(text::split(text::trimmed_of(path, '/'), '/'));
    Seq::new(names.len(), |i: int| absolute(names, i + 1))
}

/// A folder's ancestors from the top down, and itself.
pub fn folder_ancestors(path: &str) -> (r: Vec<String>)
    ensures
        engine::views(r@) == ancestors_of(path@),
{
    let trimmed: Vec<char> = chars_of(trim_of(path, '/').as_str());
    let segments: Vec<Vec<char>> = split_of(trimmed.as_slice(), '/');
    let ghost segs = text::texts(segments@);
    let ghost names = solid(segs);
    let mut out: Vec<String> = Vec::new();
    let mut so_far: String = String::new();
    let mut i: usize = 0;
    assert(segs.take(0) =~= Seq::<Seq<char>>::empty());
    assert(so_far@ =~= absolute(solid(segs.take(0)), 0));
    while i < segments.len()
        invariant
            segs == text::texts(segments@),
            i <= segments@.len(),
            out@.len() == solid(segs.take(i as int)).len(),
            so_far@ == absolute(solid(segs.take(i as int)), out@.len() as int),
            forall|k: int|
                0 <= k < out@.len() ==> (#[trigger] out@[k])@ == absolute(
                    solid(segs.take(i as int)),
                    k + 1,
                ),
        decreases segments@.len() - i,
    {
        let ghost before = solid(segs.take(i as int));
        let ghost after = solid(segs.take(i + 1));
        let ghost out_before = out@;
        proof {
            assert(segs.take(i + 1).drop_last() =~= segs.take(i as int));
            assert(segs.take(i + 1).last() == segments@[i as int]@);
        }
        if segments[i].len() > 0 {
            so_far.push('/');
            push_text(&mut so_far, string_of(segments[i].as_slice()).as_str());
            proof {
                lemma_absolute_prefix(before, after, before.len() as int);
            }
            out.push(so_far.clone());
            proof {
                assert forall|k: int| 0 <= k < out@.len() implies (#[trigger] out@[k])@ == absolute(
                    after,
                    k + 1,
                ) by {
                    if k < before.len() {
                        assert(out@[k] == out_before[k]);
                        lemma_absolute_prefix(before, after, k + 1);
                    }
                }
            }
        }
        i += 1;
    }
    assert(segs.take(i as int) =~= segs);
    assert(engine::views(out@) =~= ancestors_of(path@));
    out
}

proof fn lemma_absolute_prefix(a: Seq<Seq<char>>, b: Seq<Seq<char>>, n: int)
    requires
        0 <= n <= a.len() <= b.len(),
        forall|i: int| 0 <= i < a.len() ==> a[i] == b[i],
    ensures
        absolute(a, n) == absolute(b, n),
    decreases n,
{
    if n > 0 {
        lemma_absolute_prefix(a, b, n - 1);
    }
}

/// The folder that a target is in.
pub open spec fn remote_parent(to: Seq<char>) -> Seq<char> {
    let slash = text::last_index(to, '/');
    if slash < 0 {
        Seq::empty()
    } else {
        to.take(slash)
    }
}

/// The folders that have to exist before a file can go to `to`, from the top
/// down.
pub fn folders_for(to: &str) -> (r: Vec<String>)
    ensures
        engine::views(r@) == ancestors_of(remote_parent(to@)),
{
    let v: Vec<char> = chars_of(to);
    match rfind_char(v.as_slice(), '/') {
        Some(k) => {
            assert(v@.subrange(0, k as int) =~= to@.take(k as int));
            folder_ancestors(string_of(&v.as_slice()[0..k]).as_str())
        },
        None => {
            let none: String = String::new();
            assert(none@ =~= Seq::<char>::empty());
            folder_ancestors(none.as_str())
        },
    }
}

/// A move that the server made, for undoing it.
#[derive(Debug, Clone)]
pub struct RemoteUndo {
    pub fileid: u64,
    pub from_path: String,
    pub to_path: String,
}

/// Moves that the server made as mathematical values.
pub open spec fn remote_moves(entries: Seq<RemoteUndo>) -> Seq<(u64, Seq<char>, Seq<char>)> {
    entries.map_values(|e: RemoteUndo| (e.fileid, e.from_path@, e.to_path@))
}

/// The rows once all that were ready have been tried, with the outcomes for all
/// rows.
pub open spec fn remote_applied(steps: Seq<RemoteStep>, outcomes: Seq<MoveOutcome>) -> Seq<
    RemoteStep,
> {
    Seq::new(
        steps.len(),
        |i: int|
            if steps[i].step.status == engine::Status::Ready {
                RemoteStep {
                    step: engine::Step {
                        status: engine::status_after(outcomes[i]),
                        ..steps[i].step
                    },
                    ..steps[i]
                }
            } else {
                steps[i]
            },
    )
}

/// The moves that the server made among the first `n` rows.
pub open spec fn remote_made(
    steps: Seq<RemoteStep>,
    base: Seq<char>,
    outcomes: Seq<MoveOutcome>,
    n: int,
) -> Seq<(u64, Seq<char>, Seq<char>)>
    decreases n,
{
    if n <= 0 {
        Seq::empty()
    } else if steps[n - 1].step.status == engine::Status::Ready && outcomes[n - 1] is Moved {
        remote_made(steps, base, outcomes, n - 1).push(
            (
                steps[n - 1].fileid,
                steps[n - 1].step.src,
                remote_target(base, steps[n - 1].step.rel_target),
            ),
        )
    } else {
        remote_made(steps, base, outcomes, n - 1)
    }
}

/// Records what came of a row's rename on the server. A move that was made is
/// returned for undoing it.
pub fn record_remote(plan: &mut RemotePlan, row: usize, outcome: &MoveOutcome) -> (r: Option<
    RemoteUndo,
>)
    requires
        row < old(plan).rows@.len(),
    ensures
        final(plan).base@ == old(plan).base@,
        remote_steps(final(plan).rows@) == remote_steps(old(plan).rows@).update(
            row as int,
            RemoteStep {
                step: engine::Step {
                    status: engine::status_after(*outcome),
                    ..old(plan).rows@[row as int]@.step
                },
                ..old(plan).rows@[row as int]@
            },
        ),
        r is Some <==> *outcome is Moved,
        r matches Some(e) ==> e.fileid == old(plan).rows@[row as int].fileid && e.from_path@
            == old(plan).rows@[row as int].from_path@ && e.to_path@ == remote_target(
            old(plan).base@,
            old(plan).rows@[row as int].rel_target@,
        ),
{
    let ghost ss = remote_steps(plan.rows@);
    let fileid: u64 = plan.rows[row].fileid;
    let from_path: String = plan.rows[row].from_path.clone();
    let rel_target: String = plan.rows[row].rel_target.clone();
    let display_name: String = plan.rows[row].display_name.clone();
    let to_path: String = remote_destination(plan.base.as_str(), rel_target.as_str());
    let mut entry: Option<RemoteUndo> = None;
    let status: RowStatus = match outcome {
        MoveOutcome::Moved => {
            entry = Some(RemoteUndo { fileid, from_path: from_path.clone(), to_path });
            RowStatus::Done
        },
        MoveOutcome::NoFolder(e) => {
            let mut message: String = String::new();
            push_text(&mut message, "mkdir: ");
            push_text(&mut message, e.as_str());
            assert(message@ =~= "mkdir: "@ + e@);
            RowStatus::Failed(message)
        },
        MoveOutcome::NotMoved(e) => RowStatus::Failed(e.clone()),
    };
    let fresh: RemoteRow = RemoteRow { fileid, from_path, display_name, rel_target, status };
    let ghost f = fresh@;
    plan.rows.set(row, fresh);
    assert(remote_steps(plan.rows@) =~= ss.update(row as int, f));
    entry
}

/// Applies the outcomes of renaming every file that was ready. Returns the moves
/// that the server made.
pub fn apply_remote_plan(plan: &mut RemotePlan, outcomes: &[MoveOutcome]) -> (r: Vec<RemoteUndo>)
    requires
        outcomes@.len() == old(plan).rows@.len(),
    ensures
        final(plan).base@ == old(plan).base@,
        remote_steps(final(plan).rows@) == remote_applied(
            remote_steps(old(plan).rows@),
            outcomes@,
        ),
        remote_moves(r@) == remote_made(
            remote_steps(old(plan).rows@),
            old(plan).base@,
            outcomes@,
            outcomes@.len() as int,
        ),
{
    let ghost ss = remote_steps(plan.rows@);
    let ghost base = plan.base@;
    let ghost done = remote_applied(ss, outcomes@);
    let n: usize = plan.rows.len();
    let mut undo: Vec<RemoteUndo> = Vec::new();
    let mut i: usize = 0;
    assert(remote_moves(undo@) =~= remote_made(ss, base, outcomes@, 0));
    while i < n
        invariant
            n == plan.rows@.len(),
            n == ss.len(),
            n == outcomes@.len(),
            plan.base@ == base,
            done == remote_applied(ss, outcomes@),
            i <= n,
            forall|k: int| 0 <= k < i ==> #[trigger] remote_steps(plan.rows@)[k] == done[k],
            forall|k: int| i <= k < n ==> #[trigger] remote_steps(plan.rows@)[k] == ss[k],
            remote_moves(undo@) == remote_made(ss, base, outcomes@, i as int),
        decreases n - i,
    {
        let ghost before = undo@;
        assert(remote_steps(plan.rows@)[i as int] == ss[i as int]);
        assert(plan.rows@[i as int]@ == ss[i as int]);
        if plan.rows[i].status.is_ok() {
            if let Some(entry) = record_remote(plan, i, &outcomes[i]) {
                let ghost made = (entry.fileid, entry.from_path@, entry.to_path@);
                undo.push(entry);
                assert(remote_moves(undo@) =~= remote_moves(before).push(made));
            }
            assert(remote_steps(plan.rows@).len() == plan.rows@.len());
        }
        i += 1;
    }
    assert(remote_steps(plan.rows@) =~= done);
    undo
}

/// What came of taking moves back: how many were, and a message for each that was
/// not, for the first `n` of the outcomes. The last move is taken back first.
pub open spec fn taken_back(
    moves: Seq<(u64, Seq<char>, Seq<char>)>,
    failures: Seq<Option<Seq<char>>>,
    n: int,
) -> (nat, Seq<Seq<char>>)
    decreases n,
{
    if n <= 0 {
        (0, Seq::empty())
    } else {
        let (count, errors) = taken_back(moves, failures, n - 1);
        match failures[n - 1] {
            None => (count + 1, errors),
            Some(e) => (count, errors.push(moves[moves.len() - n].2 + ": "@ + e)),
        }
    }
}

/// Sums up what came of taking moves back, the last one first: `failures` has the
/// error of each that was not taken back.
pub fn undo_remote(entries: &[RemoteUndo], failures: &[Option<String>]) -> (r: (usize, Vec<String>))
    requires
        failures@.len() == entries@.len(),
    ensures
        (r.0 as nat, engine::views(r.1@)) == taken_back(
            remote_moves(entries@),
            failures@.map_values(|f: Option<String>| text::opt_view(f)),
            entries@.len() as int,
        ),
{
    let ghost moves = remote_moves(entries@);
    let ghost fs = failures@.map_values(|f: Option<String>| text::opt_view(f));
    let n: usize = entries.len();
    let mut reverted: usize = 0;
    let mut errors: Vec<String> = Vec::new();
    let mut i: usize = 0;
    assert(engine::views(errors@) =~= Seq::<Seq<char>>::empty());
    while i < n
        invariant
            n == entries@.len(),
            n == failures@.len(),
            moves == remote_moves(entries@),
            fs == failures@.map_values(|f: Option<String>| text::opt_view(f)),
            i <= n,
            reverted <= i,
            (reverted as nat, engine::views(errors@)) == taken_back(moves, fs, i as int),
        decreases n - i,
    {
        let ghost before = errors@;
        let e: &RemoteUndo = &entries[n - 1 - i];
        assert(moves[n - 1 - i].2 == e.to_path@);
        assert(fs[i as int] == text::opt_view(failures@[i as int]));
        match &failures[i] {
            None => {
                reverted += 1;
            },
            Some(err) => {
                let mut message: String = e.to_path.clone();
                push_text(&mut message, ": ");
                push_text(&mut message, err.as_str());
                let ghost m = message@;
                errors.push(message);
                assert(engine::views(errors@) =~= engine::views(before).push(m));
            },
        }
        i += 1;
    }
    (reverted, errors)
}

/// Every move is either taken back or reported.
pub proof fn every_undo_is_accounted_for(
    moves: Seq<(u64, Seq<char>, Seq<char>)>,
    failures: Seq<Option<Seq<char>>>,
    n: int,
)
    requires
        0 <= n,
    ensures
        taken_back(moves, failures, n).0 + taken_back(moves, failures, n).1.len() == n,
    decreases n,
{
    if n > 0 {
        every_undo_is_accounted_for(moves, failures, n - 1);
    }
}

/// A normalized directory starts with a slash, and has none at its end unless it
/// is the root.
pub proof fn normalized_directories_have_one_form(path: Seq<char>)
    ensures
        normalized(path).len() > 0,
        normalized(path)[0] == '/',
        normalized(path).last() == '/' ==> normalized(path).len() == 1,
{
    let p = text::trimmed(path);
    if !(p.len() == 0 || p == seq!['/']) {
        let t = text::trimmed_of(p, '/');
        lemma_cut_ends(text::skip_while(p, text::same_as('/')), '/');
        assert(t.len() > 0 ==> t.last() != '/');
        assert(normalized(path) =~= seq!['/'] + t);
        if t.len() > 0 {
            assert(normalized(path).last() == t.last());
        }
    }
}

proof fn lemma_cut_ends(s: Seq<char>, c: char)
    ensures
        text::cut_while(s, text::same_as(c)).len() > 0 ==> text::cut_while(
            s,
            text::same_as(c),
        ).last() != c,
    decreases s.len(),
{
    if s.len() > 0 && s.last() == c {
        lemma_cut_ends(s.drop_last(), c);
    }
}

proof fn lemma_one_more_item(items: Seq<RemoteItem>, item: RemoteItem, dir: Seq<char>)
    ensures
        collected(items.push(item), dir) == collected(items, dir) + collected(seq![item], dir),
{
    reveal_with_fuel(collected, 2);
    let all = items.push(item);
    assert(all.subrange(0, all.len() - 1) =~= items);
    let one = seq![item];
    assert(one.subrange(0, 0) =~= Seq::empty());
    assert(collected(all, dir) =~= collected(items, dir) + collected(one, dir));
}

/// A listing is gone through item by item, in order.
pub proof fn listings_are_gone_through_in_order(
    items: Seq<RemoteItem>,
    more: Seq<RemoteItem>,
    dir: Seq<char>,
)
    ensures
        collected(Seq::empty(), dir) == Seq::<Remote>::empty(),
        collected(items + more, dir) == collected(items, dir) + collected(more, dir),
    decreases more.len(),
{
    if more.len() == 0 {
        assert(items + more =~= items);
        assert(more =~= Seq::empty());
        assert(collected(items, dir) + collected(more, dir) =~= collected(items, dir));
    } else {
        let rest = more.drop_last();
        listings_are_gone_through_in_order(items, rest, dir);
        lemma_one_more_item(items + rest, more.last(), dir);
        lemma_one_more_item(rest, more.last(), dir);
        assert(rest.push(more.last()) =~= more);
        assert((items + rest).push(more.last()) =~= items + more);
        assert(collected(items + more, dir) =~= collected(items, dir) + collected(more, dir));
    }
}

/// A file is listed with its number, under its folder's path, a slash and its name; a
/// folder stands for what is in it; and what has no name, or is a file without a number,
/// is left out.
pub proof fn each_item_is_listed_by_what_it_is(item: RemoteItem, dir: Seq<char>)
    ensures
        ({
            let name = if item.name is Some {
                item.name->0@
            } else {
                Seq::empty()
            };
            let path = if dir == seq!['/'] {
                dir + name
            } else {
                dir + seq!['/'] + name
            };
            let found = collected(seq![item], dir);
            &&& name.len() == 0 ==> found.len() == 0
            &&& name.len() > 0 && item.is_folder && item.contents is None ==> found.len() == 0
            &&& name.len() > 0 && item.is_folder ==> (item.contents matches Some(inner) ==> found
                == collected(inner@, path))
            &&& name.len() > 0 && !item.is_folder && item.fileid is None ==> found.len() == 0
            &&& name.len() > 0 && !item.is_folder && item.fileid is Some ==> found.len() == 1
                && found[0].fileid == item.fileid->0 && found[0].path == path
                && found[0].meta.name == pathname::stem_of(name) && found[0].meta.ext == (
            match pathname::ext_of(name) {
                Some(e) => e,
                None => Seq::empty(),
            }) && found[0].meta.parent == last_segment(dir) && found[0].meta.size == (
            match item.size {
                Some(s) => s,
                None => 0,
            }) && found[0].meta.date_created == item.created && found[0].meta.date_modified
                == item.modified && found[0].meta.date_taken is None
                && found[0].meta.date_accessed is None && found[0].meta.width == (
            match item.width {
                Some(w) => Some(text::decimal(w as nat)),
                None => None,
            }) && found[0].meta.height == (match item.height {
                Some(h) => Some(text::decimal(h as nat)),
                None => None,
            }) && found[0].meta.camera_make is None && found[0].meta.camera_model is None
                && found[0].meta.lens is None && found[0].meta.iso is None
        }),
{
    reveal_with_fuel(collected, 2);
    let one = seq![item];
    assert(one.subrange(0, 0) =~= Seq::empty());
    let name = metadata::or_empty(text::opt_view(item.name));
    assert(dir.push('/') + name =~= dir + seq!['/'] + name);
    match item.contents {
        Some(inner) => {
            let path = child_path(dir, name);
            assert(Seq::<Remote>::empty() + collected(inner@, path) =~= collected(inner@, path));
        },
        None => {},
    }
}

/// The last segment of a path is what stands behind its last slash, and its parent what
/// stands before it.
pub proof fn remote_paths_part_at_the_last_slash(a: Seq<char>, b: Seq<char>)
    requires
        !b.contains('/'),
    ensures
        last_segment(a + seq!['/'] + b) == b,
        last_segment(b) == b,
        remote_parent(a + seq!['/'] + b) == a,
        remote_parent(b) == Seq::<char>::empty(),
{
    let path = a + seq!['/'] + b;
    let n = a.len() as int;
    assert forall|i: int| n < i < path.len() implies path[i] != '/' by {
        assert(path[i] == b[i - n - 1]);
        assert(b.contains(b[i - n - 1]));
    }
    text::lemma_last_index(path, '/', n);
    assert(path.skip(n + 1) =~= b);
    assert(path.take(n) =~= a);
    assert forall|i: int| -1 < i < b.len() implies b[i] != '/' by {
        assert(b.contains(b[i]));
    }
    text::lemma_last_index(b, '/', -1);
    assert(b.skip(0) =~= b);
}

/// A response is good exactly if its result is zero; any other is told with its number and
/// what it says of itself, and one without a result as malformed.
pub proof fn responses_are_good_at_zero(result: Option<int>, error: Option<Seq<char>>)
    ensures
        response_error(result, error) is None <==> result == Some(0int),
        result is None ==> response_error(result, error) == Some(
            "malformed pCloud response (no result field)"@,
        ),
        result matches Some(code) ==> code != 0 ==> response_error(result, error) == Some(
            "pCloud error "@ + text::decimal_int(code) + ": "@ + (if error is Some {
                error->0
            } else {
                "unknown error"@
            }),
        ),
{
}

/// Logging in gives the token of a good response, and otherwise says what is wrong.
pub proof fn tokens_come_from_good_responses(
    result: Option<int>,
    error: Option<Seq<char>>,
    token: Option<Seq<char>>,
)
    ensures
        token_of(result, error, token) is Ok <==> result == Some(0int) && token is Some,
        token_of(result, error, token) matches Ok(t) ==> token == Some(t),
        result == Some(0int) && token is None ==> token_of(result, error, token) == Err::<
            Seq<char>,
            Seq<char>,
        >("login succeeded but no auth token returned"@),
        result != Some(0int) ==> token_of(result, error, token) == Err::<Seq<char>, Seq<char>>(
            response_error(result, error)->0,
        ),
{
}

/// A remote plan has a row for each file, in order, with its number, its name and its path,
/// and plans as a local one does: from its own metadata and its place, counted from one,
/// with rows of one target held back.
pub proof fn remote_files_are_planned_in_order(
    files: Seq<Remote>,
    t: Seq<template::Piece>,
    append: bool,
    i: int,
    j: int,
)
    requires
        0 <= i < files.len(),
        0 <= j < files.len(),
        i != j,
    ensures
        ({
            let plan = planned(files, t, append);
            let row = plan[i];
            let draft = engine::drafted(
                files[i].path,
                files[i].meta,
                t,
                append,
                (i + 1) as nat,
            );
            &&& plan.len() == files.len()
            &&& row.fileid == files[i].fileid
            &&& row.display_name == last_segment(files[i].path)
            &&& row.step.src == files[i].path
            &&& row.step.rel_target == draft.rel_target
            &&& row.step.status == draft.status || row.step.status == engine::Status::Collision
            &&& row.step.status == engine::Status::Ready && plan[j].step.status
                == engine::Status::Ready ==> row.step.rel_target != plan[j].step.rel_target
        }),
{
    let paths = files.map_values(|f: Remote| f.path);
    let metas = files.map_values(|f: Remote| f.meta);
    let steps = engine::drafts(paths, metas, t, append);
    engine::collisions_are_between_two_rows(steps, i);
    let plan = planned(files, t, append);
    if plan[i].step.status == engine::Status::Ready && plan[j].step.status
        == engine::Status::Ready {
        engine::ready_rows_have_their_own_targets(steps, i, j);
    }
}

/// A remote target is put below its folder with one slash between them, however many the
/// two had there.
pub proof fn remote_targets_have_one_slash_between(base: Seq<char>, rel: Seq<char>)
    ensures
        (base.len() == 0 || base.last() != '/') && (rel.len() == 0 || rel[0] != '/')
            ==> remote_target(base, rel) == base + seq!['/'] + rel,
        remote_target(base.push('/'), rel) == remote_target(base, rel),
        remote_target(base, seq!['/'] + rel) == remote_target(base, rel),
{
    let p = text::same_as('/');
    if base.len() == 0 || base.last() != '/' {
        assert(text::cut_while(base, p) == base);
    }
    if rel.len() == 0 || rel[0] != '/' {
        assert(text::skip_while(rel, p) == rel);
    }
    assert(base.push('/').drop_last() =~= base);
    assert((seq!['/'] + rel).drop_first() =~= rel);
    assert(p('/'));
    assert(base.push('/') + rel =~= base + seq!['/'] + rel);
}

proof fn lemma_solid_is_filter(segments: Seq<Seq<char>>)
    ensures
        solid(segments) == segments.filter(|s: Seq<char>| s.len() > 0),
    decreases segments.len(),
{
    reveal(Seq::filter);
    if segments.len() > 0 {
        lemma_solid_is_filter(segments.drop_last());
    }
}

/// The folders that a path needs are named from the root down: the first by the first name
/// in the path, and each further one by the one before, a slash and the next name.
pub proof fn folders_are_made_from_the_root_down(path: Seq<char>, i: int)
    ensures
        ({
            let names = text::split(text::trimmed_of(path, '/'), '/').filter(
                |s: Seq<char>| s.len() > 0,
            );
            let all = ancestors_of(path);
            &&& all.len() == names.len()
            &&& all.len() > 0 ==> all[0] == seq!['/'] + names[0]
            &&& 0 < i < all.len() ==> all[i] == all[i - 1] + seq!['/'] + names[i]
        }),
{
    reveal_with_fuel(absolute, 2);
    let segments = text::split(text::trimmed_of(path, '/'), '/');
    lemma_solid_is_filter(segments);
    let names = solid(segments);
    if names.len() > 0 {
        assert(Seq::<char>::empty().push('/') + names[0] =~= seq!['/'] + names[0]);
    }
    if 0 < i < names.len() {
        let before = absolute(names, i);
        assert(before.push('/') + names[i] =~= before + seq!['/'] + names[i]);
    }
}

/// Applying a remote plan settles the rows that were ready, each by what came of its file;
/// the log holds the moves made, in order, from the file's path to its target.
pub proof fn remote_rows_are_settled(
    steps: Seq<RemoteStep>,
    base: Seq<char>,
    outcomes: Seq<MoveOutcome>,
    i: int,
)
    requires
        0 <= i < steps.len(),
    ensures
        ({
            let after = remote_applied(steps, outcomes);
            &&& after.len() == steps.len()
            &&& after[i].fileid == steps[i].fileid && after[i].display_name == steps[i].display_name
            &&& after[i].step.src == steps[i].step.src && after[i].step.rel_target
                == steps[i].step.rel_target
            &&& steps[i].step.status != engine::Status::Ready ==> after[i] == steps[i]
            &&& steps[i].step.status == engine::Status::Ready ==> (after[i].step.status
                == engine::Status::Done <==> outcomes[i] is Moved) && (after[i].step.status is Done
                || after[i].step.status is Failed)
        }),
        remote_made(steps, base, outcomes, steps.len() as int) == Seq::new(
            steps.len(),
            |i: int| i,
        ).filter(
            |i: int| steps[i].step.status == engine::Status::Ready && outcomes[i] is Moved,
        ).map_values(
            |i: int|
                (
                    steps[i].fileid,
                    steps[i].step.src,
                    remote_target(base, steps[i].step.rel_target),
                ),
        ),
{
    lemma_remote_made(steps, base, outcomes, steps.len());
}

proof fn lemma_remote_made(
    steps: Seq<RemoteStep>,
    base: Seq<char>,
    outcomes: Seq<MoveOutcome>,
    n: nat,
)
    ensures
        remote_made(steps, base, outcomes, n as int) == Seq::new(n, |i: int| i).filter(
            |i: int| steps[i].step.status == engine::Status::Ready && outcomes[i] is Moved,
        ).map_values(
            |i: int|
                (
                    steps[i].fileid,
                    steps[i].step.src,
                    remote_target(base, steps[i].step.rel_target),
                ),
        ),
    decreases n,
{
    reveal(Seq::filter);
    let p = |i: int| steps[i].step.status == engine::Status::Ready && outcomes[i] is Moved;
    let f = |i: int|
        (steps[i].fileid, steps[i].step.src, remote_target(base, steps[i].step.rel_target));
    let all = Seq::new(n, |i: int| i);
    if n > 0 {
        lemma_remote_made(steps, base, outcomes, (n - 1) as nat);
        assert(all.drop_last() =~= Seq::new((n - 1) as nat, |i: int| i));
        assert(all.last() == n - 1);
        let rest = all.drop_last().filter(p);
        if p(n - 1) {
            assert(all.filter(p) == rest.push(n - 1));
            assert(rest.push(n - 1).map_values(f) =~= rest.map_values(f).push(f(n - 1)));
        } else {
            assert(all.filter(p) == rest);
        }
    } else {
        assert(all.filter(p).map_values(f) =~= Seq::empty());
    }
}

/// Undoing on the remote takes the last move back first, and names each file that could
/// not be by the path it is at.
pub proof fn failed_remote_undos_are_named(
    moves: Seq<(u64, Seq<char>, Seq<char>)>,
    failures: Seq<Option<Seq<char>>>,
)
    requires
        moves.len() == failures.len(),
    ensures
        taken_back(moves, failures, moves.len() as int).0 == failures.filter(
            |f: Option<Seq<char>>| f is None,
        ).len(),
        taken_back(moves, failures, moves.len() as int).1 == Seq::new(
            moves.len(),
            |i: int| i,
        ).filter(|i: int| failures[i] is Some).map_values(
            |i: int| moves[moves.len() - 1 - i].2 + ": "@ + failures[i]->0,
        ),
{
    lemma_failed_remote_undos(moves, failures, moves.len());
    assert(failures.take(moves.len() as int) =~= failures);
}

proof fn lemma_failed_remote_undos(
    moves: Seq<(u64, Seq<char>, Seq<char>)>,
    failures: Seq<Option<Seq<char>>>,
    n: nat,
)
    requires
        n <= failures.len(),
    ensures
        taken_back(moves, failures, n as int).0 == failures.take(n as int).filter(
            |f: Option<Seq<char>>| f is None,
        ).len(),
        taken_back(moves, failures, n as int).1 == Seq::new(n, |i: int| i).filter(
            |i: int| failures[i] is Some,
        ).map_values(|i: int| moves[moves.len() - 1 - i].2 + ": "@ + failures[i]->0),
    decreases n,
{
    reveal(Seq::filter);
    let q = |f: Option<Seq<char>>| f is None;
    let p = |i: int| failures[i] is Some;
    let f = |i: int| moves[moves.len() - 1 - i].2 + ": "@ + failures[i]->0;
    let all = Seq::new(n, |i: int| i);
    let some = failures.take(n as int);
    if n > 0 {
        lemma_failed_remote_undos(moves, failures, (n - 1) as nat);
        assert(all.drop_last() =~= Seq::new((n - 1) as nat, |i: int| i));
        assert(some.drop_last() =~= failures.take(n - 1));
        assert(some.last() == failures[n - 1]);
        let rest = all.drop_last().filter(p);
        if p(n - 1) {
            assert(all.filter(p) == rest.push(n - 1));
            assert(rest.push(n - 1).map_values(f) =~= rest.map_values(f).push(f(n - 1)));
        } else {
            assert(all.filter(p) == rest);
        }
    } else {
        assert(all.filter(p).map_values(f) =~= Seq::empty());
    }
}

/// A folder is normalized to a slash and what it says between its outer slashes and white
/// space, so that a normalized one stays as it is.
pub proof fn normalizing_keeps_what_is_between(name: Seq<char>)
    requires
        name.len() > 0,
        name[0] != '/' && name.last() != '/',
        !text::whitespace(name[0]) && !text::whitespace(name.last()),
    ensures
        normalized(name) == seq!['/'] + name,
        normalized(seq!['/'] + name) == seq!['/'] + name,
        normalized(seq!['/'] + name + seq!['/']) == seq!['/'] + name,
        normalized(seq![' '] + name + seq![' ']) == seq!['/'] + name,
        normalized(Seq::empty()) == seq!['/'],
        normalized(seq!['/']) == seq!['/'],
{
    let p = text::blank();
    let q = text::same_as('/');
    let n = name.len() as int;
    let (a, b, c) = (
        seq!['/'] + name,
        seq!['/'] + name + seq!['/'],
        seq![' '] + name + seq![' '],
    );
    assert(text::skip_while(name, p) == name && text::cut_while(name, p) == name);
    assert(text::skip_while(name, q) == name && text::cut_while(name, q) == name);
    assert(a.drop_first() =~= name && a.last() == name.last());
    assert(text::skip_while(a, p) == a && text::cut_while(a, p) == a);
    assert(text::skip_while(a, q) == name);
    assert(text::skip_while(b, p) == b && text::cut_while(b, p) == b);
    text::lemma_skip_while(b, q, 1);
    let t = b.skip(1);
    assert(t =~= name.push('/'));
    text::lemma_cut_while(t, q, n);
    assert(t.take(n) =~= name);
    text::lemma_skip_while(c, p, 1);
    let u = c.skip(1);
    assert(u =~= name.push(' '));
    text::lemma_cut_while(u, p, n);
    assert(u.take(n) =~= name);
    assert(a.len() > 1 && b.len() > 1);
    let root = seq!['/'];
    assert(text::skip_while(root, p) == root && text::cut_while(root, p) == root);
    let none = Seq::<char>::empty();
    assert(text::skip_while(none, p) == none && text::cut_while(none, p) == none);
}

} // verus!
