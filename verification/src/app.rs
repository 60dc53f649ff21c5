//! The program's state and what becomes of it: requests, results of background work,
//! and what the views show.
//!
//! Drawing, files and threads are somebody else's business. A request says what is to
//! be done in the background, and its result is handed back here.
use vstd::prelude::*;

use crate::catalog;
use crate::catalog::{Catalog, CatalogStats, MediaRow, Visibility};
use crate::colour;
use crate::colour::hue_sort_key;
use crate::dupes;
use crate::dupes::{DupConfig, DupGroup, DupKind, DupReport};
use crate::engine;
use crate::engine::{Plan, RowStatus, Settings, UndoEntry};
use crate::indexer;
use crate::indexer::{ensure_content_hash, IndexConfig, IndexOutcome};
use crate::kind;
use crate::kind::{effective, MediaKind};
use crate::metadata;
use crate::order;
use crate::order::{rearrange, SortKey};
use crate::pathname;
use crate::pathname::{components_of, file_name_of};
use crate::pcloud;
use crate::pcloud::{Region, RemotePlan, RemoteUndo};
use crate::quarantine;
use crate::quarantine::QuarantineOutcome;
use crate::single;
use crate::single::{round_to, DOUBLE};
use crate::slideshow;
use crate::slideshow::{build_order, SlideOrder};
use crate::text;
use crate::text::{
    chars_of, occurs, push_decimal, push_text, str_eq, string_of, to_lower, trim,
};

verus! {

/// The units of a byte count.
pub open spec fn unit_name(unit: int) -> Seq<char> {
    if unit <= 0 {
        "B"@
    } else if unit == 1 {
        "KB"@
    } else if unit == 2 {
        "MB"@
    } else if unit == 3 {
        "GB"@
    } else {
        "TB"@
    }
}

/// The worth and the number of the largest unit, from one on and up to terabytes,
/// that a count reaches.
pub open spec fn unit_for(value: nat, worth: nat, unit: nat) -> (nat, nat)
    decreases 4 - unit,
{
    if unit < 4 && value >= 1024 * worth {
        unit_for(value, 1024 * worth, unit + 1)
    } else {
        (worth, unit)
    }
}

/// A byte count for people: whole bytes, or one decimal of a larger unit.
pub open spec fn bytes_text(bytes: nat) -> Seq<char> {
    if bytes < 1024 {
        text::decimal(bytes) + " B"@
    } else {
        let value = single::rounded(bytes, 1, DOUBLE as nat);
        let (worth, unit) = unit_for(value, 1, 0);
        let tenths = single::nearest(10 * value, worth);
        text::decimal(tenths / 10) + "."@ + text::decimal(tenths % 10) + " "@ + unit_name(
            unit as int,
        )
    }
}

/// Human-readable byte count, such as `1.4 GB`.
pub fn human_bytes(bytes: u64) -> (r: String)
    ensures
        r@ == bytes_text(bytes as nat),
{
    let mut out: String = String::new();
    if bytes < 1024 {
        push_decimal(&mut out, bytes);
        push_text(&mut out, " B");
        assert(out@ =~= bytes_text(bytes as nat));
        return out;
    }
    let value: u128 = round_to(bytes as u128, 1, DOUBLE);
    let mut worth: u128 = 1;
    let mut unit: u32 = 0;
    let ghost want = unit_for(value as nat, 1, 0);
    while unit < 4 && value >= 1024 * worth
        invariant
            value <= 2 * u64::MAX + 1,
            unit <= 4,
            unit == 0 ==> worth == 1,
            unit == 1 ==> worth == 0x400,
            unit == 2 ==> worth == 0x10_0000,
            unit == 3 ==> worth == 0x4000_0000,
            unit == 4 ==> worth == 0x100_0000_0000,
            unit_for(value as nat, worth as nat, unit as nat) == want,
        decreases 4 - unit,
    {
        worth = worth * 1024;
        unit += 1;
    }
    let tenfold: u128 = 10 * value;
    let quotient: u128 = tenfold / worth;
    let rest: u128 = tenfold % worth;
    let tenths: u128 = if 2 * rest < worth || (2 * rest == worth && quotient % 2 == 0) {
        quotient
    } else {
        quotient + 1
    };
    assert(tenths == single::nearest(10 * value as nat, worth as nat));
    assert(quotient < 0x1_0000_0000_0000) by (nonlinear_arith)
        requires
            quotient == (10 * value) / (worth as int),
            value <= 2 * u64::MAX + 1,
            worth > 0,
            value < 1024 * worth || worth == 0x100_0000_0000,
    ;
    push_decimal(&mut out, (tenths / 10) as u64);
    push_text(&mut out, ".");
    push_decimal(&mut out, (tenths % 10) as u64);
    push_text(&mut out, " ");
    push_text(
        &mut out,
        if unit == 0 {
            "B"
        } else if unit == 1 {
            "KB"
        } else if unit == 2 {
            "MB"
        } else if unit == 3 {
            "GB"
        } else {
            "TB"
        },
    );
    assert(out@ =~= bytes_text(bytes as nat));
    out
}

/// Ordering of the image list.
#[derive(Debug, PartialEq, Eq, Clone, Copy, Structural)]
pub enum SortBy {
    Path,
    Date,
    Size,
    Colour,
    Rating,
}

/// What is renamed: files here or files on the server.
#[derive(Debug, PartialEq, Eq, Clone, Copy, Structural)]
pub enum Mode {
    Local,
    PCloud,
}

/// What the user chose for a duplicate group.
#[derive(Debug, PartialEq, Eq, Clone, Copy, Structural)]
pub struct GroupSel {
    /// Which member to keep.
    pub keeper: usize,
    /// Whether the group takes part in the next quarantine action.
    pub enabled: bool,
}

/// What background work gave.
#[derive(Debug)]
pub enum BgResult {
    Index(Result<IndexOutcome, String>),
    Images(Result<Vec<MediaRow>, String>),
    Dupes(Result<DupReport, String>),
    Quarantined(QuarantineOutcome),
    Restored { restored: usize, errors: Vec<String> },
    Preview(Plan),
    Apply { plan: Plan, undo: Vec<UndoEntry>, log_err: Option<String> },
    Undo { reverted: usize, errors: Vec<String> },
    Login(Result<(), String>),
    RemotePreview(Result<RemotePlan, String>),
    RemoteApply { plan: RemotePlan, undo: Vec<RemoteUndo> },
    RemoteUndo { reverted: usize, errors: Vec<String> },
}

/// A row of the rename table.
#[derive(Debug)]
pub struct RowView {
    pub name: String,
    pub target: String,
    pub status: RowStatus,
}

/// A row of the rename table as mathematical values.
#[verifier::ext_equal]
pub struct Shown {
    pub name: Seq<char>,
    pub target: Seq<char>,
    pub status: engine::Status,
}

impl View for RowView {
    type V = Shown;

    open spec fn view(&self) -> Shown {
        Shown { name: self.name@, target: self.target@, status: self.status@ }
    }
}

/// Whether the parent filter is on to begin with. Forgetting to switch it on shows
/// people what was meant to be hidden; forgetting to switch it off is a moment's
/// confusion. Only one of these is worth protecting against.
pub const PARENT_FILTER_DEFAULT: bool = true;

/// The program's state.
#[derive(Debug)]
pub struct RenamerApp {
    pub library: Option<String>,
    pub lib_recursive: bool,
    pub lib_read_exif: bool,
    pub lib_compute_phash: bool,
    pub lib_images_only: bool,
    pub stats: Option<CatalogStats>,
    pub last_index: Option<IndexOutcome>,
    /// While it is on, hidden images are left out of every view that reads the
    /// catalog.
    pub parent_filter: bool,
    pub hidden_count: usize,
    pub images: Vec<MediaRow>,
    pub image_filter: String,
    /// The fewest stars that an image on show has.
    pub min_rating: u8,
    /// The one kind of image on show, if not all.
    pub kind_filter: Option<MediaKind>,
    pub sort_by: SortBy,
    pub dup_cfg: DupConfig,
    pub report: Option<DupReport>,
    pub selections: Vec<GroupSel>,
    pub restorable_batch: Option<i64>,
    pub quarantine_bytes: u64,
    pub thumb_cache_bytes: u64,
    pub mode: Mode,
    pub source: Option<String>,
    /// Where renamed files go, if not to the source.
    pub output: Option<String>,
    pub plan: Option<Plan>,
    pub last_undo: Vec<UndoEntry>,
    pub pc_region: Region,
    pub pc_email: String,
    pub pc_password: String,
    pub pc_path: String,
    /// Whether there is a session with the server.
    pub pc_connected: bool,
    pub remote_plan: Option<RemotePlan>,
    pub remote_undo: Vec<RemoteUndo>,
    pub template: String,
    pub recursive: bool,
    pub append_ext: bool,
    pub message: String,
    /// Whether background work is going on.
    pub busy: bool,
    pub busy_label: String,
}

/// Whether a state is the one the program starts in.
pub open spec fn is_initial(a: RenamerApp) -> bool {
    &&& a.library is None && a.stats is None && a.last_index is None
    &&& a.lib_recursive && a.lib_read_exif && a.lib_compute_phash && a.lib_images_only
    &&& a.parent_filter == PARENT_FILTER_DEFAULT && a.hidden_count == 0
    &&& a.images@.len() == 0 && a.image_filter@.len() == 0 && a.sort_by == SortBy::Path
    &&& a.min_rating == 0 && a.kind_filter is None
    &&& a.dup_cfg == (DupConfig {
        near_threshold: 6,
        burst_window_secs: 2,
        find_exact: true,
        find_near: true,
        find_burst: false,
        same_kind_only: true,
    })
    &&& a.report is None && a.selections@.len() == 0 && a.restorable_batch is None
    &&& a.quarantine_bytes == 0 && a.thumb_cache_bytes == 0
    &&& a.mode == Mode::Local && a.source is None && a.output is None
    &&& a.plan is None && a.last_undo@.len() == 0
    &&& a.pc_region == Region::Us && a.pc_email@.len() == 0 && a.pc_password@.len() == 0
    &&& a.pc_path@ == "/"@ && !a.pc_connected
    &&& a.remote_plan is None && a.remote_undo@.len() == 0
    &&& a.template@ == "{date_taken:%Y}/{date_taken:%m}/{name}"@ && !a.recursive && a.append_ext
    &&& a.message@ == "Pick a library folder and index it to get started."@
    &&& !a.busy && a.busy_label@.len() == 0
}

fn words(s: &str) -> (r: String)
    ensures
        r@ == s@,
{
    string_of(chars_of(s).as_slice())
}

impl Default for RenamerApp {
    fn default() -> (r: Self)
        ensures
            is_initial(r),
    {
        RenamerApp {
            library: None,
            lib_recursive: true,
            lib_read_exif: true,
            lib_compute_phash: true,
            lib_images_only: true,
            stats: None,
            last_index: None,
            parent_filter: PARENT_FILTER_DEFAULT,
            hidden_count: 0,
            images: Vec::new(),
            image_filter: String::new(),
            min_rating: 0,
            kind_filter: None,
            sort_by: SortBy::Path,
            dup_cfg: DupConfig::default(),
            report: None,
            selections: Vec::new(),
            restorable_batch: None,
            quarantine_bytes: 0,
            thumb_cache_bytes: 0,
            mode: Mode::Local,
            source: None,
            output: None,
            plan: None,
            last_undo: Vec::new(),
            pc_region: Region::Us,
            pc_email: String::new(),
            pc_password: String::new(),
            pc_path: words("/"),
            pc_connected: false,
            remote_plan: None,
            remote_undo: Vec::new(),
            template: words("{date_taken:%Y}/{date_taken:%m}/{name}"),
            recursive: false,
            append_ext: true,
            message: words("Pick a library folder and index it to get started."),
            busy: false,
            busy_label: String::new(),
        }
    }
}

/// The message about a plan.
pub open spec fn plan_line(total: nat, ok: nat, problems: nat) -> Seq<char> {
    text::decimal(total) + " file(s): "@ + text::decimal(ok) + " ready, "@ + text::decimal(problems)
        + " problem(s)."@
}

/// The message about a plan.
pub fn plan_summary(total: usize, ok: usize, problems: usize) -> (r: String)
    ensures
        r@ == plan_line(total as nat, ok as nat, problems as nat),
{
    let mut out: String = String::new();
    push_decimal(&mut out, total as u64);
    push_text(&mut out, " file(s): ");
    push_decimal(&mut out, ok as u64);
    push_text(&mut out, " ready, ");
    push_decimal(&mut out, problems as u64);
    push_text(&mut out, " problem(s).");
    assert(out@ =~= plan_line(total as nat, ok as nat, problems as nat));
    out
}

/// How many errors there were, with the first as an example.
pub open spec fn failures(errors: Seq<Seq<char>>) -> Seq<char> {
    text::decimal(errors.len()) + " failed (e.g. "@ + errors[0] + ")."@
}

fn push_failures(out: &mut String, errors: &Vec<String>)
    requires
        errors@.len() > 0,
    ensures
        final(out)@ == old(out)@ + failures(engine::views(errors@)),
{
    let ghost base = out@;
    push_decimal(out, errors.len() as u64);
    push_text(out, " failed (e.g. ");
    push_text(out, errors[0].as_str());
    push_text(out, ").");
    assert(engine::views(errors@)[0] == errors@[0]@);
    assert(engine::views(errors@).len() == errors@.len());
    assert(out@ =~= base + failures(engine::views(errors@)));
}

/// The message about an undo.
pub open spec fn undo_line(reverted: nat, errors: Seq<Seq<char>>) -> Seq<char> {
    if errors.len() == 0 {
        "Undo complete: "@ + text::decimal(reverted) + " file(s) restored."@
    } else {
        "Undo: "@ + text::decimal(reverted) + " restored, "@ + failures(errors)
    }
}

/// The message about an undo.
pub fn undo_summary(reverted: usize, errors: &Vec<String>) -> (r: String)
    ensures
        r@ == undo_line(reverted as nat, engine::views(errors@)),
{
    assert(engine::views(errors@).len() == errors@.len());
    let mut out: String = String::new();
    if errors.len() == 0 {
        push_text(&mut out, "Undo complete: ");
        push_decimal(&mut out, reverted as u64);
        push_text(&mut out, " file(s) restored.");
    } else {
        push_text(&mut out, "Undo: ");
        push_decimal(&mut out, reverted as u64);
        push_text(&mut out, " restored, ");
        push_failures(&mut out, errors);
    }
    assert(out@ =~= undo_line(reverted as nat, engine::views(errors@)));
    out
}

/// The message about a restored batch.
pub open spec fn restored_line(restored: nat, errors: Seq<Seq<char>>) -> Seq<char> {
    if errors.len() == 0 {
        "Restored "@ + text::decimal(restored) + " file(s) from quarantine."@
    } else {
        "Restored "@ + text::decimal(restored) + ", "@ + failures(errors)
    }
}

fn restored_summary(restored: usize, errors: &Vec<String>) -> (r: String)
    ensures
        r@ == restored_line(restored as nat, engine::views(errors@)),
{
    assert(engine::views(errors@).len() == errors@.len());
    let mut out: String = String::new();
    push_text(&mut out, "Restored ");
    push_decimal(&mut out, restored as u64);
    if errors.len() == 0 {
        push_text(&mut out, " file(s) from quarantine.");
    } else {
        push_text(&mut out, ", ");
        push_failures(&mut out, errors);
    }
    assert(out@ =~= restored_line(restored as nat, engine::views(errors@)));
    out
}

/// The message about loaded images.
pub open spec fn images_line(count: nat, filtered: bool, hidden: nat) -> Seq<char> {
    text::decimal(count) + " image(s)"@ + (if filtered && hidden > 0 {
        ", "@ + text::decimal(hidden) + " hidden by the parent filter"@
    } else {
        Seq::empty()
    }) + "."@
}

fn images_summary(count: usize, filtered: bool, hidden: usize) -> (r: String)
    ensures
        r@ == images_line(count as nat, filtered, hidden as nat),
{
    let mut out: String = String::new();
    push_decimal(&mut out, count as u64);
    push_text(&mut out, " image(s)");
    if filtered && hidden > 0 {
        push_text(&mut out, ", ");
        push_decimal(&mut out, hidden as u64);
        push_text(&mut out, " hidden by the parent filter");
    }
    push_text(&mut out, ".");
    assert(out@ =~= images_line(count as nat, filtered, hidden as nat));
    out
}

/// The message about a duplicate scan.
pub open spec fn dupes_line(groups: Seq<dupes::Group>) -> Seq<char> {
    if groups.len() == 0 {
        "No duplicates found."@
    } else {
        text::decimal(groups.len()) + " group(s): "@ + text::decimal(
            dupes::count_kind(groups, DupKind::Exact),
        ) + " exact, "@ + text::decimal(dupes::count_kind(groups, DupKind::Near)) + " near, "@
            + text::decimal(dupes::count_kind(groups, DupKind::Burst)) + " burst — up to "@
            + bytes_text(dupes::sum_reclaimable(groups)) + " recoverable."@
    }
}

fn dupes_summary(report: &DupReport) -> (r: String)
    requires
        dupes::sum_reclaimable(report@) <= u64::MAX,
    ensures
        r@ == dupes_line(report@),
{
    if report.is_empty() {
        return words("No duplicates found.");
    }
    let mut out: String = String::new();
    assert(report@.len() == report.groups@.len());
    push_decimal(&mut out, report.groups.len() as u64);
    push_text(&mut out, " group(s): ");
    push_decimal(&mut out, report.count_of(DupKind::Exact) as u64);
    push_text(&mut out, " exact, ");
    push_decimal(&mut out, report.count_of(DupKind::Near) as u64);
    push_text(&mut out, " near, ");
    push_decimal(&mut out, report.count_of(DupKind::Burst) as u64);
    push_text(&mut out, " burst — up to ");
    push_text(&mut out, human_bytes(report.total_reclaimable()).as_str());
    push_text(&mut out, " recoverable.");
    assert(out@ =~= dupes_line(report@));
    out
}

/// The message about a quarantine action.
pub open spec fn quarantined_line(outcome: quarantine::Outcome) -> Seq<char> {
    "Quarantined "@ + text::decimal(outcome.moved) + " file(s), "@ + bytes_text(outcome.bytes)
        + " freed"@ + (if outcome.errors.len() == 0 {
        Seq::empty()
    } else {
        " ("@ + text::decimal(outcome.errors.len()) + " error(s), e.g. "@ + outcome.errors[0]
            + ")"@
    }) + ". Undo available."@
}

fn quarantined_summary(outcome: &QuarantineOutcome) -> (r: String)
    ensures
        r@ == quarantined_line(outcome@),
{
    assert(engine::views(outcome.errors@).len() == outcome.errors@.len());
    let mut out: String = String::new();
    push_text(&mut out, "Quarantined ");
    push_decimal(&mut out, outcome.moved as u64);
    push_text(&mut out, " file(s), ");
    push_text(&mut out, human_bytes(outcome.bytes).as_str());
    push_text(&mut out, " freed");
    if outcome.errors.len() > 0 {
        assert(engine::views(outcome.errors@)[0] == outcome.errors@[0]@);
        push_text(&mut out, " (");
        push_decimal(&mut out, outcome.errors.len() as u64);
        push_text(&mut out, " error(s), e.g. ");
        push_text(&mut out, outcome.errors[0].as_str());
        push_text(&mut out, ")");
    }
    push_text(&mut out, ". Undo available.");
    assert(out@ =~= quarantined_line(outcome@));
    out
}

/// The message about an applied plan.
pub open spec fn applied_line(count: nat, log_err: Option<Seq<char>>) -> Seq<char> {
    "Renamed "@ + text::decimal(count) + (match log_err {
        Some(e) => " file(s), but undo log not saved: "@ + e,
        None => " file(s). Undo available."@,
    })
}

fn applied_summary(count: usize, log_err: &Option<String>) -> (r: String)
    ensures
        r@ == applied_line(count as nat, text::opt_view(*log_err)),
{
    let mut out: String = String::new();
    push_text(&mut out, "Renamed ");
    push_decimal(&mut out, count as u64);
    match log_err {
        Some(e) => {
            push_text(&mut out, " file(s), but undo log not saved: ");
            push_text(&mut out, e.as_str());
        },
        None => {
            push_text(&mut out, " file(s). Undo available.");
        },
    }
    assert(out@ =~= applied_line(count as nat, text::opt_view(*log_err)));
    out
}

fn counted(before: &str, count: usize, after: &str) -> (r: String)
    ensures
        r@ == before@ + text::decimal(count as nat) + after@,
{
    let mut out: String = String::new();
    push_text(&mut out, before);
    push_decimal(&mut out, count as u64);
    push_text(&mut out, after);
    assert(out@ =~= before@ + text::decimal(count as nat) + after@);
    out
}

fn joined_words(a: &str, b: &str) -> (r: String)
    ensures
        r@ == a@ + b@,
{
    let mut out: String = String::new();
    push_text(&mut out, a);
    push_text(&mut out, b);
    assert(out@ =~= a@ + b@);
    out
}

/// What is chosen to begin with: the suggested keepers. Exact duplicates are safe to
/// act on; near and burst matches are judgement calls, so they are not armed.
pub open spec fn first_choices(groups: Seq<DupGroup>) -> Seq<GroupSel> {
    groups.map_values(
        |g: DupGroup| GroupSel { keeper: g.keeper, enabled: g.kind == DupKind::Exact },
    )
}

fn choices_for(groups: &Vec<DupGroup>) -> (r: Vec<GroupSel>)
    ensures
        r@ == first_choices(groups@),
{
    let mut out: Vec<GroupSel> = Vec::new();
    let mut i: usize = 0;
    while i < groups.len()
        invariant
            i <= groups@.len(),
            out@.len() == i,
            forall|k: int| 0 <= k < i ==> #[trigger] out@[k] == first_choices(groups@)[k],
        decreases groups@.len() - i,
    {
        out.push(GroupSel { keeper: groups[i].keeper, enabled: groups[i].kind == DupKind::Exact });
        i += 1;
    }
    assert(out@ =~= first_choices(groups@));
    out
}

/// Whether `b` is what a result of background work makes of the state `a`.
pub open spec fn handled(a: RenamerApp, result: BgResult, b: RenamerApp) -> bool {
    match result {
        BgResult::Index(Ok(outcome)) => {
            &&& b == RenamerApp {
                message: b.message,
                stats: Some(outcome.stats),
                last_index: Some(outcome),
                report: None,
                selections: b.selections,
                images: b.images,
                ..a
            }
            &&& b.message@ == indexer::summary_line(outcome@)
            &&& b.selections@.len() == 0
            &&& b.images@.len() == 0
        },
        BgResult::Index(Err(e)) => says(a, "Index failed: "@ + e@, b),
        BgResult::Images(Ok(rows)) => {
            &&& b == RenamerApp { message: b.message, images: rows, ..a }
            &&& b.message@ == images_line(rows@.len(), a.parent_filter, a.hidden_count as nat)
        },
        BgResult::Images(Err(e)) => says(a, "Could not load images: "@ + e@, b),
        BgResult::Dupes(Ok(report)) => {
            &&& b == RenamerApp {
                message: b.message,
                selections: b.selections,
                report: Some(report),
                ..a
            }
            &&& b.message@ == dupes_line(report@)
            &&& b.selections@ == first_choices(report.groups@)
        },
        BgResult::Dupes(Err(e)) => says(a, "Duplicate scan failed: "@ + e@, b),
        BgResult::Quarantined(outcome) => {
            &&& b == RenamerApp {
                message: b.message,
                report: None,
                selections: b.selections,
                ..a
            }
            &&& b.message@ == quarantined_line(outcome@)
            &&& b.selections@.len() == 0
        },
        BgResult::Restored { restored, errors } => {
            &&& b == RenamerApp {
                message: b.message,
                report: None,
                selections: b.selections,
                ..a
            }
            &&& b.message@ == restored_line(restored as nat, engine::views(errors@))
            &&& b.selections@.len() == 0
        },
        BgResult::Preview(plan) => {
            let steps = engine::steps_of(plan.rows@);
            &&& b == RenamerApp { message: b.message, plan: Some(plan), ..a }
            &&& b.message@ == plan_line(
                steps.len(),
                engine::count_steps(steps, engine::is_ready()),
                engine::count_steps(steps, engine::is_problem()),
            )
        },
        BgResult::Apply { plan, undo, log_err } => {
            &&& b == RenamerApp { message: b.message, plan: Some(plan), last_undo: undo, ..a }
            &&& b.message@ == applied_line(undo@.len(), text::opt_view(log_err))
        },
        BgResult::Undo { reverted, errors } => {
            &&& b == RenamerApp { message: b.message, plan: None, last_undo: b.last_undo, ..a }
            &&& b.message@ == undo_line(reverted as nat, engine::views(errors@))
            &&& b.last_undo@.len() == 0
        },
        BgResult::Login(Ok(_)) => {
            &&& b == RenamerApp {
                message: b.message,
                pc_connected: true,
                pc_password: b.pc_password,
                ..a
            }
            &&& b.message@ == "Connected to pCloud."@
            &&& b.pc_password@.len() == 0
        },
        BgResult::Login(Err(e)) => says(a, "Login failed: "@ + e@, b),
        BgResult::RemotePreview(Ok(plan)) => {
            let steps = pcloud::plain_steps(pcloud::remote_steps(plan.rows@));
            &&& b == RenamerApp { message: b.message, remote_plan: Some(plan), ..a }
            &&& b.message@ == plan_line(
                steps.len(),
                engine::count_steps(steps, engine::is_ready()),
                engine::count_steps(steps, engine::is_problem()),
            )
        },
        BgResult::RemotePreview(Err(e)) => says(a, "pCloud list failed: "@ + e@, b),
        BgResult::RemoteApply { plan, undo } => {
            &&& b == RenamerApp {
                message: b.message,
                remote_plan: Some(plan),
                remote_undo: undo,
                ..a
            }
            &&& b.message@ == "Renamed "@ + text::decimal(undo@.len())
                + " file(s) on pCloud. Undo available."@
        },
        BgResult::RemoteUndo { reverted, errors } => {
            &&& b == RenamerApp {
                message: b.message,
                remote_plan: None,
                remote_undo: b.remote_undo,
                ..a
            }
            &&& b.message@ == undo_line(reverted as nat, engine::views(errors@))
            &&& b.remote_undo@.len() == 0
        },
    }
}

/// Whether `b` is the state `a` with another message.
pub open spec fn says(a: RenamerApp, message: Seq<char>, b: RenamerApp) -> bool {
    b == (RenamerApp { message: b.message, ..a }) && b.message@ == message
}

/// Whether a result changes what the catalog or the disk holds, so that cached
/// counters are out of date.
pub open spec fn outdates_counters(result: BgResult) -> bool {
    match result {
        BgResult::Index(Ok(_)) => true,
        BgResult::Quarantined(_) => true,
        BgResult::Restored { restored, errors } => true,
        _ => false,
    }
}

impl RenamerApp {
    fn say(&mut self, a: &str, b: &str)
        ensures
            says(*old(self), a@ + b@, *final(self)),
    {
        self.message = joined_words(a, b);
    }

    fn take_index(&mut self, outcome: IndexOutcome)
        ensures
            handled(*old(self), BgResult::Index(Ok(outcome)), *final(self)),
    {
        self.message = outcome.summary();
        self.stats = Some(outcome.stats);
        self.last_index = Some(outcome);
        self.report = None;
        self.selections = Vec::new();
        self.images = Vec::new();
    }

    fn take_images(&mut self, rows: Vec<MediaRow>)
        ensures
            handled(*old(self), BgResult::Images(Ok(rows)), *final(self)),
    {
        self.message = images_summary(rows.len(), self.parent_filter, self.hidden_count);
        self.images = rows;
    }

    fn take_report(&mut self, report: DupReport)
        requires
            dupes::sum_reclaimable(report@) <= u64::MAX,
        ensures
            handled(*old(self), BgResult::Dupes(Ok(report)), *final(self)),
    {
        self.selections = choices_for(&report.groups);
        self.message = dupes_summary(&report);
        self.report = Some(report);
    }

    fn drop_report(&mut self, message: String)
        ensures
            *final(self) == (RenamerApp {
                message,
                report: None,
                selections: final(self).selections,
                ..*old(self)
            }),
            final(self).selections@.len() == 0,
    {
        self.message = message;
        self.report = None;
        self.selections = Vec::new();
    }

    fn take_preview(&mut self, plan: Plan)
        ensures
            handled(*old(self), BgResult::Preview(plan), *final(self)),
    {
        assert(engine::steps_of(plan.rows@).len() == plan.rows@.len());
        self.message = plan_summary(plan.rows.len(), plan.ok_count(), plan.problem_count());
        self.plan = Some(plan);
    }

    fn take_applied(&mut self, plan: Plan, undo: Vec<UndoEntry>, log_err: Option<String>)
        ensures
            handled(*old(self), (BgResult::Apply { plan, undo, log_err }), *final(self)),
    {
        self.message = applied_summary(undo.len(), &log_err);
        self.plan = Some(plan);
        self.last_undo = undo;
    }

    fn take_undone(&mut self, reverted: usize, errors: Vec<String>)
        ensures
            handled(*old(self), (BgResult::Undo { reverted, errors }), *final(self)),
    {
        self.last_undo = Vec::new();
        self.plan = None;
        self.message = undo_summary(reverted, &errors);
    }

    fn take_login(&mut self)
        ensures
            handled(*old(self), BgResult::Login(Ok(())), *final(self)),
    {
        self.pc_connected = true;
        self.pc_password = String::new();
        self.message = words("Connected to pCloud.");
    }

    fn take_remote_preview(&mut self, plan: RemotePlan)
        ensures
            handled(*old(self), BgResult::RemotePreview(Ok(plan)), *final(self)),
    {
        assert(pcloud::plain_steps(pcloud::remote_steps(plan.rows@)).len() == plan.rows@.len());
        self.message = plan_summary(plan.rows.len(), plan.ok_count(), plan.problem_count());
        self.remote_plan = Some(plan);
    }

    fn take_remote_applied(&mut self, plan: RemotePlan, undo: Vec<RemoteUndo>)
        ensures
            handled(*old(self), (BgResult::RemoteApply { plan, undo }), *final(self)),
    {
        self.message = counted("Renamed ", undo.len(), " file(s) on pCloud. Undo available.");
        self.remote_plan = Some(plan);
        self.remote_undo = undo;
    }

    fn take_remote_undone(&mut self, reverted: usize, errors: Vec<String>)
        ensures
            handled(*old(self), (BgResult::RemoteUndo { reverted, errors }), *final(self)),
    {
        self.remote_undo = Vec::new();
        self.remote_plan = None;
        self.message = undo_summary(reverted, &errors);
    }

    /// Takes in what background work gave. Returns whether cached counters have to be
    /// refreshed.
    pub fn handle_result(&mut self, result: BgResult) -> (refresh: bool)
        requires
            result matches BgResult::Dupes(Ok(report)) ==> dupes::sum_reclaimable(report@)
                <= u64::MAX,
        ensures
            handled(*old(self), result, *final(self)),
            refresh == outdates_counters(result),
    {
        match result {
            BgResult::Index(Ok(outcome)) => {
                self.take_index(outcome);
                true
            },
            BgResult::Index(Err(e)) => {
                self.say("Index failed: ", e.as_str());
                false
            },
            BgResult::Images(Ok(rows)) => {
                self.take_images(rows);
                false
            },
            BgResult::Images(Err(e)) => {
                self.say("Could not load images: ", e.as_str());
                false
            },
            BgResult::Dupes(Ok(report)) => {
                self.take_report(report);
                false
            },
            BgResult::Dupes(Err(e)) => {
                self.say("Duplicate scan failed: ", e.as_str());
                false
            },
            BgResult::Quarantined(outcome) => {
                self.drop_report(quarantined_summary(&outcome));
                true
            },
            BgResult::Restored { restored, errors } => {
                self.drop_report(restored_summary(restored, &errors));
                true
            },
            BgResult::Preview(plan) => {
                self.take_preview(plan);
                false
            },
            BgResult::Apply { plan, undo, log_err } => {
                self.take_applied(plan, undo, log_err);
                false
            },
            BgResult::Undo { reverted, errors } => {
                self.take_undone(reverted, errors);
                false
            },
            BgResult::Login(Ok(())) => {
                self.take_login();
                false
            },
            BgResult::Login(Err(e)) => {
                self.say("Login failed: ", e.as_str());
                false
            },
            BgResult::RemotePreview(Ok(plan)) => {
                self.take_remote_preview(plan);
                false
            },
            BgResult::RemotePreview(Err(e)) => {
                self.say("pCloud list failed: ", e.as_str());
                false
            },
            BgResult::RemoteApply { plan, undo } => {
                self.take_remote_applied(plan, undo);
                false
            },
            BgResult::RemoteUndo { reverted, errors } => {
                self.take_remote_undone(reverted, errors);
                false
            },
        }
    }
}

/// What the parent filter lets through.
pub open spec fn filtered_visibility(on: bool) -> Visibility {
    if on {
        Visibility::VisibleOnly
    } else {
        Visibility::All
    }
}

/// The message about switching the parent filter.
pub open spec fn filter_line(on: bool, hidden: nat) -> Seq<char> {
    if on {
        "Parent filter on — "@ + text::decimal(hidden) + " image(s) hidden."@
    } else {
        "Parent filter off — showing everything."@
    }
}

/// Where renamed files go: the output folder if there is one, and otherwise the
/// source.
pub open spec fn output_place(source: Option<Seq<char>>, output: Option<Seq<char>>) -> Option<
    Seq<char>,
> {
    match (source, output) {
        (Some(s), Some(o)) => Some(o),
        (Some(s), None) => Some(s),
        (None, _) => None,
    }
}

/// What became of background work.
#[derive(Debug, PartialEq, Eq, Clone, Copy, Structural)]
pub enum WorkerEvent {
    /// It is still going on.
    Working,
    /// It has given a result.
    Finished,
    /// It ended without one.
    Gone,
}

impl RenamerApp {
    /// The one place where the parent filter turns into a decision about a query. Every
    /// catalog read that feeds a view goes through here, so that no view can opt out.
    pub fn visibility(&self) -> (r: Visibility)
        ensures
            r == filtered_visibility(self.parent_filter),
    {
        if self.parent_filter {
            Visibility::VisibleOnly
        } else {
            Visibility::All
        }
    }

    /// Switches the parent filter. Everything that was read under the old setting is
    /// dropped rather than shown stale.
    pub fn set_parent_filter(&mut self, on: bool)
        ensures
            on == old(self).parent_filter ==> *final(self) == *old(self),
            on != old(self).parent_filter ==> {
                &&& *final(self) == (RenamerApp {
                    parent_filter: on,
                    images: final(self).images,
                    report: None,
                    selections: final(self).selections,
                    message: final(self).message,
                    ..*old(self)
                })
                &&& final(self).images@.len() == 0
                &&& final(self).selections@.len() == 0
                &&& final(self).message@ == filter_line(on, old(self).hidden_count as nat)
            },
    {
        if on != self.parent_filter {
            self.parent_filter = on;
            self.images = Vec::new();
            self.report = None;
            self.selections = Vec::new();
            self.message = if on {
                counted("Parent filter on — ", self.hidden_count, " image(s) hidden.")
            } else {
                words("Parent filter off — showing everything.")
            };
        }
    }

    /// Takes another folder for the library. Cached counters have to be refreshed.
    pub fn pick_library(&mut self, folder: String)
        ensures
            *final(self) == (RenamerApp {
                library: Some(folder),
                report: None,
                selections: final(self).selections,
                ..*old(self)
            }),
            final(self).selections@.len() == 0,
    {
        self.library = Some(folder);
        self.report = None;
        self.selections = Vec::new();
    }

    /// Refreshes the cached counters.
    pub fn refresh_stats(&mut self, cat: &Catalog, quarantine_bytes: u64, thumb_cache_bytes: u64)
        requires
            cat.wf(),
        ensures
            *final(self) == (RenamerApp {
                stats: final(self).stats,
                hidden_count: final(self).hidden_count,
                restorable_batch: final(self).restorable_batch,
                quarantine_bytes,
                thumb_cache_bytes,
                ..*old(self)
            }),
            match old(self).library {
                Some(root) => {
                    let rows = catalog::selected(cat@.media, catalog::present_at(root@));
                    &&& final(self).hidden_count == catalog::selected(
                        cat@.media,
                        catalog::hidden_at(cat@.users, root@),
                    ).len()
                    &&& match final(self).stats {
                        Some(s) => catalog::bytes_of(rows) <= i64::MAX && catalog::stats_of(rows)
                            == (
                            s.files as nat,
                            s.hashed as nat,
                            s.phashed as nat,
                            s.bytes as nat,
                        ),
                        None => catalog::bytes_of(rows) > i64::MAX,
                    }
                },
                None => {
                    &&& final(self).stats == old(self).stats
                    &&& final(self).hidden_count == old(self).hidden_count
                },
            },
            ({
                let batch = catalog::max_batch(
                    catalog::selected_lines(cat@.ledger, catalog::pending()),
                );
                &&& final(self).restorable_batch is Some <==> batch is Some
                &&& batch is Some ==> final(self).restorable_batch->0 == batch->0
            }),
    {
        if let Some(root) = &self.library {
            let stats: Option<CatalogStats> = match cat.stats_under(root.as_str()) {
                Ok(s) => Some(s),
                Err(_) => None,
            };
            let hidden: usize = cat.hidden_count_under(root.as_str());
            self.stats = stats;
            self.hidden_count = hidden;
        }
        self.restorable_batch = cat.latest_restorable_batch();
        self.quarantine_bytes = quarantine_bytes;
        self.thumb_cache_bytes = thumb_cache_bytes;
    }

    /// What to index, or a message if no library is picked.
    pub fn index_request(&mut self) -> (r: Option<IndexConfig>)
        ensures
            match old(self).library {
                Some(root) => {
                    &&& *final(self) == *old(self)
                    &&& r matches Some(cfg) && cfg.root@ == root@ && cfg.recursive == old(
                        self,
                    ).lib_recursive && cfg.read_exif == old(self).lib_read_exif
                        && cfg.compute_phash == old(self).lib_compute_phash && cfg.images_only
                        == old(self).lib_images_only
                },
                None => r is None && says(
                    *old(self),
                    "Pick a library folder first."@,
                    *final(self),
                ),
            },
    {
        match &self.library {
            Some(root) => Some(
                IndexConfig {
                    root: words(root.as_str()),
                    recursive: self.lib_recursive,
                    read_exif: self.lib_read_exif,
                    compute_phash: self.lib_compute_phash,
                    images_only: self.lib_images_only,
                },
            ),
            None => {
                self.message = words("Pick a library folder first.");
                None
            },
        }
    }

    /// What to read from the catalog for a view, or a message if no library is picked.
    /// Hidden images must not surface in duplicate groups either: that would be a side
    /// door past the parent filter.
    pub fn rows_request(&mut self) -> (r: Option<(String, Visibility)>)
        ensures
            match old(self).library {
                Some(root) => {
                    &&& *final(self) == *old(self)
                    &&& r matches Some(q) && q.0@ == root@ && q.1 == filtered_visibility(
                        old(self).parent_filter,
                    )
                },
                None => r is None && says(*old(self), "Index a library first."@, *final(self)),
            },
    {
        match &self.library {
            Some(root) => Some((words(root.as_str()), self.visibility())),
            None => {
                self.message = words("Index a library first.");
                None
            },
        }
    }

    /// Which batch to restore, or a message if there is none.
    pub fn restore_request(&mut self) -> (r: Option<i64>)
        ensures
            r == old(self).restorable_batch,
            r is Some ==> *final(self) == *old(self),
            r is None ==> says(*old(self), "Nothing in quarantine to restore."@, *final(self)),
    {
        if self.restorable_batch.is_none() {
            self.message = words("Nothing in quarantine to restore.");
        }
        self.restorable_batch
    }

    /// Where renamed files go.
    pub fn output_root(&self) -> (r: Option<String>)
        ensures
            text::opt_view(r) == output_place(
                text::opt_view(self.source),
                text::opt_view(self.output),
            ),
    {
        match &self.source {
            Some(s) => match &self.output {
                Some(o) => Some(words(o.as_str())),
                None => Some(words(s.as_str())),
            },
            None => None,
        }
    }

    /// What to rename and how, once a source is picked.
    pub fn settings(&self) -> (r: Option<Settings>)
        ensures
            r is Some <==> self.source is Some,
            r matches Some(s) ==> s.source@ == self.source->0@ && Some(s.output_root@)
                == output_place(text::opt_view(self.source), text::opt_view(self.output))
                && s.template@ == self.template@ && s.recursive == self.recursive && s.append_ext
                == self.append_ext,
    {
        match &self.source {
            Some(source) => Some(
                Settings {
                    source: words(source.as_str()),
                    output_root: match &self.output {
                        Some(o) => words(o.as_str()),
                        None => words(source.as_str()),
                    },
                    template: words(self.template.as_str()),
                    recursive: self.recursive,
                    append_ext: self.append_ext,
                },
            ),
            None => None,
        }
    }

    /// What to preview, or a message if no source is picked.
    pub fn preview_request(&mut self) -> (r: Option<Settings>)
        ensures
            r is Some <==> old(self).source is Some,
            r matches Some(s) ==> s.source@ == old(self).source->0@ && Some(s.output_root@)
                == output_place(text::opt_view(old(self).source), text::opt_view(old(self).output))
                && s.template@ == old(self).template@ && s.recursive == old(self).recursive
                && s.append_ext == old(self).append_ext,
            r is Some ==> *final(self) == *old(self),
            r is None ==> says(*old(self), "Pick a source folder first."@, *final(self)),
    {
        let r: Option<Settings> = self.settings();
        if r.is_none() {
            self.message = words("Pick a source folder first.");
        }
        r
    }

    /// Takes the undo log of the output folder, if a source is picked.
    pub fn load_undo_log(&mut self, log: Vec<UndoEntry>)
        ensures
            old(self).source is None ==> *final(self) == *old(self),
            old(self).source is Some ==> {
                &&& *final(self) == (RenamerApp {
                    message: final(self).message,
                    last_undo: log,
                    ..*old(self)
                })
                &&& log@.len() == 0 ==> final(self).message == old(self).message
                &&& log@.len() > 0 ==> final(self).message@ == "Loaded undo log: "@
                    + text::decimal(log@.len()) + " move(s) can be reverted."@
            },
    {
        if self.source.is_some() {
            if log.len() > 0 {
                self.message = counted(
                    "Loaded undo log: ",
                    log.len(),
                    " move(s) can be reverted.",
                );
            }
            self.last_undo = log;
        }
    }

    /// Whether there is a plan to apply, with a message if there is none.
    pub fn apply_request(&mut self) -> (r: bool)
        ensures
            r == old(self).plan is Some,
            r ==> *final(self) == *old(self),
            !r ==> says(*old(self), "Run Preview before Apply."@, *final(self)),
    {
        if self.plan.is_none() {
            self.message = words("Run Preview before Apply.");
            return false;
        }
        true
    }

    /// Whether there is anything to undo, with a message if there is not.
    pub fn undo_request(&mut self) -> (r: bool)
        ensures
            r == (old(self).last_undo@.len() > 0),
            r ==> *final(self) == *old(self),
            !r ==> says(*old(self), "Nothing to undo."@, *final(self)),
    {
        if self.last_undo.len() == 0 {
            self.message = words("Nothing to undo.");
            return false;
        }
        true
    }

    /// Whether the server can be asked, with a message if it cannot.
    pub fn remote_preview_request(&mut self) -> (r: bool)
        ensures
            r == old(self).pc_connected,
            r ==> *final(self) == *old(self),
            !r ==> says(*old(self), "Log in to pCloud first."@, *final(self)),
    {
        if !self.pc_connected {
            self.message = words("Log in to pCloud first.");
            return false;
        }
        true
    }

    /// Whether there is a plan to apply on the server, with a message if there is none.
    pub fn remote_apply_request(&mut self) -> (r: bool)
        ensures
            r == (old(self).pc_connected && old(self).remote_plan is Some),
            r ==> *final(self) == *old(self),
            !r ==> says(*old(self), "Preview before Apply."@, *final(self)),
    {
        if !self.pc_connected || self.remote_plan.is_none() {
            self.message = words("Preview before Apply.");
            return false;
        }
        true
    }

    /// Whether there is anything to undo on the server, with a message if there is not.
    pub fn remote_undo_request(&mut self) -> (r: bool)
        ensures
            r == (old(self).pc_connected && old(self).remote_undo@.len() > 0),
            r ==> *final(self) == *old(self),
            !r ==> says(*old(self), "Nothing to undo."@, *final(self)),
    {
        if !self.pc_connected || self.remote_undo.len() == 0 {
            self.message = words("Nothing to undo.");
            return false;
        }
        true
    }

    /// Ends the session with the server.
    pub fn log_out(&mut self)
        ensures
            *final(self) == (RenamerApp {
                pc_connected: false,
                remote_plan: None,
                remote_undo: final(self).remote_undo,
                ..*old(self)
            }),
            final(self).remote_undo@.len() == 0,
    {
        self.pc_connected = false;
        self.remote_plan = None;
        self.remote_undo = Vec::new();
    }

    /// Takes in what came of clearing the thumbnail cache.
    pub fn cache_cleared(&mut self, result: &Result<(), String>)
        ensures
            match *result {
                Ok(_) => {
                    &&& *final(self) == (RenamerApp {
                        message: final(self).message,
                        thumb_cache_bytes: 0,
                        ..*old(self)
                    })
                    &&& final(self).message@ == "Thumbnail cache cleared."@
                },
                Err(e) => says(*old(self), "Could not clear cache: "@ + e@, *final(self)),
            },
    {
        match result {
            Ok(_) => {
                self.message = words("Thumbnail cache cleared.");
                self.thumb_cache_bytes = 0;
            },
            Err(e) => {
                self.say("Could not clear cache: ", e.as_str());
            },
        }
    }

    /// Starts background work.
    pub fn start_worker(&mut self, label: &str)
        ensures
            *final(self) == (RenamerApp {
                busy: true,
                busy_label: final(self).busy_label,
                ..*old(self)
            }),
            final(self).busy_label@ == label@,
    {
        self.busy = true;
        self.busy_label = words(label);
    }

    /// Looks after background work. Returns whether it is still going on.
    pub fn poll_worker(&mut self, event: WorkerEvent) -> (r: bool)
        ensures
            r == (old(self).busy && event == WorkerEvent::Working),
            !old(self).busy || event == WorkerEvent::Working ==> *final(self) == *old(self),
            old(self).busy && event == WorkerEvent::Finished ==> *final(self) == (RenamerApp {
                busy: false,
                busy_label: final(self).busy_label,
                ..*old(self)
            }),
            old(self).busy && event == WorkerEvent::Gone ==> *final(self) == (RenamerApp {
                busy: false,
                busy_label: final(self).busy_label,
                message: final(self).message,
                ..*old(self)
            }) && final(self).message@ == "Background task ended unexpectedly."@,
            old(self).busy && event != WorkerEvent::Working ==> final(self).busy_label@.len() == 0,
    {
        if !self.busy {
            return false;
        }
        match event {
            WorkerEvent::Working => true,
            WorkerEvent::Finished => {
                self.busy = false;
                self.busy_label = String::new();
                false
            },
            WorkerEvent::Gone => {
                self.busy = false;
                self.busy_label = String::new();
                self.message = words("Background task ended unexpectedly.");
                false
            },
        }
    }

    /// How many renames can be undone.
    pub fn undo_count(&self) -> (r: usize)
        ensures
            r == (match self.mode {
                Mode::Local => self.last_undo@.len(),
                Mode::PCloud => self.remote_undo@.len(),
            }),
    {
        match self.mode {
            Mode::Local => self.last_undo.len(),
            Mode::PCloud => self.remote_undo.len(),
        }
    }

    /// Whether the plan on screen has anything to rename.
    pub fn can_apply(&self) -> (r: bool)
        ensures
            r == (match self.mode {
                Mode::Local => self.plan matches Some(p) && engine::count_steps(
                    engine::steps_of(p.rows@),
                    engine::is_ready(),
                ) > 0,
                Mode::PCloud => self.remote_plan matches Some(p) && engine::count_steps(
                    pcloud::plain_steps(pcloud::remote_steps(p.rows@)),
                    engine::is_ready(),
                ) > 0,
            }),
    {
        match self.mode {
            Mode::Local => match &self.plan {
                Some(p) => p.ok_count() > 0,
                None => false,
            },
            Mode::PCloud => match &self.remote_plan {
                Some(p) => p.ok_count() > 0,
                None => false,
            },
        }
    }
}

/// Whether a text filter lets an image through, both in lowercase: the image's path
/// holds the text. An empty text lets everything through.
pub open spec fn passes_lowered(needle: Seq<char>, path: Seq<char>) -> bool {
    needle.len() == 0 || text::occurs_in(needle, path)
}

/// Whether the text filter lets an image through: its path holds the text, whatever
/// the case. A blank text lets everything through.
pub open spec fn passes(filter: Seq<char>, path: Seq<char>) -> bool {
    passes_lowered(text::lowercase(text::trimmed(filter)), text::lowercase(path))
}

/// Whether a text filter lets an image through, both in lowercase.
pub fn lets_through(needle: &str, path: &str) -> (r: bool)
    ensures
        r == passes_lowered(needle@, path@),
{
    let words: Vec<char> = chars_of(needle);
    words.len() == 0 || occurs(words.as_slice(), chars_of(path).as_slice())
}

/// What the image list is narrowed down by: a text, the fewest stars, and a kind.
#[verifier::ext_equal]
pub struct Narrowing {
    pub words: Seq<char>,
    pub min_rating: u8,
    pub kind: Option<MediaKind>,
}

/// Whether an image is among those to be shown.
pub open spec fn wanted(by: Narrowing, row: catalog::Row) -> bool {
    &&& passes(by.words, row.path)
    &&& row.rating >= by.min_rating
    &&& by.kind is Some ==> kind::effective_kind(row) == by.kind->0
}

/// The positions among the first `n` images of those to be shown.
pub open spec fn passing(images: Seq<catalog::Row>, by: Narrowing, n: int) -> Seq<usize>
    decreases n,
{
    if n <= 0 {
        Seq::empty()
    } else if wanted(by, images[n - 1]) {
        passing(images, by, n - 1).push((n - 1) as usize)
    } else {
        passing(images, by, n - 1)
    }
}

/// What the image list is sorted by. By size the largest come first, which is what
/// helps in freeing space.
pub open spec fn image_key(row: catalog::Row, by: SortBy) -> order::Key {
    let words = pathname::components(row.path);
    match by {
        SortBy::Path => order::Key { words, ..order::no_key() },
        SortBy::Date => order::Key {
            first: slideshow::moment(row) as int,
            words,
            ..order::no_key()
        },
        SortBy::Size => order::Key { first: -(row.size as int), words, ..order::no_key() },
        SortBy::Colour => {
            let (bucket, major, minor) = colour::hue_key(row.dom_color);
            order::Key { first: bucket, second: major, third: minor, words, ..order::no_key() }
        },
        SortBy::Rating => slideshow::rating_key(row),
    }
}

/// The positions of the images on show, in order.
pub open spec fn listed_images(
    images: Seq<catalog::Row>,
    narrowed: Narrowing,
    by: SortBy,
) -> Seq<usize> {
    let at = passing(images, narrowed, images.len() as int);
    order::rearranged(at, at.map_values(|i: usize| image_key(images[i as int], by)))
}

fn key_of_image(row: &MediaRow, by: SortBy) -> (r: SortKey)
    ensures
        r@ == image_key(row@, by),
{
    let words: Vec<Vec<char>> = components_of(row.path.as_str());
    let mut first: i128 = 0;
    let mut second: i128 = 0;
    let mut third: i128 = 0;
    match by {
        SortBy::Path => {},
        SortBy::Date => {
            first = match row.date_taken {
                Some(t) => t as i128,
                None => row.mtime as i128,
            };
        },
        SortBy::Size => {
            first = -(row.size as i128);
        },
        SortBy::Colour => {
            let (bucket, major, minor): (u8, i32, i32) = hue_sort_key(row.dom_color);
            first = bucket as i128;
            second = major as i128;
            third = minor as i128;
        },
        SortBy::Rating => {
            first = -(row.rating as i128);
        },
    }
    let key: SortKey = SortKey { lead: Vec::new(), first, second, third, fourth: 0, words };
    assert(key@ =~= image_key(row@, by));
    key
}

/// The paths of a group's members other than the one to keep, among the first `n`.
pub open spec fn set_aside(members: Seq<catalog::Row>, keeper: int, n: int) -> Seq<Seq<char>>
    decreases n,
{
    if n <= 0 {
        Seq::empty()
    } else if n - 1 == keeper {
        set_aside(members, keeper, n - 1)
    } else {
        set_aside(members, keeper, n - 1).push(members[n - 1].path)
    }
}

/// What the choices for the first `n` groups would set aside: of every enabled group
/// all but the one to keep.
pub open spec fn selected_upto(
    groups: Seq<dupes::Group>,
    choices: Seq<GroupSel>,
    n: int,
) -> Seq<Seq<char>>
    decreases n,
{
    if n <= 0 {
        Seq::empty()
    } else {
        let before = selected_upto(groups, choices, n - 1);
        if choices[n - 1].enabled {
            before + set_aside(
                groups[n - 1].members,
                choices[n - 1].keeper as int,
                groups[n - 1].members.len() as int,
            )
        } else {
            before
        }
    }
}

/// What the choices would set aside.
pub open spec fn selection(report: Option<Seq<dupes::Group>>, choices: Seq<GroupSel>) -> Seq<
    Seq<char>,
> {
    match report {
        Some(groups) => selected_upto(
            groups,
            choices,
            if groups.len() <= choices.len() {
                groups.len() as int
            } else {
                choices.len() as int
            },
        ),
        None => Seq::empty(),
    }
}

/// The groups on screen.
pub open spec fn groups_shown(report: Option<DupReport>) -> Option<Seq<dupes::Group>> {
    match report {
        Some(r) => Some(r@),
        None => None,
    }
}

fn push_set_aside(out: &mut Vec<String>, group: &DupGroup, keeper: usize)
    ensures
        engine::views(final(out)@) == engine::views(old(out)@) + set_aside(
            group@.members,
            keeper as int,
            group@.members.len() as int,
        ),
{
    let ghost ms = group@.members;
    let ghost start = engine::views(out@);
    let mut i: usize = 0;
    assert(engine::views(out@) =~= start + set_aside(ms, keeper as int, 0));
    while i < group.members.len()
        invariant
            ms == catalog::rows_of(group.members@),
            i <= group.members@.len(),
            engine::views(out@) == start + set_aside(ms, keeper as int, i as int),
        decreases group.members@.len() - i,
    {
        let ghost before = out@;
        assert(ms[i as int] == group.members@[i as int]@);
        if i != keeper {
            let path: String = group.members[i].path.clone();
            out.push(path);
            assert(engine::views(out@) =~= engine::views(before).push(ms[i as int].path));
            assert(engine::views(out@) =~= start + set_aside(ms, keeper as int, i + 1));
        }
        i += 1;
    }
}

/// Whether an image has the given contents.
pub open spec fn has_contents(row: catalog::Row, hash: Seq<char>) -> bool {
    row.content_hash == Some(hash)
}

/// What the user can say of an image.
#[derive(Debug, PartialEq, Eq, Clone, Copy, Structural)]
pub enum Mark {
    Hidden(bool),
    Rating(u8),
    Kind(Option<MediaKind>),
}

/// An image with a mark.
pub open spec fn marked(row: catalog::Row, mark: Mark) -> catalog::Row {
    match mark {
        Mark::Hidden(hidden) => catalog::Row { hidden, ..row },
        Mark::Rating(rating) => catalog::Row { rating, ..row },
        Mark::Kind(kind_override) => catalog::Row { kind_override, ..row },
    }
}

/// The image list once an image was marked. Copies with the same contents share what
/// the user supplies, so they change too.
pub open spec fn with_mark(
    images: Seq<catalog::Row>,
    at: int,
    hash: Seq<char>,
    mark: Mark,
) -> Seq<catalog::Row> {
    images.map(
        |i: int, row: catalog::Row|
            if i == at || has_contents(row, hash) {
                marked(row, mark)
            } else {
                row
            },
    )
}

/// The user's marks with one changed.
pub open spec fn remarked(marks: catalog::UserMarks, mark: Mark) -> catalog::UserMarks {
    match mark {
        Mark::Hidden(hidden) => catalog::UserMarks { hidden, ..marks },
        Mark::Rating(rating) => catalog::UserMarks { rating, ..marks },
        Mark::Kind(kind) => catalog::UserMarks { kind, ..marks },
    }
}

/// The hash that a row is tagged by: its own, or what reading its file gave.
pub open spec fn tagging_hash(row: catalog::Row, read: Result<Seq<char>, Seq<char>>) -> Result<
    Seq<char>,
    Seq<char>,
> {
    match row.content_hash {
        Some(h) => Ok(h),
        None => match read {
            Ok(h) => Ok(h),
            Err(e) => Err(indexer::about(row.path, e)),
        },
    }
}

/// A result of texts as mathematical values.
pub open spec fn result_view(r: Result<String, String>) -> Result<Seq<char>, Seq<char>> {
    match r {
        Ok(s) => Ok(s@),
        Err(e) => Err(e@),
    }
}

/// The catalog once a row was marked: its hash is recorded if it had none, and the mark
/// goes by that hash.
pub open spec fn tagged(
    t: catalog::Tables,
    row: catalog::Row,
    hash: Seq<char>,
    mark: Mark,
) -> catalog::Tables {
    catalog::Tables {
        media: if row.content_hash is None {
            catalog::with_row(t.media, row.id, catalog::with_hash(hash))
        } else {
            t.media
        },
        users: t.users.insert(hash, remarked(catalog::marks_at(t.users, hash), mark)),
        ..t
    }
}

/// The rating that clicking on a star gives: that many stars, at most five, or none if
/// it is the rating already.
pub open spec fn star_rating(rating: u8, star: u8) -> u8 {
    if star == rating {
        0
    } else if star > 5 {
        5
    } else {
        star
    }
}

/// What becomes of the state and the catalog when an image is marked, with what is said
/// about it.
pub open spec fn marking(
    before: RenamerApp,
    t: catalog::Tables,
    at: int,
    mark: Mark,
    read: Result<Seq<char>, Seq<char>>,
    said: Seq<char>,
    after: RenamerApp,
    u: catalog::Tables,
    stored: bool,
) -> bool {
    let images = catalog::rows_of(before.images@);
    if at >= images.len() {
        !stored && after == before && u == t
    } else {
        match tagging_hash(images[at], read) {
            Ok(hash) => {
                &&& stored
                &&& u == tagged(t, images[at], hash, mark)
                &&& after == (RenamerApp {
                    images: after.images,
                    message: after.message,
                    ..before
                })
                &&& catalog::rows_of(after.images@) == with_mark(images, at, hash, mark)
                &&& after.message@ == said
            },
            Err(e) => {
                &&& !stored
                &&& u == t
                &&& says(before, "Could not hash for tagging: "@ + e, after)
            },
        }
    }
}

/// The rename table.
pub open spec fn rename_table(
    mode: Mode,
    plan: Option<Plan>,
    remote: Option<RemotePlan>,
) -> Seq<Shown> {
    match mode {
        Mode::Local => match plan {
            Some(p) => engine::steps_of(p.rows@).map_values(
                |s: engine::Step|
                    Shown {
                        name: metadata::or_empty(pathname::file_name(s.src)),
                        target: s.rel_target,
                        status: s.status,
                    },
            ),
            None => Seq::empty(),
        },
        Mode::PCloud => match remote {
            Some(p) => pcloud::remote_steps(p.rows@).map_values(
                |s: pcloud::RemoteStep|
                    Shown {
                        name: s.display_name,
                        target: s.step.rel_target,
                        status: s.step.status,
                    },
            ),
            None => Seq::empty(),
        },
    }
}

/// Rows of the rename table as mathematical values.
pub open spec fn rows_shown(rows: Seq<RowView>) -> Seq<Shown> {
    rows.map_values(|r: RowView| r@)
}

impl RenamerApp {
    /// What the image list is narrowed down by.
    pub open spec fn narrowing(&self) -> Narrowing {
        Narrowing {
            words: self.image_filter@,
            min_rating: self.min_rating,
            kind: self.kind_filter,
        }
    }

    /// The positions of the images on show, filtered and in order.
    pub fn visible_images(&self) -> (r: Vec<usize>)
        ensures
            r@ == listed_images(catalog::rows_of(self.images@), self.narrowing(), self.sort_by),
    {
        let ghost rs = catalog::rows_of(self.images@);
        let ghost narrowed = self.narrowing();
        let needle: String = to_lower(trim(self.image_filter.as_str()).as_str());
        let mut at: Vec<usize> = Vec::new();
        let mut keys: Vec<SortKey> = Vec::new();
        let by: SortBy = self.sort_by;
        let ghost want = |k: usize| image_key(rs[k as int], by);
        let mut i: usize = 0;
        assert(at@ =~= passing(rs, narrowed, 0));
        assert(order::keys_of(keys@) =~= at@.map_values(want));
        while i < self.images.len()
            invariant
                rs == catalog::rows_of(self.images@),
                narrowed == self.narrowing(),
                needle@ == text::lowercase(text::trimmed(self.image_filter@)),
                want == (|k: usize| image_key(rs[k as int], by)),
                i <= self.images@.len(),
                at@ == passing(rs, narrowed, i as int),
                order::keys_of(keys@) == at@.map_values(want),
            decreases self.images@.len() - i,
        {
            let ghost at_before = at@;
            let ghost keys_before = keys@;
            let row: &MediaRow = &self.images[i];
            assert(rs[i as int] == row@);
            let named: bool = lets_through(
                needle.as_str(),
                to_lower(row.path.as_str()).as_str(),
            );
            let of_kind: bool = match self.kind_filter {
                Some(k) => effective(row) == k,
                None => true,
            };
            if named && row.rating >= self.min_rating && of_kind {
                at.push(i);
                keys.push(key_of_image(row, by));
                assert(order::keys_of(keys@) =~= order::keys_of(keys_before).push(want(i)));
                assert(at@.map_values(want) =~= at_before.map_values(want).push(want(i)));
            }
            i += 1;
        }
        assert(order::keys_of(keys@).len() == keys@.len());
        assert(at@.map_values(want).len() == at@.len());
        rearrange(at.as_slice(), keys.as_slice())
    }

    /// The paths that the choices would quarantine: of every enabled group all but the
    /// one to keep.
    pub fn selected_for_quarantine(&self) -> (r: Vec<String>)
        ensures
            engine::views(r@) == selection(groups_shown(self.report), self.selections@),
    {
        let mut out: Vec<String> = Vec::new();
        if let Some(report) = &self.report {
            let ghost gs = report@;
            let n: usize = if report.groups.len() <= self.selections.len() {
                report.groups.len()
            } else {
                self.selections.len()
            };
            let mut i: usize = 0;
            assert(engine::views(out@) =~= selected_upto(gs, self.selections@, 0));
            while i < n
                invariant
                    gs == dupes::groups_of(report.groups@),
                    n <= report.groups@.len(),
                    n <= self.selections@.len(),
                    i <= n,
                    engine::views(out@) == selected_upto(gs, self.selections@, i as int),
                decreases n - i,
            {
                assert(gs[i as int] == report.groups@[i as int]@);
                let sel: GroupSel = self.selections[i];
                if sel.enabled {
                    push_set_aside(&mut out, &report.groups[i], sel.keeper);
                }
                i += 1;
            }
        } else {
            assert(engine::views(out@) =~= Seq::<Seq<char>>::empty());
        }
        out
    }

    /// What to quarantine, or a message if nothing is selected.
    pub fn quarantine_request(&mut self) -> (r: Option<Vec<String>>)
        ensures
            ({
                let paths = selection(groups_shown(old(self).report), old(self).selections@);
                &&& r is Some <==> paths.len() > 0
                &&& r matches Some(v) ==> engine::views(v@) == paths && *final(self) == *old(self)
                &&& r is None ==> says(
                    *old(self),
                    "Nothing selected to quarantine."@,
                    *final(self),
                )
            }),
    {
        let paths: Vec<String> = self.selected_for_quarantine();
        assert(engine::views(paths@).len() == paths@.len());
        if paths.len() == 0 {
            self.message = words("Nothing selected to quarantine.");
            return None;
        }
        Some(paths)
    }

    /// The order in which a slideshow plays back the images on show.
    pub fn slides(&self, order: SlideOrder, seed: u64) -> (r: Vec<usize>)
        ensures
            r@ == slideshow::sequence(
                catalog::rows_of(self.images@),
                listed_images(catalog::rows_of(self.images@), self.narrowing(), self.sort_by),
                order,
                seed,
            ),
    {
        let listed: Vec<usize> = self.visible_images();
        proof {
            assert(self.images@.len() == self.images.len());
            lemma_listed_images_exist(
                catalog::rows_of(self.images@),
                self.narrowing(),
                self.sort_by,
            );
        }
        build_order(self.images.as_slice(), listed.as_slice(), order, seed)
    }

    fn tag(
        &mut self,
        cat: &mut Catalog,
        row_index: usize,
        mark: Mark,
        read: &Result<String, String>,
        said: String,
    ) -> (stored: bool)
        requires
            old(cat).wf(),
            mark matches Mark::Rating(rating) ==> rating <= 5,
        ensures
            final(cat).wf(),
            marking(
                *old(self),
                old(cat)@,
                row_index as int,
                mark,
                result_view(*read),
                said@,
                *final(self),
                final(cat)@,
                stored,
            ),
    {
        if row_index >= self.images.len() {
            return false;
        }
        let ghost before = catalog::rows_of(self.images@);
        assert(before[row_index as int] == self.images@[row_index as int]@);
        match ensure_content_hash(cat, &self.images[row_index], read) {
            Ok(hash) => {
                match mark {
                    Mark::Hidden(hidden) => cat.set_hidden(hash.as_str(), hidden),
                    Mark::Rating(rating) => cat.set_rating(hash.as_str(), rating),
                    Mark::Kind(kind) => cat.set_kind(hash.as_str(), kind),
                }
                self.message = said;
                mark_all(&mut self.images, row_index, hash.as_str(), mark);
                true
            },
            Err(e) => {
                self.say("Could not hash for tagging: ", e.as_str());
                false
            },
        }
    }

    /// Hides or unhides an image. `read` is what hashing its file gave, and is used only
    /// where no hash is known. Returns whether the catalog has changed, so that cached
    /// counters have to be refreshed.
    pub fn set_hidden(
        &mut self,
        cat: &mut Catalog,
        row_index: usize,
        hidden: bool,
        read: &Result<String, String>,
    ) -> (refresh: bool)
        requires
            old(cat).wf(),
        ensures
            final(cat).wf(),
            marking(
                *old(self),
                old(cat)@,
                row_index as int,
                Mark::Hidden(hidden),
                result_view(*read),
                (if hidden {
                    "Hidden: "@
                } else {
                    "Unhidden: "@
                }) + catalog::rows_of(old(self).images@)[row_index as int].file_name,
                *final(self),
                final(cat)@,
                refresh,
            ),
    {
        if row_index >= self.images.len() {
            return false;
        }
        assert(catalog::rows_of(self.images@)[row_index as int] == self.images@[row_index as int]@);
        let said: String = joined_words(
            if hidden {
                "Hidden: "
            } else {
                "Unhidden: "
            },
            self.images[row_index].file_name.as_str(),
        );
        self.tag(cat, row_index, Mark::Hidden(hidden), read, said)
    }

    /// Rates an image by a click on one of its stars. `read` is as for hiding one.
    /// Returns whether the rating was stored.
    pub fn rate(
        &mut self,
        cat: &mut Catalog,
        row_index: usize,
        star: u8,
        read: &Result<String, String>,
    ) -> (stored: bool)
        requires
            old(cat).wf(),
        ensures
            final(cat).wf(),
            marking(
                *old(self),
                old(cat)@,
                row_index as int,
                Mark::Rating(
                    star_rating(
                        catalog::rows_of(old(self).images@)[row_index as int].rating,
                        star,
                    ),
                ),
                result_view(*read),
                old(self).message@,
                *final(self),
                final(cat)@,
                stored,
            ),
    {
        if row_index >= self.images.len() {
            return false;
        }
        assert(catalog::rows_of(self.images@)[row_index as int] == self.images@[row_index as int]@);
        let rating: u8 = if star == self.images[row_index].rating {
            0
        } else if star > 5 {
            5
        } else {
            star
        };
        let said: String = self.message.clone();
        self.tag(cat, row_index, Mark::Rating(rating), read, said)
    }

    /// Overrides the guessed kind of an image, or goes back to the guess. `read` is as
    /// for hiding one. Returns whether the choice was stored.
    pub fn set_kind(
        &mut self,
        cat: &mut Catalog,
        row_index: usize,
        kind: Option<MediaKind>,
        read: &Result<String, String>,
    ) -> (stored: bool)
        requires
            old(cat).wf(),
        ensures
            final(cat).wf(),
            marking(
                *old(self),
                old(cat)@,
                row_index as int,
                Mark::Kind(kind),
                result_view(*read),
                old(self).message@,
                *final(self),
                final(cat)@,
                stored,
            ),
    {
        let said: String = self.message.clone();
        self.tag(cat, row_index, Mark::Kind(kind), read, said)
    }

    /// The rename table.
    pub fn display_rows(&self) -> (r: Vec<RowView>)
        ensures
            rows_shown(r@) == rename_table(self.mode, self.plan, self.remote_plan),
    {
        let mut out: Vec<RowView> = Vec::new();
        let ghost want = rename_table(self.mode, self.plan, self.remote_plan);
        match self.mode {
            Mode::Local => {
                if let Some(p) = &self.plan {
                    let mut i: usize = 0;
                    while i < p.rows.len()
                        invariant
                            self.mode == Mode::Local,
                            self.plan == Some(*p),
                            want == rename_table(self.mode, self.plan, self.remote_plan),
                            i <= p.rows@.len(),
                            out@.len() == i,
                            forall|k: int| 0 <= k < i ==> (#[trigger] out@[k])@ == want[k],
                        decreases p.rows@.len() - i,
                    {
                        assert(engine::steps_of(p.rows@)[i as int] == p.rows@[i as int]@);
                        let row: RowView = RowView {
                            name: match file_name_of(p.rows[i].src.as_str()) {
                                Some(n) => n,
                                None => String::new(),
                            },
                            target: p.rows[i].rel_target.clone(),
                            status: p.rows[i].status.clone(),
                        };
                        assert(row@ =~= want[i as int]);
                        out.push(row);
                        i += 1;
                    }
                }
            },
            Mode::PCloud => {
                if let Some(p) = &self.remote_plan {
                    let mut i: usize = 0;
                    while i < p.rows.len()
                        invariant
                            self.mode == Mode::PCloud,
                            self.remote_plan == Some(*p),
                            want == rename_table(self.mode, self.plan, self.remote_plan),
                            i <= p.rows@.len(),
                            out@.len() == i,
                            forall|k: int| 0 <= k < i ==> (#[trigger] out@[k])@ == want[k],
                        decreases p.rows@.len() - i,
                    {
                        assert(pcloud::remote_steps(p.rows@)[i as int] == p.rows@[i as int]@);
                        let row: RowView = RowView {
                            name: p.rows[i].display_name.clone(),
                            target: p.rows[i].rel_target.clone(),
                            status: p.rows[i].status.clone(),
                        };
                        assert(row@ =~= want[i as int]);
                        out.push(row);
                        i += 1;
                    }
                }
            },
        }
        assert(rows_shown(out@) =~= want);
        out
    }
}

fn same_hash(a: &Option<String>, b: &str) -> (r: bool)
    ensures
        r == (text::opt_view(*a) == Some(b@)),
{
    match a {
        Some(h) => str_eq(h.as_str(), b),
        None => false,
    }
}

fn mark_all(images: &mut Vec<MediaRow>, at: usize, hash: &str, mark: Mark)
    ensures
        catalog::rows_of(final(images)@) == with_mark(
            catalog::rows_of(old(images)@),
            at as int,
            hash@,
            mark,
        ),
{
    let ghost start = catalog::rows_of(images@);
    let ghost want = with_mark(start, at as int, hash@, mark);
    let mut i: usize = 0;
    while i < images.len()
        invariant
            start == catalog::rows_of(old(images)@),
            want == with_mark(start, at as int, hash@, mark),
            images@.len() == start.len(),
            i <= images@.len(),
            forall|k: int| 0 <= k < i ==> (#[trigger] images@[k])@ == want[k],
            forall|k: int| i <= k < images@.len() ==> (#[trigger] images@[k])@ == start[k],
        decreases images@.len() - i,
    {
        assert(images@[i as int]@ == start[i as int]);
        if i == at || same_hash(&images[i].content_hash, hash) {
            match mark {
                Mark::Hidden(hidden) => {
                    images[i].hidden = hidden;
                },
                Mark::Rating(rating) => {
                    images[i].rating = rating;
                },
                Mark::Kind(kind) => {
                    images[i].kind_override = kind;
                },
            }
        }
        assert(images@[i as int]@ == want[i as int]);
        i += 1;
    }
    assert(catalog::rows_of(images@) =~= want);
}

/// What the catalog has to follow after moves were made, or after they were taken
/// back.
pub open spec fn followed(entries: Seq<UndoEntry>, back: bool) -> Seq<(Seq<char>, Seq<char>)> {
    entries.map_values(
        |e: UndoEntry|
            if back {
                (e.to@, e.from@)
            } else {
                (e.from@, e.to@)
            },
    )
}

/// The moves for the catalog to follow, so that rows follow their files instead of
/// being built anew.
pub fn moves_to_follow(entries: &[UndoEntry], back: bool) -> (r: Vec<(String, String)>)
    ensures
        r@.map_values(|m: (String, String)| (m.0@, m.1@)) == followed(entries@, back),
{
    let ghost want = followed(entries@, back);
    let mut out: Vec<(String, String)> = Vec::new();
    let mut i: usize = 0;
    while i < entries.len()
        invariant
            want == followed(entries@, back),
            i <= entries@.len(),
            out@.len() == i,
            forall|k: int| 0 <= k < i ==> ((#[trigger] out@[k]).0@, out@[k].1@) == want[k],
        decreases entries@.len() - i,
    {
        let from: String = entries[i].from.clone();
        let to: String = entries[i].to.clone();
        if back {
            out.push((to, from));
        } else {
            out.push((from, to));
        }
        i += 1;
    }
    assert(out@.map_values(|m: (String, String)| (m.0@, m.1@)) =~= want);
    out
}

/// A row's status in words.
pub open spec fn status_words(s: engine::Status) -> Seq<char> {
    match s {
        engine::Status::Ready => "ready"@,
        engine::Status::Done => "done"@,
        engine::Status::Collision => "collision"@,
        engine::Status::Exists => "target exists"@,
        engine::Status::Error(e) => "error: "@ + e,
        engine::Status::Failed(e) => "failed: "@ + e,
    }
}

/// A row's status in words.
pub fn status_label(s: &RowStatus) -> (r: String)
    ensures
        r@ == status_words(s@),
{
    match s {
        RowStatus::Ready => words("ready"),
        RowStatus::Done => words("done"),
        RowStatus::Collision => words("collision"),
        RowStatus::Exists => words("target exists"),
        RowStatus::Error(e) => joined_words("error: ", e.as_str()),
        RowStatus::Failed(e) => joined_words("failed: ", e.as_str()),
    }
}

/// An image's kind in words, with an asterisk if the user chose it.
pub fn kind_label(row: &MediaRow) -> (r: String)
    ensures
        r@ == kind::kind_word(kind::effective_kind(row@)) + (if row.kind_override is Some {
            "*"@
        } else {
            ""@
        }),
{
    joined_words(
        effective(row).label(),
        if row.kind_override.is_some() {
            "*"
        } else {
            ""
        },
    )
}

/// An image's dimensions for people.
pub open spec fn size_words(width: Option<u32>, height: Option<u32>) -> Seq<char> {
    match (width, height) {
        (Some(w), Some(h)) => text::decimal(w as nat) + "×"@ + text::decimal(h as nat),
        _ => "—"@,
    }
}

/// An image's dimensions for people.
pub fn dimensions_label(row: &MediaRow) -> (r: String)
    ensures
        r@ == size_words(row@.width, row@.height),
{
    match (row.width, row.height) {
        (Some(w), Some(h)) => {
            let mut out: String = String::new();
            push_decimal(&mut out, w as u64);
            push_text(&mut out, "×");
            push_decimal(&mut out, h as u64);
            assert(out@ =~= size_words(row@.width, row@.height));
            out
        },
        _ => words("—"),
    }
}

/// The heading of a duplicate group.
pub open spec fn group_words(group: dupes::Group) -> Seq<char> {
    dupes::dup_label(group.kind) + " · "@ + text::decimal(group.members.len()) + " files · "@
        + bytes_text(group.reclaimable) + " recoverable"@
}

/// The heading of a duplicate group.
pub fn group_heading(group: &DupGroup) -> (r: String)
    ensures
        r@ == group_words(group@),
{
    let mut out: String = words(group.kind.label());
    push_text(&mut out, " · ");
    push_decimal(&mut out, group.members.len() as u64);
    push_text(&mut out, " files · ");
    push_text(&mut out, human_bytes(group.reclaimable).as_str());
    push_text(&mut out, " recoverable");
    assert(group@.members.len() == group.members@.len());
    assert(out@ =~= group_words(group@));
    out
}

/// What the progress bar says: the stage if there is one, and otherwise the task.
pub open spec fn progress_words(label: Seq<char>, stage: Seq<char>, done: nat, total: nat) -> Seq<
    char,
> {
    (if stage.len() == 0 {
        label
    } else {
        stage
    }) + " "@ + text::decimal(done) + "/"@ + text::decimal(total)
}

/// What the progress bar says.
pub fn progress_label(label: &str, stage: &str, done: u64, total: u64) -> (r: String)
    ensures
        r@ == progress_words(label@, stage@, done as nat, total as nat),
{
    let staged: Vec<char> = chars_of(stage);
    let mut out: String = if staged.len() == 0 {
        words(label)
    } else {
        words(stage)
    };
    push_text(&mut out, " ");
    push_decimal(&mut out, done);
    push_text(&mut out, "/");
    push_decimal(&mut out, total);
    assert(out@ =~= progress_words(label@, stage@, done as nat, total as nat));
    out
}

proof fn lemma_keeper_stays(members: Seq<catalog::Row>, keeper: int, n: int, path: Seq<char>)
    requires
        0 <= n <= members.len(),
        set_aside(members, keeper, n).contains(path),
    ensures
        exists|i: int| 0 <= i < n && i != keeper && #[trigger] members[i].path == path,
    decreases n,
{
    if n > 0 {
        let now = set_aside(members, keeper, n);
        let before = set_aside(members, keeper, n - 1);
        let k = choose|k: int| 0 <= k < now.len() && now[k] == path;
        if n - 1 != keeper && k == before.len() {
            assert(members[n - 1].path == path);
        } else {
            assert(before[k] == path);
            lemma_keeper_stays(members, keeper, n - 1, path);
        }
    }
}

/// What is selected for quarantine comes from an enabled group and is not the member
/// to be kept.
pub proof fn keepers_are_never_selected(
    groups: Seq<dupes::Group>,
    choices: Seq<GroupSel>,
    n: int,
    path: Seq<char>,
)
    requires
        0 <= n <= groups.len(),
        n <= choices.len(),
        selected_upto(groups, choices, n).contains(path),
    ensures
        exists|g: int, i: int|
            0 <= g < n && choices[g].enabled && 0 <= i < groups[g].members.len() && i
                != choices[g].keeper && #[trigger] groups[g].members[i].path == path,
    decreases n,
{
    if n > 0 {
        let now = selected_upto(groups, choices, n);
        let before = selected_upto(groups, choices, n - 1);
        let k = choose|k: int| 0 <= k < now.len() && now[k] == path;
        if k < before.len() {
            assert(before[k] == path);
            keepers_are_never_selected(groups, choices, n - 1, path);
        } else {
            let ms = groups[n - 1].members;
            let keeper = choices[n - 1].keeper as int;
            let added = set_aside(ms, keeper, ms.len() as int);
            assert(added[k - before.len()] == path);
            lemma_keeper_stays(ms, keeper, ms.len() as int, path);
            let i = choose|i: int| 0 <= i < ms.len() && i != keeper && #[trigger] ms[i].path
                == path;
            assert(groups[n - 1].members[i].path == path);
        }
    }
}

/// Only exact groups are armed to begin with.
pub proof fn only_exact_groups_are_armed(groups: Seq<DupGroup>, g: int)
    requires
        0 <= g < groups.len(),
    ensures
        first_choices(groups)[g].enabled <==> groups[g].kind == DupKind::Exact,
        first_choices(groups)[g].keeper == groups[g].keeper,
{
}

proof fn lemma_passing_images(images: Seq<catalog::Row>, by: Narrowing, n: int)
    requires
        0 <= n <= images.len(),
        images.len() <= usize::MAX,
    ensures
        passing(images, by, n).no_duplicates(),
        forall|i: usize|
            passing(images, by, n).contains(i) <==> i < n && wanted(by, images[i as int]),
    decreases n,
{
    if n > 0 {
        lemma_passing_images(images, by, n - 1);
        let before = passing(images, by, n - 1);
        let now = passing(images, by, n);
        assert forall|i: usize| now.contains(i) <==> i < n && wanted(by, images[i as int]) by {
            if now.contains(i) {
                let k = choose|k: int| 0 <= k < now.len() && now[k] == i;
                if k < before.len() {
                    assert(before.contains(before[k]));
                }
            }
            if i < n && wanted(by, images[i as int]) {
                if i == n - 1 {
                    assert(now[before.len() as int] == i);
                } else {
                    assert(before.contains(i));
                    let k = choose|k: int| 0 <= k < before.len() && before[k] == i;
                    assert(now[k] == i);
                }
            }
        }
        assert forall|a: int, b: int| 0 <= a < now.len() && 0 <= b < now.len() && a != b implies now[a]
            != now[b] by {
            if a < before.len() {
                assert(before.contains(before[a]));
            }
            if b < before.len() {
                assert(before.contains(before[b]));
            }
        }
    }
}

proof fn lemma_listed_images_exist(images: Seq<catalog::Row>, narrowed: Narrowing, by: SortBy)
    requires
        images.len() <= usize::MAX,
    ensures
        forall|k: int|
            0 <= k < listed_images(images, narrowed, by).len() ==> (#[trigger] listed_images(
                images,
                narrowed,
                by,
            )[k]) < images.len(),
{
    broadcast use vstd::seq_lib::group_to_multiset_ensures;

    let listed = listed_images(images, narrowed, by);
    let at = passing(images, narrowed, images.len() as int);
    order::rearranging_keeps_every_item(
        at,
        at.map_values(|i: usize| image_key(images[i as int], by)),
    );
    lemma_passing_images(images, narrowed, images.len() as int);
    assert forall|k: int| 0 <= k < listed.len() implies (#[trigger] listed[k]) < images.len() by {
        assert(listed.contains(listed[k]));
        assert(listed.to_multiset().count(listed[k]) > 0);
        assert(at.contains(listed[k]));
    }
}

/// The image list shows every image that passes the filters once, and no other,
/// however it is sorted.
pub proof fn sorting_shows_every_passing_image(
    images: Seq<catalog::Row>,
    narrowed: Narrowing,
    by: SortBy,
    i: usize,
)
    requires
        images.len() <= usize::MAX,
    ensures
        listed_images(images, narrowed, by).to_multiset().count(i) == if i < images.len() && wanted(
            narrowed,
            images[i as int],
        ) {
            1nat
        } else {
            0
        },
{
    broadcast use vstd::seq_lib::group_to_multiset_ensures;

    let at = passing(images, narrowed, images.len() as int);
    order::rearranging_keeps_every_item(
        at,
        at.map_values(|i: usize| image_key(images[i as int], by)),
    );
    lemma_passing_images(images, narrowed, images.len() as int);
    at.lemma_multiset_has_no_duplicates();
    assert(at.contains(i) <==> at.to_multiset().count(i) > 0);
}

/// A slideshow plays back every image that the image list shows, as often as the list
/// shows it, and no other.
pub proof fn slideshows_play_back_the_image_list(
    images: Seq<catalog::Row>,
    narrowed: Narrowing,
    by: SortBy,
    order: SlideOrder,
    seed: u64,
)
    ensures
        slideshow::sequence(
            images,
            listed_images(images, narrowed, by),
            order,
            seed,
        ).to_multiset() == listed_images(images, narrowed, by).to_multiset(),
{
    slideshow::every_order_shows_every_image(
        images,
        listed_images(images, narrowed, by),
        order,
        seed,
    );
}

/// Clicking twice on the same star clears the rating.
pub proof fn a_second_click_clears_the_rating(rating: u8, star: u8)
    requires
        1 <= star <= 5,
        star != rating,
    ensures
        star_rating(star_rating(rating, star), star) == 0,
{
}

/// Marking an image marks every copy with the same contents, wherever it is, and no
/// other image.
pub proof fn copies_share_marks(
    t: catalog::Tables,
    row: catalog::Row,
    hash: Seq<char>,
    mark: Mark,
    other: catalog::Row,
)
    ensures
        catalog::joined_row(tagged(t, row, hash, mark).users, other) == if has_contents(other, hash) {
            marked(catalog::joined_row(t.users, other), mark)
        } else {
            catalog::joined_row(t.users, other)
        },
{
}

/// An image that is hidden is shown in no view while the parent filter is on, under
/// whatever path it is catalogued.
pub proof fn hiding_an_image_takes_it_out_of_every_view(
    t: catalog::Tables,
    row: catalog::Row,
    hash: Seq<char>,
    copy: catalog::Row,
)
    requires
        has_contents(copy, hash),
    ensures
        !catalog::is_shown(
            tagged(t, row, hash, Mark::Hidden(true)).users,
            copy,
            Visibility::VisibleOnly,
        ),
{
}

/// Following moves that were made and then those taken back names the same paths in
/// reverse.
pub proof fn following_back_reverses(entries: Seq<UndoEntry>, i: int)
    requires
        0 <= i < entries.len(),
    ensures
        followed(entries, true)[i] == (followed(entries, false)[i].1, followed(entries, false)[i].0),
{
}

proof fn lemma_passing(images: Seq<catalog::Row>, by: Narrowing, n: int)
    requires
        0 <= n <= images.len() <= usize::MAX,
    ensures
        forall|k: int|
            0 <= k < passing(images, by, n).len() ==> (#[trigger] passing(images, by, n)[k]) < n
                && wanted(by, images[passing(images, by, n)[k] as int]),
        forall|i: int|
            0 <= i < n && wanted(by, #[trigger] images[i]) ==> passing(images, by, n).contains(
                i as usize,
            ),
        forall|j: int, k: int|
            0 <= j < k < passing(images, by, n).len() ==> #[trigger] passing(images, by, n)[j]
                < #[trigger] passing(images, by, n)[k],
    decreases n,
{
    if n > 0 {
        lemma_passing(images, by, n - 1);
        let rest = passing(images, by, n - 1);
        let all = passing(images, by, n);
        assert forall|i: int| 0 <= i < n && wanted(
            by,
            #[trigger] images[i],
        ) implies all.contains(i as usize) by {
            if i < n - 1 {
                assert(rest.contains(i as usize));
                let k = choose|k: int| 0 <= k < rest.len() && rest[k] == i as usize;
                assert(all[k] == i as usize);
            } else {
                assert(all[all.len() - 1] == i as usize);
            }
        }
    }
}

/// The image list shows an image exactly if its path holds the words of the filter,
/// whatever the case and but for white space around them; if it has stars enough; and if
/// it is of the kind asked for, where one is.
pub proof fn the_image_list_shows_what_is_asked_for(
    images: Seq<catalog::Row>,
    by: Narrowing,
    sort: SortBy,
    i: usize,
)
    requires
        i < images.len() <= usize::MAX,
    ensures
        listed_images(images, by, sort).contains(i) <==> {
            let row = images[i as int];
            let words = text::lowercase(text::trimmed(by.words));
            &&& words.len() == 0 || text::occurs_in(words, text::lowercase(row.path))
            &&& row.rating >= by.min_rating
            &&& by.kind is Some ==> kind::effective_kind(row) == by.kind->0
        },
        listed_images(images, by, sort).no_duplicates(),
{
    broadcast use vstd::seq_lib::group_to_multiset_ensures;

    let at = passing(images, by, images.len() as int);
    let keys = at.map_values(|i: usize| image_key(images[i as int], sort));
    lemma_passing(images, by, images.len() as int);
    order::rearranging_keeps_every_item(at, keys);
    let shown = listed_images(images, by, sort);
    vstd::seq_lib::to_multiset_contains(at, i);
    vstd::seq_lib::to_multiset_contains(shown, i);
    assert(wanted(by, images[i as int]) ==> at.contains(i));
    if at.contains(i) {
        let k = choose|k: int| 0 <= k < at.len() && at[k] == i;
        assert(wanted(by, images[at[k] as int]));
    }
    let p = order::sorting_goes_by_key(at, keys);
    assert forall|a: int, b: int| 0 <= a < shown.len() && 0 <= b < shown.len() && a != b implies shown[a]
        != shown[b] by {
        assert(p[a] != p[b]);
        assert(shown[a] == at[p[a]] && shown[b] == at[p[b]]);
        if p[a] < p[b] {
            assert(at[p[a]] < at[p[b]]);
        } else {
            assert(at[p[b]] < at[p[a]]);
        }
    }
}

/// The image list goes by what it is sorted by: by path; by the date taken, or that of the
/// file, earliest first; by size, largest first; by stars, most first; or by hue. Images
/// that are equal in that go by path.
pub proof fn the_image_list_is_sorted(
    images: Seq<catalog::Row>,
    by: Narrowing,
    sort: SortBy,
    i: int,
    j: int,
)
    requires
        0 <= i < j < listed_images(images, by, sort).len(),
    ensures
        ({
            let shown = listed_images(images, by, sort);
            let a = images[shown[i] as int];
            let b = images[shown[j] as int];
            let by_path = !order::words_lt(
                pathname::components(b.path),
                pathname::components(a.path),
            );
            let earlier = if a.date_taken is Some {
                a.date_taken->0
            } else {
                a.mtime
            };
            let later = if b.date_taken is Some {
                b.date_taken->0
            } else {
                b.mtime
            };
            let x = colour::hue_key(a.dom_color);
            let y = colour::hue_key(b.dom_color);
            &&& sort == SortBy::Path ==> by_path
            &&& sort == SortBy::Date ==> earlier < later || (earlier == later && by_path)
            &&& sort == SortBy::Size ==> a.size > b.size || (a.size == b.size && by_path)
            &&& sort == SortBy::Rating ==> a.rating > b.rating || (a.rating == b.rating && by_path)
            &&& sort == SortBy::Colour ==> x.0 < y.0 || (x.0 == y.0 && (x.1 < y.1 || (x.1 == y.1 && (
            x.2 < y.2 || (x.2 == y.2 && by_path)))))
        }),
{
    let at = passing(images, by, images.len() as int);
    let keys = at.map_values(|i: usize| image_key(images[i as int], sort));
    order::stable_order_is_in_order(keys);
    let p = order::sorting_goes_by_key(at, keys);
    assert(p[i] != p[j]);
    assert(listed_images(images, by, sort)[i] == at[p[i]]);
    assert(listed_images(images, by, sort)[j] == at[p[j]]);
}

proof fn lemma_set_aside(members: Seq<catalog::Row>, keeper: int, n: int)
    requires
        0 <= n <= members.len(),
    ensures
        0 <= keeper < n ==> set_aside(members, keeper, n) == members.take(n).remove(
            keeper,
        ).map_values(|r: catalog::Row| r.path),
        !(0 <= keeper < n) ==> set_aside(members, keeper, n) == members.take(n).map_values(
            |r: catalog::Row| r.path,
        ),
    decreases n,
{
    let f = |r: catalog::Row| r.path;
    if n > 0 {
        lemma_set_aside(members, keeper, n - 1);
        let some = members.take(n);
        let rest = members.take(n - 1);
        assert(some =~= rest.push(members[n - 1]));
        if n - 1 == keeper {
            assert(some.remove(keeper) =~= rest);
        } else if 0 <= keeper < n {
            assert(some.remove(keeper) =~= rest.remove(keeper).push(members[n - 1]));
            assert(some.remove(keeper).map_values(f) =~= rest.remove(keeper).map_values(f).push(
                members[n - 1].path,
            ));
        } else {
            assert(some.map_values(f) =~= rest.map_values(f).push(members[n - 1].path));
        }
    } else {
        assert(members.take(0).map_values(f) =~= Seq::empty());
    }
}

proof fn lemma_selected_before(
    groups: Seq<dupes::Group>,
    choices: Seq<GroupSel>,
    g: dupes::Group,
    c: GroupSel,
    n: int,
)
    requires
        0 <= n <= groups.len(),
        n <= choices.len(),
    ensures
        selected_upto(groups.push(g), choices.push(c), n) == selected_upto(groups, choices, n),
    decreases n,
{
    if n > 0 {
        lemma_selected_before(groups, choices, g, c, n - 1);
    }
}

/// Group by group, those that take part set all their members aside but the one to keep;
/// the others set none aside. Without a report nothing is.
pub proof fn all_but_the_kept_are_selected(
    groups: Seq<dupes::Group>,
    choices: Seq<GroupSel>,
    g: dupes::Group,
    c: GroupSel,
)
    requires
        groups.len() == choices.len(),
        0 <= c.keeper < g.members.len(),
    ensures
        selection(None, choices) == Seq::<Seq<char>>::empty(),
        selection(Some(Seq::empty()), Seq::empty()) == Seq::<Seq<char>>::empty(),
        selection(Some(groups.push(g)), choices.push(c)) == selection(Some(groups), choices) + (
        if c.enabled {
            g.members.remove(c.keeper as int).map_values(|r: catalog::Row| r.path)
        } else {
            Seq::empty()
        }),
{
    let n = groups.len() as int;
    lemma_selected_before(groups, choices, g, c, n);
    lemma_set_aside(g.members, c.keeper as int, g.members.len() as int);
    assert(g.members.take(g.members.len() as int) =~= g.members);
    assert(groups.push(g)[n] == g && choices.push(c)[n] == c);
    let before = selection(Some(groups), choices);
    assert(before + Seq::<Seq<char>>::empty() =~= before);
}

/// A new report takes part with its groups of identical files, each keeping what it
/// suggests; its other groups wait for the user.
pub proof fn identical_files_are_selected_at_first(groups: Seq<DupGroup>, i: int)
    requires
        0 <= i < groups.len(),
    ensures
        first_choices(groups).len() == groups.len(),
        first_choices(groups)[i].keeper == groups[i].keeper,
        first_choices(groups)[i].enabled <==> groups[i].kind == DupKind::Exact,
{
}

proof fn lemma_exact_in_double(bytes: nat)
    requires
        bytes < 0x20_0000_0000_0000,
    ensures
        single::rounded(bytes, 1, DOUBLE as nat) == bytes,
{
    assert(1nat * DOUBLE as nat == DOUBLE);
    assert(single::grain(bytes, DOUBLE as nat) == 1);
    assert(1nat * 1nat == 1nat);
    assert(bytes / 1 == bytes && bytes % 1 == 0);
    assert(bytes * 1 == bytes);
}

/// A size is told in the largest unit that it reaches, to the nearest tenth; below one
/// kilobyte in bytes. (Sizes of nine petabytes and more are rounded first.)
pub proof fn sizes_are_told_in_the_largest_unit(bytes: nat, unit: int) -> (tenths: nat)
    requires
        bytes < 0x20_0000_0000_0000,
        1 <= unit <= 4,
        unit == 1 ==> 0x400 <= bytes < 0x10_0000,
        unit == 2 ==> 0x10_0000 <= bytes < 0x4000_0000,
        unit == 3 ==> 0x4000_0000 <= bytes < 0x100_0000_0000,
        unit == 4 ==> 0x100_0000_0000 <= bytes,
    ensures
        ({
            let worth: int = if unit == 1 {
                0x400
            } else if unit == 2 {
                0x10_0000
            } else if unit == 3 {
                0x4000_0000
            } else {
                0x100_0000_0000
            };
            let name = if unit == 1 {
                " KB"@
            } else if unit == 2 {
                " MB"@
            } else if unit == 3 {
                " GB"@
            } else {
                " TB"@
            };
            &&& bytes_text(bytes) == text::decimal(tenths / 10) + "."@ + text::decimal(tenths % 10)
                + name
            &&& -worth <= 2 * (tenths * worth - 10 * bytes) <= worth
        }),
{
    reveal_with_fuel(unit_for, 5);
    lemma_exact_in_double(bytes);
    let (worth, u) = unit_for(bytes, 1, 0);
    assert(u == unit);
    let tenths = single::nearest(10 * bytes, worth);
    vstd::arithmetic::div_mod::lemma_fundamental_div_mod(10 * bytes as int, worth as int);
    let (k, r) = ((10 * bytes) / worth, (10 * bytes) % worth);
    assert(-worth <= 2 * (tenths * worth - 10 * bytes) <= worth) by (nonlinear_arith)
        requires
            10 * bytes == worth * k + r,
            0 <= r < worth,
            (tenths == k && 2 * r <= worth) || (tenths == k + 1 && 2 * r >= worth),
    ;
    reveal_strlit(" ");
    reveal_strlit("KB");
    reveal_strlit("MB");
    reveal_strlit("GB");
    reveal_strlit("TB");
    reveal_strlit(" KB");
    reveal_strlit(" MB");
    reveal_strlit(" GB");
    reveal_strlit(" TB");
    let front = text::decimal(tenths / 10) + "."@ + text::decimal(tenths % 10);
    assert(front + " "@ + "KB"@ =~= front + " KB"@);
    assert(front + " "@ + "MB"@ =~= front + " MB"@);
    assert(front + " "@ + "GB"@ =~= front + " GB"@);
    assert(front + " "@ + "TB"@ =~= front + " TB"@);
    tenths
}

/// A size below one kilobyte is told in bytes.
pub proof fn small_sizes_are_told_in_bytes(bytes: nat)
    requires
        bytes < 1024,
    ensures
        bytes_text(bytes) == text::decimal(bytes) + " B"@,
{
}

/// A star that is clicked becomes the rating, at most five, and clicking it again takes
/// the rating away.
pub proof fn clicked_stars_become_the_rating(rating: u8, star: u8)
    ensures
        star != rating && star <= 5 ==> star_rating(rating, star) == star,
        star != rating && star > 5 ==> star_rating(rating, star) == 5,
        star_rating(star, star) == 0,
{
}

/// A mark goes to the image it was made on and to all with its contents, and changes
/// nothing but what it is about.
pub proof fn marks_change_what_they_are_about(
    images: Seq<catalog::Row>,
    at: int,
    hash: Seq<char>,
    hidden: bool,
    rating: u8,
    chosen: Option<MediaKind>,
    i: int,
)
    requires
        0 <= i < images.len(),
    ensures
        ({
            let row = images[i];
            let meant = i == at || row.content_hash == Some(hash);
            let a = with_mark(images, at, hash, Mark::Hidden(hidden))[i];
            let b = with_mark(images, at, hash, Mark::Rating(rating))[i];
            let c = with_mark(images, at, hash, Mark::Kind(chosen))[i];
            &&& meant ==> a == catalog::Row { hidden, ..row }
            &&& meant ==> b == catalog::Row { rating, ..row }
            &&& meant ==> c == catalog::Row { kind_override: chosen, ..row }
            &&& !meant ==> a == row && b == row && c == row
        }),
{
}

/// What is stored for a mark: under the contents' hash, with the other marks as they were;
/// and a hash that had to be read is stored with the image.
pub proof fn marks_are_stored_by_contents(
    t: catalog::Tables,
    row: catalog::Row,
    hash: Seq<char>,
    mark: Mark,
    other: Seq<char>,
)
    requires
        other != hash,
    ensures
        ({
            let u = tagged(t, row, hash, mark);
            let before = catalog::marks_at(t.users, hash);
            let after = u.users[hash];
            &&& u.users.contains_key(hash)
            &&& u.users.contains_key(other) == t.users.contains_key(other)
            &&& t.users.contains_key(other) ==> u.users[other] == t.users[other]
            &&& mark matches Mark::Hidden(h) ==> after.hidden == h && after.rating == before.rating
                && after.kind == before.kind
            &&& mark matches Mark::Rating(r) ==> after.rating == r && after.hidden == before.hidden
                && after.kind == before.kind
            &&& mark matches Mark::Kind(k) ==> after.kind == k && after.hidden == before.hidden
                && after.rating == before.rating
            &&& row.content_hash is Some ==> u.media == t.media
            &&& u.ledger == t.ledger
        }),
        forall|i: int|
            0 <= i < t.media.len() ==> {
                let s = #[trigger] t.media[i];
                let after = tagged(t, row, hash, mark).media[i];
                if row.content_hash is None && s.row.id == row.id {
                    after.row == (catalog::Row { content_hash: Some(hash), ..s.row })
                } else {
                    after == s
                }
            },
{
}

/// A mark needs a hash: the one that is known, or else the one that is read from the file;
/// where neither can be had, the path and the reason are told.
pub proof fn known_hashes_are_not_read_again(
    row: catalog::Row,
    read: Result<Seq<char>, Seq<char>>,
)
    ensures
        row.content_hash matches Some(h) ==> tagging_hash(row, read) == Ok::<Seq<char>, Seq<char>>(
            h,
        ),
        row.content_hash is None && read is Ok ==> tagging_hash(row, read) == read,
        row.content_hash is None ==> (read matches Err(e) ==> tagging_hash(row, read) == Err::<
            Seq<char>,
            Seq<char>,
        >(row.path + ": "@ + e)),
{
}

/// The files are renamed into the folder chosen for them, and where none is into the one
/// they come from; without that there is nowhere to go.
pub proof fn output_goes_to_the_source_by_default(
    source: Option<Seq<char>>,
    output: Option<Seq<char>>,
)
    ensures
        source is None ==> output_place(source, output) is None,
        source is Some && output is Some ==> output_place(source, output) == output,
        source is Some && output is None ==> output_place(source, output) == source,
{
}

/// What the table of a plan shows: for each row the name of the file as it is, the path it
/// is to have, and how far it is.
pub proof fn tables_show_each_row(plan: Plan, i: int)
    requires
        0 <= i < plan.rows@.len(),
    ensures
        rename_table(Mode::Local, Some(plan), None).len() == plan.rows@.len(),
        ({
            let row = plan.rows@[i];
            let shown = rename_table(Mode::Local, Some(plan), None)[i];
            &&& shown.target == row.rel_target@
            &&& shown.status == row.status@
            &&& pathname::file_name(row.src@) matches Some(name) ==> shown.name == name
        }),
{
}

/// Filtering for parents holds hidden images back, and without it all are shown.
pub proof fn the_filter_holds_hidden_images_back()
    ensures
        filtered_visibility(true) == Visibility::VisibleOnly,
        filtered_visibility(false) == Visibility::All,
{
}

/// The line under a plan tells how many files there are, how many are ready and how many
/// have a problem, in this order.
pub proof fn plan_lines_tell_three_counts(total: nat, ok: nat, problems: nat)
    ensures
        plan_line(total, ok, problems) == text::decimal(total) + (" file(s): "@ + text::decimal(ok)
            + (" ready, "@ + text::decimal(problems) + " problem(s)."@)),
        text::begins_with(plan_line(total, ok, problems), text::decimal(total)),
{
    let tail = " file(s): "@ + text::decimal(ok) + (" ready, "@ + text::decimal(problems)
        + " problem(s)."@);
    assert(plan_line(total, ok, problems) =~= text::decimal(total) + tail);
    assert((text::decimal(total) + tail).take(text::decimal(total).len() as int) =~= text::decimal(
        total,
    ));
}

/// Dimensions are told as width by height where both are known.
pub proof fn dimensions_are_told_if_known(w: u32, h: u32)
    ensures
        size_words(Some(w), Some(h)) == text::decimal(w as nat) + "×"@ + text::decimal(h as nat),
        size_words(None, Some(h)) == "—"@,
        size_words(Some(w), None) == "—"@,
        size_words(None, None) == "—"@,
{
}

/// A failed piece of work changes the message and nothing else.
pub proof fn failures_change_the_message_only(a: RenamerApp, result: BgResult, b: RenamerApp)
    requires
        handled(a, result, b),
        match result {
            BgResult::Index(Err(_)) => true,
            BgResult::Images(Err(_)) => true,
            BgResult::Dupes(Err(_)) => true,
            BgResult::Login(Err(_)) => true,
            BgResult::RemotePreview(Err(_)) => true,
            _ => false,
        },
    ensures
        b == (RenamerApp { message: b.message, ..a }),
{
}

/// What was listed, grouped or chosen before a run of the index, a quarantine or a putting
/// back is forgotten after it, since it need no longer hold.
pub proof fn outdated_results_are_forgotten(a: RenamerApp, result: BgResult, b: RenamerApp)
    requires
        handled(a, result, b),
    ensures
        result matches BgResult::Index(Ok(outcome)) ==> b.report is None && b.selections@.len() == 0
            && b.images@.len() == 0 && b.last_index == Some(outcome) && b.stats == Some(
            outcome.stats,
        ),
        result is Quarantined || result is Restored ==> b.report is None && b.selections@.len() == 0
            && b.images == a.images && b.plan == a.plan,
        result matches BgResult::Images(Ok(rows)) ==> b.images == rows && b.report == a.report,
        result matches BgResult::Dupes(Ok(report)) ==> b.report == Some(report)
            && b.selections@.len() == report.groups@.len() && b.images == a.images,
        outdates_counters(result) <==> ((result is Index && result->Index_0 is Ok)
            || result is Quarantined || result is Restored),
{
}

/// Applying a plan keeps the plan as it now stands and what is needed to undo it; undoing
/// forgets both. The remote plan goes by itself.
pub proof fn plans_and_undos_go_together(a: RenamerApp, result: BgResult, b: RenamerApp)
    requires
        handled(a, result, b),
    ensures
        result matches BgResult::Preview(plan) ==> b.plan == Some(plan) && b.last_undo
            == a.last_undo,
        result matches BgResult::Apply { plan, undo, log_err } ==> b.plan == Some(plan)
            && b.last_undo == undo && b.remote_plan == a.remote_plan,
        result is Undo ==> b.plan is None && b.last_undo@.len() == 0 && b.remote_plan
            == a.remote_plan && b.remote_undo == a.remote_undo,
        result matches BgResult::RemotePreview(Ok(plan)) ==> b.remote_plan == Some(plan)
            && b.remote_undo == a.remote_undo,
        result matches BgResult::RemoteApply { plan, undo } ==> b.remote_plan == Some(plan)
            && b.remote_undo == undo && b.plan == a.plan,
        result is RemoteUndo ==> b.remote_plan is None && b.remote_undo@.len() == 0 && b.plan
            == a.plan && b.last_undo == a.last_undo,
        result matches BgResult::Login(Ok(_)) ==> b.pc_connected && b.pc_password@.len() == 0
            && b.pc_email == a.pc_email,
{
}

/// At first all that a library needs is read, hidden images are shown as the default says,
/// identical and similar files are looked for within one kind, bursts are not, and nothing
/// is there to undo.
pub proof fn it_starts_with_nothing_to_undo(a: RenamerApp)
    requires
        is_initial(a),
    ensures
        a.lib_recursive && a.lib_read_exif && a.lib_compute_phash && a.lib_images_only,
        a.dup_cfg.find_exact && a.dup_cfg.find_near && !a.dup_cfg.find_burst,
        a.dup_cfg.same_kind_only && a.dup_cfg.near_threshold == 6 && a.dup_cfg.burst_window_secs
            == 2,
        a.plan is None && a.remote_plan is None && a.report is None,
        a.last_undo@.len() == 0 && a.remote_undo@.len() == 0 && a.restorable_batch is None,
        a.min_rating == 0 && a.kind_filter is None && a.image_filter@.len() == 0,
        !a.busy && !a.recursive && a.append_ext && !a.pc_connected,
        a.mode == Mode::Local && a.sort_by == SortBy::Path && a.pc_region == Region::Us,
        a.template@ == "{date_taken:%Y}/{date_taken:%m}/{name}"@,
{
}

/// The lines about undoing and putting back tell how many files it was, and if something
/// went wrong how often, with the first reason as an example.
pub proof fn lines_about_undoing_tell_both_counts(n: nat, errors: Seq<Seq<char>>)
    ensures
        errors.len() == 0 ==> undo_line(n, errors) == "Undo complete: "@ + (text::decimal(n)
            + " file(s) restored."@),
        errors.len() > 0 ==> undo_line(n, errors) == "Undo: "@ + (text::decimal(n) + (
        " restored, "@ + (text::decimal(errors.len()) + (" failed (e.g. "@ + (errors[0]
            + ")."@))))),
        errors.len() == 0 ==> restored_line(n, errors) == "Restored "@ + (text::decimal(n)
            + " file(s) from quarantine."@),
        errors.len() > 0 ==> restored_line(n, errors) == "Restored "@ + (text::decimal(n) + (", "@
            + (text::decimal(errors.len()) + (" failed (e.g. "@ + (errors[0] + ")."@))))),
{
    let tail = text::decimal(errors.len()) + (" failed (e.g. "@ + (errors[0] + ")."@));
    assert(failures(errors) =~= tail);
    assert("Undo complete: "@ + text::decimal(n) + " file(s) restored."@ =~= "Undo complete: "@ + (
    text::decimal(n) + " file(s) restored."@));
    assert("Undo: "@ + text::decimal(n) + " restored, "@ + tail =~= "Undo: "@ + (text::decimal(n) + (
    " restored, "@ + tail)));
    assert("Restored "@ + text::decimal(n) + " file(s) from quarantine."@ =~= "Restored "@ + (
    text::decimal(n) + " file(s) from quarantine."@));
    assert("Restored "@ + text::decimal(n) + ", "@ + tail =~= "Restored "@ + (text::decimal(n) + (
    ", "@ + tail)));
}

/// The line about the images tells how many are listed, and how many the filter holds
/// back if it is on and holds any back.
pub proof fn the_image_line_tells_what_is_held_back(count: nat, filtered: bool, hidden: nat)
    ensures
        !filtered || hidden == 0 ==> images_line(count, filtered, hidden) == text::decimal(count)
            + " image(s)"@ + "."@,
        filtered && hidden > 0 ==> images_line(count, filtered, hidden) == text::decimal(count)
            + " image(s)"@ + (", "@ + text::decimal(hidden) + " hidden by the parent filter"@)
            + "."@,
{
    assert(text::decimal(count) + " image(s)"@ + Seq::<char>::empty() =~= text::decimal(count)
        + " image(s)"@);
}

/// The line about duplicates tells how many groups there are of each kind and how much
/// they could free together.
pub proof fn the_line_about_duplicates_adds_up(groups: Seq<dupes::Group>)
    requires
        groups.len() > 0,
    ensures
        dupes_line(groups) == text::decimal(groups.len()) + " group(s): "@ + text::decimal(
            groups.filter(|g: dupes::Group| g.kind == DupKind::Exact).len(),
        ) + " exact, "@ + text::decimal(
            groups.filter(|g: dupes::Group| g.kind == DupKind::Near).len(),
        ) + " near, "@ + text::decimal(
            groups.filter(|g: dupes::Group| g.kind == DupKind::Burst).len(),
        ) + " burst — up to "@ + bytes_text(
            groups.fold_left(0, |n: int, g: dupes::Group| n + g.reclaimable) as nat,
        ) + " recoverable."@,
{
    dupes::reports_add_up(groups, DupKind::Exact);
    dupes::reports_add_up(groups, DupKind::Near);
    dupes::reports_add_up(groups, DupKind::Burst);
}

/// Every state of a row has its words, and an error its reason.
pub proof fn states_are_told_apart(e: Seq<char>)
    ensures
        status_words(engine::Status::Ready) == "ready"@,
        status_words(engine::Status::Done) == "done"@,
        status_words(engine::Status::Collision) == "collision"@,
        status_words(engine::Status::Exists) == "target exists"@,
        status_words(engine::Status::Error(e)).skip(7) == e,
        status_words(engine::Status::Error(e)).take(7) == "error: "@,
        status_words(engine::Status::Failed(e)).skip(8) == e,
        status_words(engine::Status::Failed(e)).take(8) == "failed: "@,
{
    reveal_strlit("error: ");
    reveal_strlit("failed: ");
    assert("error: "@.len() == 7 && "failed: "@.len() == 8);
    assert(status_words(engine::Status::Error(e)).skip(7) =~= e);
    assert(status_words(engine::Status::Error(e)).take(7) =~= "error: "@);
    assert(status_words(engine::Status::Failed(e)).skip(8) =~= e);
    assert(status_words(engine::Status::Failed(e)).take(8) =~= "failed: "@);
}

/// The heading of a group tells its kind, how many files it has and what it could free.
pub proof fn headings_tell_kind_count_and_gain(group: dupes::Group)
    ensures
        group.kind == DupKind::Exact ==> text::begins_with(group_words(group), "identical"@),
        group.kind == DupKind::Near ==> text::begins_with(group_words(group), "near-duplicate"@),
        group.kind == DupKind::Burst ==> text::begins_with(group_words(group), "burst"@),
        text::ends_in(
            group_words(group),
            text::decimal(group.members.len()) + (" files · "@ + (bytes_text(group.reclaimable)
                + " recoverable"@)),
        ),
{
    let label = dupes::dup_label(group.kind);
    let tail = text::decimal(group.members.len()) + (" files · "@ + (bytes_text(group.reclaimable)
        + " recoverable"@));
    let front = label + " · "@;
    assert(group_words(group) =~= front + tail);
    assert(group_words(group).take(label.len() as int) =~= label);
    assert(group_words(group).skip(group_words(group).len() - tail.len()) =~= tail);
}

/// Progress is told by its stage, or by what is being done where there is none, and how
/// much of it is done.
pub proof fn progress_is_told_by_stage(label: Seq<char>, stage: Seq<char>, done: nat, total: nat)
    ensures
        stage.len() > 0 ==> progress_words(label, stage, done, total) == stage + (" "@
            + text::decimal(done) + ("/"@ + text::decimal(total))),
        stage.len() == 0 ==> progress_words(label, stage, done, total) == label + (" "@
            + text::decimal(done) + ("/"@ + text::decimal(total))),
{
    let tail = " "@ + text::decimal(done) + ("/"@ + text::decimal(total));
    let what = if stage.len() == 0 {
        label
    } else {
        stage
    };
    assert(progress_words(label, stage, done, total) =~= what + tail);
}

/// What is told of a quarantine: how many files, what that frees, and if something went
/// wrong how often, with the first reason.
pub proof fn the_line_about_a_quarantine_tells_all(outcome: quarantine::Outcome)
    ensures
        outcome.errors.len() == 0 ==> quarantined_line(outcome) == "Quarantined "@ + (text::decimal(
            outcome.moved,
        ) + (" file(s), "@ + (bytes_text(outcome.bytes) + (" freed"@ + ". Undo available."@)))),
        outcome.errors.len() > 0 ==> quarantined_line(outcome) == "Quarantined "@ + (text::decimal(
            outcome.moved,
        ) + (" file(s), "@ + (bytes_text(outcome.bytes) + (" freed"@ + (" ("@ + (text::decimal(
            outcome.errors.len(),
        ) + (" error(s), e.g. "@ + (outcome.errors[0] + (")"@ + ". Undo available."@))))))))),
{
    let m = text::decimal(outcome.moved);
    let z = bytes_text(outcome.bytes);
    let w = text::decimal(outcome.errors.len());
    let end = ". Undo available."@;
    let fine = "Quarantined "@ + (m + (" file(s), "@ + (z + (" freed"@ + end))));
    let not = "Quarantined "@ + (m + (" file(s), "@ + (z + (" freed"@ + (" ("@ + (w + (
    " error(s), e.g. "@ + (outcome.errors[0] + (")"@ + end)))))))));
    if outcome.errors.len() == 0 {
        assert(quarantined_line(outcome) =~= fine);
    } else {
        assert(quarantined_line(outcome) =~= not);
    }
}

/// Marking an image that is listed stores the mark under its hash and shows it on the
/// image at once; where no hash can be had nothing changes but the message, and an image
/// that is not listed changes nothing at all.
pub proof fn marks_are_stored_and_shown(
    before: RenamerApp,
    t: catalog::Tables,
    at: int,
    mark: Mark,
    read: Result<Seq<char>, Seq<char>>,
    said: Seq<char>,
    after: RenamerApp,
    u: catalog::Tables,
    stored: bool,
)
    requires
        0 <= at,
        marking(before, t, at, mark, read, said, after, u, stored),
    ensures
        ({
            let images = catalog::rows_of(before.images@);
            let shown = catalog::rows_of(after.images@);
            let hash = if images[at].content_hash is Some {
                images[at].content_hash->0
            } else {
                read->Ok_0
            };
            let known = images[at].content_hash is Some || read is Ok;
            &&& at >= images.len() ==> !stored && after == before && u == t
            &&& at < images.len() && !known ==> !stored && u == t && after.images == before.images
            &&& at < images.len() && known ==> {
                &&& stored
                &&& u.users.contains_key(hash)
                &&& shown.len() == images.len()
                &&& mark matches Mark::Hidden(h) ==> u.users[hash].hidden == h && shown[at].hidden
                    == h
                &&& mark matches Mark::Rating(r) ==> u.users[hash].rating == r && shown[at].rating
                    == r
                &&& mark matches Mark::Kind(k) ==> u.users[hash].kind == k
                    && shown[at].kind_override == k
                &&& after.message@ == said
            }
        }),
{
    let images = catalog::rows_of(before.images@);
    if at < images.len() {
        match tagging_hash(images[at], read) {
            Ok(hash) => {
                marks_change_what_they_are_about(images, at, hash, true, 0, None, at);
            },
            Err(e) => {},
        }
    }
}

/// The line about renamed files tells how many, and says so if they cannot be undone.
pub proof fn the_line_about_renaming_tells_of_the_log(count: nat, e: Seq<char>)
    ensures
        applied_line(count, None) == "Renamed "@ + text::decimal(count)
            + " file(s). Undo available."@,
        applied_line(count, Some(e)) == "Renamed "@ + (text::decimal(count) + (
        " file(s), but undo log not saved: "@ + e)),
        filter_line(true, count) == "Parent filter on — "@ + (text::decimal(count)
            + " image(s) hidden."@),
        filter_line(false, count) == "Parent filter off — showing everything."@,
{
    let tail = " file(s), but undo log not saved: "@ + e;
    assert("Renamed "@ + text::decimal(count) + tail =~= "Renamed "@ + (text::decimal(count)
        + tail));
    assert("Parent filter on — "@ + text::decimal(count) + " image(s) hidden."@
        =~= "Parent filter on — "@ + (text::decimal(count) + " image(s) hidden."@));
}

} // verus!
