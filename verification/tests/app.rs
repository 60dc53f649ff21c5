//! The program's state.

use renamer::app::{
    dimensions_label, group_heading, human_bytes, kind_label, lets_through, moves_to_follow, plan_summary, progress_label,
    status_label, undo_summary, BgResult, GroupSel, Mode, RenamerApp, SortBy, WorkerEvent,
};
use renamer::catalog::{Catalog, CatalogStats, MediaRow, Visibility};
use renamer::colour::pack;
use renamer::dupes::{DupGroup, DupKind, DupReport};
use renamer::engine::{Plan, PlanRow, RowStatus, UndoEntry};
use renamer::indexer::IndexOutcome;
use renamer::kind::MediaKind;
use renamer::pcloud::{RemotePlan, RemoteRow, RemoteUndo};
use renamer::quarantine::QuarantineOutcome;
use renamer::slideshow::SlideOrder;

#[test]
fn human_bytes_scales_units() {
    assert_eq!(human_bytes(0), "0 B");
    assert_eq!(human_bytes(512), "512 B");
    assert_eq!(human_bytes(1024), "1.0 KB");
    assert_eq!(human_bytes(1536), "1.5 KB");
    assert_eq!(human_bytes(1024 * 1024), "1.0 MB");
    assert_eq!(human_bytes(3 * 1024 * 1024 * 1024), "3.0 GB");
}

fn app_with_report(kinds: &[DupKind]) -> RenamerApp {
    let groups: Vec<DupGroup> = kinds
        .iter()
        .enumerate()
        .map(|(i, &kind)| {
            let members = vec![
                MediaRow {
                    path: format!("/lib/g{i}_keep.jpg"),
                    size: 100,
                    ..MediaRow::default()
                },
                MediaRow {
                    path: format!("/lib/g{i}_dup.jpg"),
                    size: 100,
                    ..MediaRow::default()
                },
            ];
            DupGroup {
                kind,
                members,
                keeper: 0,
                spread: 0,
                reclaimable: 100,
            }
        })
        .collect();
    let report = DupReport { groups };
    let mut app = RenamerApp::default();
    app.handle_result(BgResult::Dupes(Ok(report)));
    app
}

#[test]
fn exact_groups_are_preselected_and_risky_ones_are_not() {
    // Byte-identical matches are safe to act on; near and burst matches are
    // judgement calls and must not be armed by default.
    let app = app_with_report(&[DupKind::Exact, DupKind::Near, DupKind::Burst]);
    let enabled: Vec<bool> = app.selections.iter().map(|s| s.enabled).collect();
    assert_eq!(enabled, vec![true, false, false]);
}

#[test]
fn selection_collects_non_keepers_of_enabled_groups_only() {
    let mut app = app_with_report(&[DupKind::Exact, DupKind::Near]);
    // Only the exact group is armed, so only its duplicate is selected.
    let paths = app.selected_for_quarantine();
    assert_eq!(paths, vec![String::from("/lib/g0_dup.jpg")]);

    // Arming the near group adds its non-keeper too.
    app.selections[1].enabled = true;
    let paths = app.selected_for_quarantine();
    assert_eq!(
        paths,
        vec![
            String::from("/lib/g0_dup.jpg"),
            String::from("/lib/g1_dup.jpg"),
        ]
    );
}

#[test]
fn changing_the_keeper_changes_what_would_be_quarantined() {
    let mut app = app_with_report(&[DupKind::Exact]);
    assert_eq!(
        app.selected_for_quarantine(),
        vec![String::from("/lib/g0_dup.jpg")]
    );
    // Keep the other copy instead: the first file becomes the removable one.
    app.selections[0].keeper = 1;
    assert_eq!(
        app.selected_for_quarantine(),
        vec![String::from("/lib/g0_keep.jpg")]
    );
}

#[test]
fn keeper_is_never_in_the_quarantine_selection() {
    let mut app = app_with_report(&[DupKind::Exact, DupKind::Near, DupKind::Burst]);
    for sel in &mut app.selections {
        sel.enabled = true;
    }
    let selected = app.selected_for_quarantine();
    let report = app.report.as_ref().unwrap();
    for (group, sel) in report.groups.iter().zip(&app.selections) {
        let keeper = &group.members[sel.keeper].path;
        assert!(
            !selected.contains(keeper),
            "keeper {keeper:?} must never be quarantined"
        );
    }
    assert_eq!(selected.len(), 3, "one non-keeper per group");
}

fn img(path: &str, size: u64, dom: Option<u32>, taken: Option<i64>) -> MediaRow {
    MediaRow {
        path: path.to_string(),
        file_name: path.rsplit('/').next().unwrap_or(path).to_string(),
        size,
        dom_color: dom,
        date_taken: taken,
        ..MediaRow::default()
    }
}

fn names(app: &RenamerApp) -> Vec<String> {
    app.visible_images()
        .into_iter()
        .map(|i| app.images[i].file_name.clone())
        .collect()
}

#[test]
fn parent_filter_maps_to_query_visibility() {
    let mut app = RenamerApp::default();
    // The default matters: forgetting to switch the filter on is the
    // failure worth protecting against.
    assert!(app.parent_filter, "parent filter defaults to on");
    assert_eq!(app.visibility(), Visibility::VisibleOnly);

    app.parent_filter = false;
    assert_eq!(app.visibility(), Visibility::All);
}

#[test]
fn colour_sort_arranges_by_hue_with_greys_last() {
    let mut app = RenamerApp::default();
    app.sort_by = SortBy::Colour;
    app.images = vec![
        img("/l/grey.jpg", 1, Some(pack(128, 128, 128)), None),
        img("/l/blue.jpg", 1, Some(pack(0, 0, 255)), None),
        img("/l/none.jpg", 1, None, None),
        img("/l/red.jpg", 1, Some(pack(255, 0, 0)), None),
        img("/l/green.jpg", 1, Some(pack(0, 255, 0)), None),
    ];
    assert_eq!(
        names(&app),
        vec!["red.jpg", "green.jpg", "blue.jpg", "grey.jpg", "none.jpg"]
    );
}

#[test]
fn other_sorts_behave() {
    let mut app = RenamerApp::default();
    app.images = vec![
        img("/l/c.jpg", 300, None, Some(30)),
        img("/l/a.jpg", 100, None, Some(10)),
        img("/l/b.jpg", 200, None, Some(20)),
    ];

    app.sort_by = SortBy::Path;
    assert_eq!(names(&app), vec!["a.jpg", "b.jpg", "c.jpg"]);

    app.sort_by = SortBy::Date;
    assert_eq!(names(&app), vec!["a.jpg", "b.jpg", "c.jpg"]);

    // Size sorts largest first — that is what you want when reclaiming space.
    app.sort_by = SortBy::Size;
    assert_eq!(names(&app), vec!["c.jpg", "b.jpg", "a.jpg"]);
}

#[test]
fn text_filter_matches_anywhere_in_the_path_case_insensitively() {
    let mut app = RenamerApp::default();
    app.images = vec![
        img("/lib/2019/Holiday.jpg", 1, None, None),
        img("/lib/2020/work.jpg", 1, None, None),
    ];
    app.image_filter = "HOLI".to_string();
    assert_eq!(names(&app), vec!["Holiday.jpg"]);

    app.image_filter = "2020".to_string();
    assert_eq!(names(&app), vec!["work.jpg"]);

    app.image_filter = "  ".to_string();
    assert_eq!(names(&app).len(), 2, "blank filter matches everything");
}

#[test]
fn toggling_the_parent_filter_discards_views_built_under_the_old_setting() {
    // Stale rows fetched with the filter off must not linger on screen after
    // it is switched on.
    let mut app = app_with_report(&[DupKind::Exact]);
    app.images = vec![img("/l/a.jpg", 1, None, None)];
    assert!(app.report.is_some());

    // Mirrors what the tab-bar checkbox does on change.
    app.parent_filter = true;
    app.images.clear();
    app.report = None;
    app.selections.clear();

    assert!(app.images.is_empty());
    assert!(app.report.is_none());
    assert!(app.selected_for_quarantine().is_empty());
}

#[test]
fn no_report_means_nothing_selected() {
    let app = RenamerApp::default();
    assert!(app.selected_for_quarantine().is_empty());
}

#[test]
fn quarantine_result_invalidates_the_stale_report() {
    // After files move, the on-screen report no longer matches disk.
    let mut app = app_with_report(&[DupKind::Exact]);
    assert!(app.report.is_some());
    app.handle_result(BgResult::Quarantined(QuarantineOutcome {
        batch: Some(1),
        moved: 1,
        bytes: 100,
        errors: Vec::new(),
    }));
    assert!(app.report.is_none());
    assert!(app.selections.is_empty());
    assert!(app.message.contains("Quarantined 1 file"));
}

#[test]
fn empty_report_reports_no_duplicates() {
    let mut app = RenamerApp::default();
    app.handle_result(BgResult::Dupes(Ok(DupReport::default())));
    assert_eq!(app.message, "No duplicates found.");
    assert!(app.selected_for_quarantine().is_empty());
}

#[test]
fn human_bytes_rounds_as_printing_does() {
    assert_eq!(human_bytes(1023), "1023 B");
    // One and a quarter: halves go to the even digit.
    assert_eq!(human_bytes(1280), "1.2 KB");
    assert_eq!(human_bytes(1024 + 768), "1.8 KB");
    assert_eq!(human_bytes(1024 * 1024 - 1), "1024.0 KB");
    assert_eq!(human_bytes(5 * (1u64 << 40)), "5.0 TB");
    for bytes in [1100u64, 123_456, 98_765_432, 1 << 53, (1 << 53) + 1, u64::MAX - 5, u64::MAX] {
        let mut value = bytes as f64;
        let mut unit = 0;
        while value >= 1024.0 && unit < 4 {
            value /= 1024.0;
            unit += 1;
        }
        let want = format!("{value:.1} {}", ["B", "KB", "MB", "GB", "TB"][unit]);
        assert_eq!(human_bytes(bytes), want);
    }
}

#[test]
fn switching_the_parent_filter_drops_what_was_read() {
    let mut app = app_with_report(&[DupKind::Exact]);
    app.images = vec![img("/l/a.jpg", 1, None, None)];
    app.hidden_count = 3;
    app.set_parent_filter(true);
    assert_eq!(app.images.len(), 1, "nothing changed");
    app.set_parent_filter(false);
    assert!(app.images.is_empty() && app.report.is_none() && app.selections.is_empty());
    assert_eq!(app.message, "Parent filter off — showing everything.");
    app.set_parent_filter(true);
    assert_eq!(app.message, "Parent filter on — 3 image(s) hidden.");
}

fn plan_of(statuses: Vec<RowStatus>) -> Plan {
    Plan {
        rows: statuses
            .into_iter()
            .enumerate()
            .map(|(i, status)| PlanRow {
                src: format!("/dir/{i}.jpg"),
                rel_target: format!("x/{i}.jpg"),
                status,
            })
            .collect(),
        output_root: "/dir".into(),
    }
}

#[test]
fn results_are_put_in_words() {
    let mut app = RenamerApp::default();
    let mut outcome = IndexOutcome::default();
    outcome.scanned = 2;
    outcome.stats = CatalogStats { files: 2, hashed: 0, phashed: 0, bytes: 9 };
    assert!(app.handle_result(BgResult::Index(Ok(outcome))));
    assert_eq!(app.message, "2 file(s): 0 updated, 0 unchanged");
    assert_eq!(app.stats.unwrap().files, 2);
    assert!(!app.handle_result(BgResult::Index(Err("locked".into()))));
    assert_eq!(app.message, "Index failed: locked");
    app.hidden_count = 2;
    app.handle_result(BgResult::Images(Ok(vec![img("/l/a.jpg", 1, None, None)])));
    assert_eq!(app.message, "1 image(s), 2 hidden by the parent filter.");
    assert_eq!(app.images.len(), 1);
    app.parent_filter = false;
    app.handle_result(BgResult::Images(Ok(Vec::new())));
    assert_eq!(app.message, "0 image(s).");
    app.handle_result(BgResult::Images(Err("no".into())));
    assert_eq!(app.message, "Could not load images: no");
    app.handle_result(BgResult::Dupes(Err("no".into())));
    assert_eq!(app.message, "Duplicate scan failed: no");
    assert!(app.handle_result(BgResult::Quarantined(QuarantineOutcome {
        batch: None,
        moved: 0,
        bytes: 2048,
        errors: vec!["a: b".into(), "c".into()],
    })));
    assert_eq!(
        app.message,
        "Quarantined 0 file(s), 2.0 KB freed (2 error(s), e.g. a: b). Undo available."
    );
    assert!(app.handle_result(BgResult::Restored { restored: 3, errors: Vec::new() }));
    assert_eq!(app.message, "Restored 3 file(s) from quarantine.");
    app.handle_result(BgResult::Restored { restored: 1, errors: vec!["x".into()] });
    assert_eq!(app.message, "Restored 1, 1 failed (e.g. x).");

    app.handle_result(BgResult::Preview(plan_of(vec![
        RowStatus::Ready,
        RowStatus::Exists,
        RowStatus::Done,
    ])));
    assert_eq!(app.message, "3 file(s): 1 ready, 1 problem(s).");
    assert!(app.can_apply());
    let undo = vec![UndoEntry { from: "a".into(), to: "b".into() }];
    app.handle_result(BgResult::Apply {
        plan: plan_of(vec![RowStatus::Done]),
        undo: undo.clone(),
        log_err: Some("read-only".into()),
    });
    assert_eq!(app.message, "Renamed 1 file(s), but undo log not saved: read-only");
    assert_eq!(app.undo_count(), 1);
    assert!(!app.can_apply());
    app.handle_result(BgResult::Apply { plan: plan_of(Vec::new()), undo, log_err: None });
    assert_eq!(app.message, "Renamed 1 file(s). Undo available.");
    app.handle_result(BgResult::Undo { reverted: 1, errors: Vec::new() });
    assert_eq!(app.message, "Undo complete: 1 file(s) restored.");
    assert!(app.plan.is_none() && app.last_undo.is_empty());

    app.pc_password = "hunter2".into();
    app.handle_result(BgResult::Login(Err("bad".into())));
    assert_eq!(app.message, "Login failed: bad");
    assert!(!app.pc_connected);
    app.handle_result(BgResult::Login(Ok(())));
    assert_eq!(app.message, "Connected to pCloud.");
    assert!(app.pc_connected && app.pc_password.is_empty());
    app.handle_result(BgResult::RemotePreview(Err("timeout".into())));
    assert_eq!(app.message, "pCloud list failed: timeout");
    app.handle_result(BgResult::RemotePreview(Ok(remote_plan())));
    assert_eq!(app.message, "1 file(s): 1 ready, 0 problem(s).");
    app.handle_result(BgResult::RemoteApply {
        plan: remote_plan(),
        undo: vec![RemoteUndo { fileid: 1, from_path: "/a".into(), to_path: "/b".into() }],
    });
    assert_eq!(app.message, "Renamed 1 file(s) on pCloud. Undo available.");
    app.mode = Mode::PCloud;
    assert_eq!(app.undo_count(), 1);
    assert!(app.can_apply());
    app.handle_result(BgResult::RemoteUndo { reverted: 0, errors: vec!["no".into()] });
    assert_eq!(app.message, "Undo: 0 restored, 1 failed (e.g. no).");
    assert!(app.remote_plan.is_none() && app.remote_undo.is_empty());
}

fn remote_plan() -> RemotePlan {
    RemotePlan {
        rows: vec![RemoteRow {
            fileid: 1,
            from_path: "/Camera/a.jpg".into(),
            display_name: "a.jpg".into(),
            rel_target: "x/a.jpg".into(),
            status: RowStatus::Ready,
        }],
        base: "/Camera".into(),
    }
}

#[test]
fn duplicates_are_counted_in_the_message() {
    let app = app_with_report(&[DupKind::Exact, DupKind::Near, DupKind::Near]);
    assert_eq!(
        app.message,
        "3 group(s): 1 exact, 2 near, 0 burst — up to 300 B recoverable."
    );
}

#[test]
fn requests_are_refused_with_a_message() {
    let mut app = RenamerApp::default();
    assert!(app.index_request().is_none());
    assert_eq!(app.message, "Pick a library folder first.");
    assert!(app.rows_request().is_none());
    assert_eq!(app.message, "Index a library first.");
    assert!(app.quarantine_request().is_none());
    assert_eq!(app.message, "Nothing selected to quarantine.");
    assert!(app.restore_request().is_none());
    assert_eq!(app.message, "Nothing in quarantine to restore.");
    assert!(app.preview_request().is_none());
    assert_eq!(app.message, "Pick a source folder first.");
    assert!(!app.apply_request());
    assert_eq!(app.message, "Run Preview before Apply.");
    assert!(!app.undo_request());
    assert_eq!(app.message, "Nothing to undo.");
    assert!(!app.remote_preview_request());
    assert_eq!(app.message, "Log in to pCloud first.");
    assert!(!app.remote_apply_request());
    assert_eq!(app.message, "Preview before Apply.");
    assert!(!app.remote_undo_request());
    assert_eq!(app.message, "Nothing to undo.");
}

#[test]
fn requests_hand_out_what_is_to_be_done() {
    let mut app = app_with_report(&[DupKind::Exact]);
    app.pick_library("/lib".into());
    assert!(app.report.is_none(), "another library, another report");
    app.lib_recursive = false;
    let cfg = app.index_request().unwrap();
    assert_eq!((cfg.root.as_str(), cfg.recursive, cfg.read_exif), ("/lib", false, true));
    assert_eq!(app.rows_request(), Some(("/lib".to_string(), Visibility::VisibleOnly)));
    app.source = Some("/src".into());
    let s = app.settings().unwrap();
    assert_eq!((s.source.as_str(), s.output_root.as_str()), ("/src", "/src"));
    app.output = Some("/out".into());
    assert_eq!(app.settings().unwrap().output_root, "/out");
    assert_eq!(app.output_root().as_deref(), Some("/out"));
    app.restorable_batch = Some(4);
    assert_eq!(app.restore_request(), Some(4));
}

#[test]
fn the_undo_log_is_taken_once_there_is_a_source() {
    let log = vec![UndoEntry { from: "a".into(), to: "b".into() }];
    let mut app = RenamerApp::default();
    app.load_undo_log(log.clone());
    assert!(app.last_undo.is_empty());
    app.source = Some("/src".into());
    app.load_undo_log(log);
    assert_eq!(app.message, "Loaded undo log: 1 move(s) can be reverted.");
    assert_eq!(app.undo_count(), 1);
    app.message = "kept".into();
    app.load_undo_log(Vec::new());
    assert_eq!(app.message, "kept");
    assert_eq!(app.undo_count(), 0);
}

#[test]
fn background_work_is_looked_after() {
    let mut app = RenamerApp::default();
    assert!(!app.poll_worker(WorkerEvent::Working), "nothing is going on");
    app.start_worker("Indexing");
    assert!(app.poll_worker(WorkerEvent::Working));
    assert_eq!(app.busy_label, "Indexing");
    assert!(!app.poll_worker(WorkerEvent::Finished));
    assert!(!app.busy && app.busy_label.is_empty());
    app.start_worker("Indexing");
    assert!(!app.poll_worker(WorkerEvent::Gone));
    assert_eq!(app.message, "Background task ended unexpectedly.");
}

#[test]
fn hiding_an_image_hides_its_copies() {
    let mut cat = Catalog::new();
    let mut a = img("/l/a.jpg", 1, None, None);
    a.id = cat.upsert_media(&a).unwrap();
    let mut b = img("/l/b.jpg", 2, None, None);
    b.content_hash = Some("h".into());
    let c = img("/l/c.jpg", 3, None, None);
    let mut app = RenamerApp::default();
    app.library = Some("/l".into());
    app.images = vec![a, b, c];
    assert!(app.set_hidden(&mut cat, 0, true, &Ok("h".to_string())));
    let hidden: Vec<bool> = app.images.iter().map(|i| i.hidden).collect();
    assert_eq!(hidden, vec![true, true, false]);
    assert_eq!(app.message, "Hidden: a.jpg");
    assert!(cat.is_hidden("h"));
    app.refresh_stats(&cat, 5, 6);
    assert_eq!(app.hidden_count, 1);
    assert_eq!(app.stats.unwrap().files, 1);
    assert_eq!((app.quarantine_bytes, app.thumb_cache_bytes), (5, 6));

    assert!(app.set_hidden(&mut cat, 1, false, &Err("unused".to_string())));
    assert_eq!(app.message, "Unhidden: b.jpg");
    assert!(!cat.is_hidden("h"));
    assert!(!app.set_hidden(&mut cat, 2, true, &Err("denied".to_string())));
    assert_eq!(app.message, "Could not hash for tagging: /l/c.jpg: denied");
    assert!(!app.set_hidden(&mut cat, 9, true, &Ok("x".to_string())), "no such row");
}

#[test]
fn the_rename_table_follows_the_mode() {
    let mut app = RenamerApp::default();
    assert!(app.display_rows().is_empty());
    app.plan = Some(plan_of(vec![RowStatus::Collision]));
    app.remote_plan = Some(remote_plan());
    let rows = app.display_rows();
    assert_eq!((rows[0].name.as_str(), rows[0].target.as_str()), ("0.jpg", "x/0.jpg"));
    assert_eq!(rows[0].status, RowStatus::Collision);
    app.mode = Mode::PCloud;
    assert_eq!(app.display_rows()[0].name, "a.jpg");
}

#[test]
fn labels_are_exact() {
    assert_eq!(status_label(&RowStatus::Ready), "ready");
    assert_eq!(status_label(&RowStatus::Done), "done");
    assert_eq!(status_label(&RowStatus::Collision), "collision");
    assert_eq!(status_label(&RowStatus::Exists), "target exists");
    assert_eq!(status_label(&RowStatus::Error("x".into())), "error: x");
    assert_eq!(status_label(&RowStatus::Failed("y".into())), "failed: y");
    assert_eq!(plan_summary(3, 2, 1), "3 file(s): 2 ready, 1 problem(s).");
    assert_eq!(undo_summary(2, &Vec::new()), "Undo complete: 2 file(s) restored.");
    let mut row = img("/l/a.jpg", 1, None, None);
    assert_eq!(dimensions_label(&row), "—");
    row.width = Some(640);
    row.height = Some(480);
    assert_eq!(dimensions_label(&row), "640×480");
    let app = app_with_report(&[DupKind::Burst]);
    assert_eq!(
        group_heading(&app.report.as_ref().unwrap().groups[0]),
        "burst · 2 files · 100 B recoverable"
    );
    assert_eq!(progress_label("Indexing", "", 1, 2), "Indexing 1/2");
    assert_eq!(progress_label("Indexing", "Hashing", 1, 2), "Hashing 1/2");
}

#[test]
fn moves_are_followed_both_ways() {
    let entries = [UndoEntry { from: "a".into(), to: "b".into() }];
    assert_eq!(moves_to_follow(&entries, false), vec![("a".to_string(), "b".to_string())]);
    assert_eq!(moves_to_follow(&entries, true), vec![("b".to_string(), "a".to_string())]);
}

#[test]
fn sessions_and_caches_end() {
    let mut app = RenamerApp::default();
    app.pc_connected = true;
    app.remote_plan = Some(remote_plan());
    app.log_out();
    assert!(!app.pc_connected && app.remote_plan.is_none());
    app.thumb_cache_bytes = 9;
    app.cache_cleared(&Err("busy".to_string()));
    assert_eq!(app.message, "Could not clear cache: busy");
    assert_eq!(app.thumb_cache_bytes, 9);
    app.cache_cleared(&Ok(()));
    assert_eq!(app.message, "Thumbnail cache cleared.");
    assert_eq!(app.thumb_cache_bytes, 0);
    let sel = GroupSel { keeper: 0, enabled: true };
    app.selections = vec![sel];
    assert!(app.selected_for_quarantine().is_empty(), "a choice without a report");
}

#[test]
fn ratings_narrow_down_and_sort_the_list() {
    let mut app = RenamerApp::default();
    for (path, rating) in [("/l/a.jpg", 0), ("/l/b.jpg", 3), ("/l/c.jpg", 5), ("/l/d.jpg", 3)] {
        let mut row = img(path, 1, None, None);
        row.rating = rating;
        app.images.push(row);
    }
    app.sort_by = SortBy::Rating;
    assert_eq!(names(&app), vec!["c.jpg", "b.jpg", "d.jpg", "a.jpg"]);
    app.min_rating = 3;
    assert_eq!(names(&app), vec!["c.jpg", "b.jpg", "d.jpg"]);
    app.min_rating = 4;
    assert_eq!(names(&app), vec!["c.jpg"]);
    app.sort_by = SortBy::Path;
    app.min_rating = 0;
    app.image_filter = " B".into();
    assert_eq!(names(&app), vec!["b.jpg"]);
}

#[test]
fn kinds_narrow_down_the_list() {
    let mut app = RenamerApp::default();
    let photo = img("/l/a.jpg", 1, None, Some(5));
    let saved = img("/l/b.jpg", 1, None, None);
    let shot = img("/l/Screenshot 1.png", 1, None, None);
    let mut chosen = img("/l/c.jpg", 1, None, None);
    chosen.kind_override = Some(MediaKind::Photo);
    assert_eq!(kind_label(&photo), "photo");
    assert_eq!(kind_label(&chosen), "photo*");
    assert_eq!(kind_label(&shot), "screenshot");
    app.images = vec![photo, saved, shot, chosen];
    app.kind_filter = Some(MediaKind::Photo);
    assert_eq!(names(&app), vec!["a.jpg", "c.jpg"]);
    app.kind_filter = Some(MediaKind::Screenshot);
    assert_eq!(names(&app), vec!["Screenshot 1.png"]);
    app.kind_filter = Some(MediaKind::Saved);
    assert_eq!(names(&app), vec!["b.jpg"]);
}

#[test]
fn slideshows_play_what_is_listed() {
    let mut app = RenamerApp::default();
    for (path, rating, taken) in
        [("/l/a.jpg", 1, 30), ("/l/b.jpg", 0, 20), ("/l/c.jpg", 5, 10), ("/l/d.jpg", 2, 40)]
    {
        let mut row = img(path, 1, None, Some(taken));
        row.rating = rating;
        app.images.push(row);
    }
    app.min_rating = 1;
    assert_eq!(app.slides(SlideOrder::AsListed, 7), vec![0, 2, 3]);
    assert_eq!(app.slides(SlideOrder::Date, 7), vec![2, 0, 3]);
    assert_eq!(app.slides(SlideOrder::Rating, 7), vec![2, 3, 0]);
    let mut shuffled = app.slides(SlideOrder::Shuffle, 7);
    shuffled.sort_unstable();
    assert_eq!(shuffled, vec![0, 2, 3], "hidden from the list, hidden from the show");
}

#[test]
fn stars_are_set_and_cleared_by_clicks() {
    let mut cat = Catalog::new();
    let mut a = img("/l/a.jpg", 1, None, None);
    a.id = cat.upsert_media(&a).unwrap();
    let mut copy = img("/l/b.jpg", 1, None, None);
    copy.content_hash = Some("h".into());
    let mut app = RenamerApp::default();
    app.images = vec![a, copy];
    app.message = "kept".into();
    assert!(app.rate(&mut cat, 0, 4, &Ok("h".to_string())));
    assert_eq!((app.images[0].rating, app.images[1].rating), (4, 4), "copies share a rating");
    assert_eq!(cat.rating_of("h"), 4);
    assert!(app.rate(&mut cat, 1, 4, &Err("unused".to_string())));
    assert_eq!(cat.rating_of("h"), 0, "a second click clears it");
    assert!(app.rate(&mut cat, 1, 9, &Err("unused".to_string())));
    assert_eq!((cat.rating_of("h"), app.images[1].rating), (5, 5), "at most five");
    assert_eq!(app.message, "kept");
    assert!(!app.rate(&mut cat, 7, 1, &Ok("h".to_string())), "no such row");

    assert!(app.set_kind(&mut cat, 1, Some(MediaKind::Saved), &Err("unused".to_string())));
    assert_eq!(app.images[1].kind_override, Some(MediaKind::Saved));
    assert_eq!(cat.rating_of("h"), 5, "marks do not disturb each other");
    assert!(app.set_kind(&mut cat, 1, None, &Err("unused".to_string())));
    assert_eq!(app.images[1].kind_override, None);
    assert!(!app.set_kind(&mut cat, 0, None, &Err("denied".to_string())));
    assert_eq!(app.message, "Could not hash for tagging: /l/a.jpg: denied");
}

#[test]
fn words_are_looked_for_in_paths() {
    assert!(lets_through("", "/l/a.jpg"));
    assert!(lets_through("a.j", "/l/a.jpg"));
    assert!(!lets_through("A.J", "/l/a.jpg"), "both are taken as they are");
}
