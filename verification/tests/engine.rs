//! Rename plans.

use renamer::engine::{
    append_extension, append_extension_lowered, apply_plan, build_plan, candidate_files,
    mark_existing, target_paths, template_needs_exif, try_build_plan, undo, undo_moves, MoveOutcome, RowStatus, Settings, UndoEntry,
};
use renamer::metadata::{DateStamp, FileMeta};

fn settings(template: &str) -> Settings {
    Settings {
        source: "/dir".into(),
        output_root: "/dir".into(),
        template: template.into(),
        recursive: false,
        append_ext: true,
    }
}

fn files(names: &[&str]) -> (Vec<String>, Vec<FileMeta>) {
    let found: Vec<String> = names.iter().map(|n| format!("/dir/{n}")).collect();
    let paths = candidate_files(&found);
    let metas = paths.iter().map(|p| FileMeta::read_with(p, None, None)).collect();
    (paths, metas)
}

#[test]
fn plan_and_apply_creates_folders() {
    let (paths, metas) = files(&["b.txt", "a.txt"]);
    let mut plan = build_plan(&settings("sorted/{n:02}_{name}"), &paths, &metas);
    assert_eq!(plan.rows.len(), 2);
    assert_eq!(plan.ok_count(), 2);

    // The folder to create and the file to move to, with the extension kept.
    let targets = target_paths(&plan);
    assert_eq!(targets, vec!["/dir/sorted/01_a.txt", "/dir/sorted/02_b.txt"]);
    let undo = apply_plan(&mut plan, &[MoveOutcome::Moved, MoveOutcome::Moved]);
    assert_eq!(undo.len(), 2);
    assert!(undo.iter().all(|e| e.to.ends_with(".txt")));
    assert!(plan.rows.iter().all(|r| r.status == RowStatus::Done));
    assert_eq!(plan.ok_count(), 0);
}

#[test]
fn detects_collision() {
    let (paths, metas) = files(&["a.txt", "b.txt"]);
    // both render to "same.txt"
    let plan = build_plan(&settings("same"), &paths, &metas);
    assert!(plan.rows.iter().all(|r| r.status == RowStatus::Collision));
}

#[test]
fn the_undo_log_is_never_renamed() {
    let (paths, _) = files(&["z.txt", ".renamer_undo.log", "a.txt"]);
    assert_eq!(paths, vec!["/dir/a.txt", "/dir/z.txt"]);
}

#[test]
fn extensions_are_kept_once() {
    let (paths, metas) = files(&["a.JPG"]);
    let plan = build_plan(&settings("{name}.jpg"), &paths, &metas);
    assert_eq!(plan.rows[0].rel_target, "a.jpg");
    let plan = build_plan(&settings("{name}"), &paths, &metas);
    assert_eq!(plan.rows[0].rel_target, "a.JPG");
    let mut bare = settings("{name}");
    bare.append_ext = false;
    let plan = build_plan(&bare, &paths, &metas);
    assert_eq!(plan.rows[0].rel_target, "a");
}

#[test]
fn missing_fields_are_problems() {
    let (paths, metas) = files(&["a.jpg"]);
    let plan = build_plan(&settings("{camera_model}"), &paths, &metas);
    assert_eq!(plan.rows[0].status, RowStatus::Error("no value for {camera_model}".into()));
    assert_eq!((plan.ok_count(), plan.problem_count()), (0, 1));
    assert_eq!(plan.rows[0].rel_target, "");
}

#[test]
fn an_invalid_format_gives_no_plan() {
    let (paths, mut metas) = files(&["a.jpg"]);
    metas[0].date_modified = Some(DateStamp { secs: 0, nanos: 0, offset: 0 });
    assert!(try_build_plan(&settings("{date_modified:%Q}"), &paths, &metas).is_none());
    assert!(try_build_plan(&settings("{date_modified:%Y}"), &paths, &metas).is_some());
}

#[test]
fn existing_targets_block_unless_they_are_to_be_renamed() {
    let (paths, metas) = files(&["a.txt", "b.txt"]);
    let mut plan = build_plan(&settings("x_{name}"), &paths, &metas);
    mark_existing(&mut plan, &[true, false]);
    assert_eq!(plan.rows[0].status, RowStatus::Exists);
    assert_eq!(plan.rows[1].status, RowStatus::Ready);

    // A file that keeps its name is in nobody's way.
    let mut plan = build_plan(&settings("{name}"), &paths, &metas);
    mark_existing(&mut plan, &[true, true]);
    assert!(plan.rows.iter().all(|r| r.status.is_ok()));
}

#[test]
fn failures_are_recorded_and_not_undone() {
    let (paths, metas) = files(&["a.txt", "b.txt", "c.txt"]);
    let mut plan = build_plan(&settings("x/{name}"), &paths, &metas);
    let undo = apply_plan(
        &mut plan,
        &[
            MoveOutcome::NoFolder("denied".into()),
            MoveOutcome::Moved,
            MoveOutcome::NotMoved("busy".into()),
        ],
    );
    assert_eq!(plan.rows[0].status, RowStatus::Failed("mkdir: denied".into()));
    assert_eq!(plan.rows[1].status, RowStatus::Done);
    assert_eq!(plan.rows[2].status, RowStatus::Failed("busy".into()));
    assert_eq!(undo, vec![UndoEntry { from: "/dir/b.txt".into(), to: "/dir/x/b.txt".into() }]);
    // Rows that are not ready are left alone, whatever is said of them.
    let again = apply_plan(
        &mut plan,
        &[MoveOutcome::Moved, MoveOutcome::Moved, MoveOutcome::Moved],
    );
    assert!(again.is_empty());
}

#[test]
fn undo_goes_backwards() {
    let entries = vec![
        UndoEntry { from: "a".into(), to: "b".into() },
        UndoEntry { from: "c".into(), to: "d".into() },
    ];
    let back = undo_moves(&entries);
    assert_eq!(
        back,
        vec![
            UndoEntry { from: "d".into(), to: "c".into() },
            UndoEntry { from: "b".into(), to: "a".into() },
        ]
    );
    assert_eq!(undo_moves(&back), entries);
}

#[test]
fn templates_say_whether_contents_are_needed() {
    assert!(template_needs_exif("{date_taken:%Y}/{name}"));
    assert!(!template_needs_exif("{date_modified:%Y}/{name}"));
}

#[test]
fn what_is_not_taken_back_is_reported() {
    let entries: Vec<UndoEntry> = [("a", "x/a"), ("b", "x/b"), ("c", "x/c")]
        .iter()
        .map(|(from, to)| UndoEntry { from: from.to_string(), to: to.to_string() })
        .collect();
    // The last move is tried first.
    let failures = vec![Some("busy".to_string()), None, Some("gone".to_string())];
    assert_eq!(
        undo(&entries, &failures),
        (1, vec!["x/c: busy".to_string(), "x/a: gone".to_string()])
    );
    assert_eq!(undo(&entries, &[None, None, None]), (3, Vec::new()));
    assert_eq!(undo(&[], &[]), (0, Vec::new()));
}

#[test]
fn undoing_puts_every_file_back() {
    // The second move goes to where the first one came from.
    let entries: Vec<UndoEntry> = [("a", "c"), ("b", "a"), ("c", "b")]
        .iter()
        .map(|(from, to)| UndoEntry { from: from.to_string(), to: to.to_string() })
        .collect();
    let mut files = vec![("a".to_string(), 1), ("b".to_string(), 2)];
    let run = |files: &mut Vec<(String, i32)>, moves: &[UndoEntry]| {
        for m in moves {
            assert!(!files.iter().any(|(p, _)| *p == m.to), "nothing is overwritten");
            let file = files.iter_mut().find(|(p, _)| *p == m.from).unwrap();
            file.0 = m.to.clone();
        }
    };
    run(&mut files, &entries);
    assert_eq!(files, vec![("b".to_string(), 1), ("a".to_string(), 2)]);
    run(&mut files, &undo_moves(&entries));
    assert_eq!(files, vec![("a".to_string(), 1), ("b".to_string(), 2)]);
}

#[test]
fn an_extension_is_appended_once() {
    assert_eq!(append_extension("a".into(), "jpg", true), "a.jpg");
    assert_eq!(append_extension("a.JPG".into(), "jpg", true), "a.JPG");
    assert_eq!(append_extension("a.jpg".into(), "JPG", true), "a.jpg");
    assert_eq!(append_extension("a".into(), "jpg", false), "a");
    assert_eq!(append_extension("a".into(), "", true), "a");
    assert_eq!(append_extension("\u{c9}.\u{c9}".into(), "\u{e9}", true), "\u{c9}.\u{c9}");
    // Given in lowercase, the texts themselves do not matter.
    assert_eq!(append_extension_lowered("X".into(), "Y", true, "x.y", "y"), "X");
    assert_eq!(append_extension_lowered("X".into(), "Y", true, "x", "y"), "X.Y");
}
