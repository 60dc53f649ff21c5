//! Files on the server.

use renamer::engine::{MoveOutcome, RowStatus};
use renamer::metadata::{DateStamp, FileMeta};
use renamer::pcloud::{
    apply_remote_plan, build_remote_plan, check_result, collect, folder_ancestors, folders_for,
    login_reply, meta_from_item, normalize_dir, remote_destination, split_name,
    try_build_remote_plan, undo_remote, Region, RemoteFile, RemoteItem,
};

#[test]
fn normalize_dir_variants() {
    assert_eq!(normalize_dir("/"), "/");
    assert_eq!(normalize_dir(""), "/");
    assert_eq!(normalize_dir("Camera"), "/Camera");
    assert_eq!(normalize_dir("/Camera/"), "/Camera");
    assert_eq!(normalize_dir(" /a/b/ "), "/a/b");
}

#[test]
fn split_name_handles_dotless_and_dotfiles() {
    assert_eq!(split_name("a.jpg"), ("a".into(), "jpg".into()));
    assert_eq!(split_name("README"), ("README".into(), "".into()));
    assert_eq!(split_name(".bashrc"), (".bashrc".into(), "".into()));
}

fn moment(secs: i64) -> DateStamp {
    DateStamp { secs, nanos: 0, offset: 0 }
}

fn item(name: &str) -> RemoteItem {
    RemoteItem {
        name: Some(name.to_string()),
        is_folder: false,
        fileid: Some(9),
        size: None,
        created: None,
        modified: None,
        width: None,
        height: None,
        contents: None,
    }
}

#[test]
fn meta_from_item_maps_fields_no_exif() {
    let item = RemoteItem {
        size: Some(1234),
        created: Some(moment(1_600_000_000)),
        modified: Some(moment(1_600_000_500)),
        width: Some(4000),
        height: Some(3000),
        ..item("IMG_1.JPG")
    };
    let m = meta_from_item(&item, "IMG_1.JPG", "/Camera");
    assert_eq!(m.name, "IMG_1");
    assert_eq!(m.ext, "JPG");
    assert_eq!(m.parent, "Camera");
    assert_eq!(m.size, 1234);
    assert!(m.date_modified.is_some());
    assert_eq!(m.width.as_deref(), Some("4000"));
    // EXIF-only fields stay empty over the API
    assert!(m.date_taken.is_none());
    assert!(m.camera_model.is_none());
}

fn rf(fileid: u64, path: &str, name: &str) -> RemoteFile {
    let (stem, ext) = split_name(name);
    let mut meta = FileMeta::default();
    meta.name = stem;
    meta.ext = ext;
    RemoteFile { fileid, path: path.into(), meta }
}

#[test]
fn remote_plan_renders_and_flags_collisions() {
    let files = vec![rf(1, "/Camera/a.jpg", "a.jpg"), rf(2, "/Camera/b.jpg", "b.jpg")];
    // both render to the same name -> collision
    let plan = build_remote_plan(&files, "/Camera", "same", true);
    assert_eq!(plan.base, "/Camera");
    assert!(plan.rows.iter().all(|r| r.status == RowStatus::Collision));
    assert_eq!(plan.ok_count(), 0);

    // distinct targets + subfolder + kept extension
    let plan = build_remote_plan(&files, "/Camera", "sorted/{name}", true);
    assert_eq!(plan.ok_count(), 2);
    assert!(plan.rows[0].rel_target.starts_with("sorted/"));
    assert!(plan.rows[0].rel_target.ends_with(".jpg"));
    assert_eq!(plan.rows[0].fileid, 1);
}

#[test]
fn a_missing_field_is_a_problem_of_its_row() {
    let files = vec![rf(1, "/Camera/a.jpg", "a.jpg")];
    let plan = build_remote_plan(&files, "Camera/", "{lens}", true);
    assert_eq!(plan.rows[0].status, RowStatus::Error("no value for {lens}".into()));
    assert_eq!(plan.problem_count(), 1);
    assert_eq!(plan.rows[0].display_name, "a.jpg");
}

#[test]
fn an_invalid_date_format_gives_no_plan() {
    let mut file = rf(1, "/Camera/a.jpg", "a.jpg");
    file.meta.date_modified = Some(moment(0));
    let files = vec![file];
    assert!(try_build_remote_plan(&files, "/", "{date_modified:%Q}", true).is_none());
    assert!(try_build_remote_plan(&files, "/", "{date_modified:%Y}", true).is_some());
}

#[test]
fn listings_are_collected_with_their_folders() {
    let folder = RemoteItem {
        is_folder: true,
        contents: Some(vec![RemoteItem { fileid: Some(2), ..item("b.jpg") }]),
        ..item("sub")
    };
    let nameless = RemoteItem { name: None, ..item("") };
    let numberless = RemoteItem { fileid: None, ..item("c.jpg") };
    let items = vec![RemoteItem { fileid: Some(1), ..item("a.jpg") }, folder, numberless, nameless];
    let mut out = Vec::new();
    collect(&items, "/", &mut out);
    let found: Vec<(u64, &str)> = out.iter().map(|f| (f.fileid, f.path.as_str())).collect();
    assert_eq!(found[0], (1, "/a.jpg"));
    assert_eq!(found[1], (2, "/sub/b.jpg"));
    assert_eq!(out[1].meta.parent, "sub");
}

#[test]
fn responses_are_checked() {
    assert_eq!(check_result(Some(0), None), Ok(()));
    assert_eq!(
        check_result(Some(2000), Some("Log in failed.")),
        Err("pCloud error 2000: Log in failed.".to_string())
    );
    assert_eq!(check_result(Some(-3), None), Err("pCloud error -3: unknown error".to_string()));
    assert_eq!(
        check_result(None, Some("ignored")),
        Err("malformed pCloud response (no result field)".to_string())
    );
}

#[test]
fn destinations_and_their_folders() {
    assert_eq!(remote_destination("/Camera/", "/sorted/a.jpg"), "/Camera/sorted/a.jpg");
    assert_eq!(remote_destination("/", "a.jpg"), "/a.jpg");
    assert_eq!(folder_ancestors("/a/b/c"), vec!["/a", "/a/b", "/a/b/c"]);
    assert_eq!(folders_for("/a/b/c.jpg"), vec!["/a", "/a/b"]);
    assert!(folders_for("/c.jpg").is_empty());
}

#[test]
fn applying_and_undoing_a_remote_plan() {
    let files = vec![rf(1, "/Camera/a.jpg", "a.jpg"), rf(2, "/Camera/b.jpg", "b.jpg")];
    let mut plan = build_remote_plan(&files, "/Camera", "x/{name}", true);
    let undo = apply_remote_plan(
        &mut plan,
        &[MoveOutcome::Moved, MoveOutcome::NoFolder("denied".into())],
    );
    assert_eq!(undo.len(), 1);
    assert_eq!((undo[0].fileid, undo[0].to_path.as_str()), (1, "/Camera/x/a.jpg"));
    assert_eq!(plan.rows[0].status, RowStatus::Done);
    assert_eq!(plan.rows[1].status, RowStatus::Failed("mkdir: denied".into()));

    let (reverted, errors) = undo_remote(&undo, &[None]);
    assert_eq!((reverted, errors.len()), (1, 0));
    let (reverted, errors) = undo_remote(&undo, &[Some("gone".into())]);
    assert_eq!(reverted, 0);
    assert_eq!(errors.len(), 1);
}

#[test]
fn regions_have_their_own_servers() {
    assert_eq!(Region::Us.base(), "https://api.pcloud.com");
    assert_eq!(Region::Eu.base(), "https://eapi.pcloud.com");
}

#[test]
fn logging_in_gives_a_token_or_an_error() {
    assert_eq!(login_reply(Some(0), None, Some("tok")), Ok("tok".to_string()));
    assert_eq!(
        login_reply(Some(0), None, None),
        Err("login succeeded but no auth token returned".to_string())
    );
    assert_eq!(
        login_reply(Some(2000), Some("Log in failed."), Some("tok")),
        Err("pCloud error 2000: Log in failed.".to_string())
    );
    assert_eq!(
        login_reply(None, None, Some("tok")),
        Err("malformed pCloud response (no result field)".to_string())
    );
}
