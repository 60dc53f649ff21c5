//! Duplicate detection.

use renamer::catalog::MediaRow;
use renamer::dupes::{find_duplicates, DupConfig, DupGroup, DupKind};
use renamer::kind::MediaKind;

fn row(path: &str, size: u64) -> MediaRow {
    MediaRow {
        path: path.to_string(),
        file_name: path.rsplit('/').next().unwrap_or(path).to_string(),
        ext: "jpg".into(),
        size,
        mtime: 1000,
        ..MediaRow::default()
    }
}

fn with_hash(path: &str, size: u64, hash: &str) -> MediaRow {
    MediaRow {
        content_hash: Some(hash.into()),
        ..row(path, size)
    }
}

fn with_phash(path: &str, size: u64, phash: u64) -> MediaRow {
    MediaRow {
        phash: Some(phash),
        ..row(path, size)
    }
}

fn paths(g: &DupGroup) -> Vec<String> {
    g.members
        .iter()
        .map(|m| m.path.clone())
        .collect()
}

#[test]
fn exact_groups_files_with_matching_content_hash() {
    let rows = vec![
        with_hash("/lib/a.jpg", 100, "h1"),
        with_hash("/lib/copy/a.jpg", 100, "h1"),
        with_hash("/lib/b.jpg", 200, "h2"),
    ];
    let rep = find_duplicates(&rows, &DupConfig::default());
    assert_eq!(rep.groups.len(), 1);
    let g = &rep.groups[0];
    assert_eq!(g.kind, DupKind::Exact);
    assert_eq!(paths(g), vec!["/lib/a.jpg", "/lib/copy/a.jpg"]);
    assert_eq!(g.reclaimable, 100, "one of the two is redundant");
    assert_eq!(rep.total_removable(), 1);
    assert_eq!(rep.total_reclaimable(), 100);
}

#[test]
fn rows_without_a_content_hash_are_never_exact_duplicates() {
    // Unhashed rows must not be lumped together just because both are NULL.
    let rows = vec![row("/lib/a.jpg", 100), row("/lib/b.jpg", 100)];
    assert!(find_duplicates(&rows, &DupConfig::default()).is_empty());
}

#[test]
fn near_groups_cluster_by_perceptual_distance() {
    let cfg = DupConfig {
        near_threshold: 4,
        ..DupConfig::default()
    };
    let rows = vec![
        with_phash("/lib/orig.jpg", 900, 0b0000),
        with_phash("/lib/shrunk.jpg", 90, 0b0011), // distance 2
        with_phash("/lib/other.jpg", 500, u64::MAX), // far away
    ];
    let rep = find_duplicates(&rows, &cfg);
    assert_eq!(rep.groups.len(), 1);
    let g = &rep.groups[0];
    assert_eq!(g.kind, DupKind::Near);
    assert_eq!(paths(g), vec!["/lib/orig.jpg", "/lib/shrunk.jpg"]);
    assert_eq!(g.spread, 2);
}

#[test]
fn near_threshold_is_respected() {
    let rows = vec![
        with_phash("/lib/a.jpg", 100, 0b0000),
        with_phash("/lib/b.jpg", 100, 0b1111), // distance 4
    ];
    let tight = DupConfig {
        near_threshold: 3,
        ..DupConfig::default()
    };
    assert!(find_duplicates(&rows, &tight).is_empty());

    let loose = DupConfig {
        near_threshold: 4,
        ..DupConfig::default()
    };
    assert_eq!(find_duplicates(&rows, &loose).groups.len(), 1);
}

#[test]
fn near_grouping_is_transitive_and_reports_spread() {
    // A~B and B~C within threshold, but A~C is 6 apart. All three cluster,
    // and `spread` surfaces that the group is wider than the threshold.
    let cfg = DupConfig {
        near_threshold: 3,
        ..DupConfig::default()
    };
    let rows = vec![
        with_phash("/lib/a.jpg", 100, 0b000_000),
        with_phash("/lib/b.jpg", 100, 0b000_111),
        with_phash("/lib/c.jpg", 100, 0b111_111),
    ];
    let rep = find_duplicates(&rows, &cfg);
    assert_eq!(rep.groups.len(), 1);
    assert_eq!(rep.groups[0].members.len(), 3);
    assert_eq!(rep.groups[0].spread, 6);
}

#[test]
fn near_group_that_is_only_exact_duplicates_is_suppressed() {
    // Identical files share a perceptual hash too; reporting them twice
    // would just be noise.
    let mut a = with_hash("/lib/a.jpg", 100, "h1");
    let mut b = with_hash("/lib/b.jpg", 100, "h1");
    a.phash = Some(0b1010);
    b.phash = Some(0b1010);
    let rep = find_duplicates(&[a, b], &DupConfig::default());
    assert_eq!(rep.groups.len(), 1);
    assert_eq!(rep.groups[0].kind, DupKind::Exact);
}

#[test]
fn near_group_spanning_distinct_files_is_reported() {
    // Same picture, different bytes: exactly what perceptual hashing is for.
    let mut a = with_hash("/lib/full.jpg", 900, "h1");
    let mut b = with_hash("/lib/small.jpg", 90, "h2");
    a.phash = Some(0b1010);
    b.phash = Some(0b1011);
    let rep = find_duplicates(&[a, b], &DupConfig::default());
    assert_eq!(rep.groups.len(), 1);
    assert_eq!(rep.groups[0].kind, DupKind::Near);
}

#[test]
fn burst_groups_consecutive_shots_from_one_camera() {
    let shot = |path: &str, t: i64, cam: &str| MediaRow {
        date_taken: Some(t),
        camera_model: Some(cam.into()),
        ..row(path, 100)
    };
    let rows = vec![
        shot("/lib/1.jpg", 1000, "R5"),
        shot("/lib/2.jpg", 1001, "R5"),
        shot("/lib/3.jpg", 1002, "R5"),
        shot("/lib/later.jpg", 3000, "R5"), // long after: its own run
        shot("/lib/other.jpg", 1000, "Pixel"), // same instant, other camera
    ];
    let cfg = DupConfig {
        find_exact: false,
        find_near: false,
        find_burst: true,
        burst_window_secs: 2,
        ..DupConfig::default()
    };
    let rep = find_duplicates(&rows, &cfg);
    assert_eq!(rep.groups.len(), 1, "one burst run");
    let g = &rep.groups[0];
    assert_eq!(g.kind, DupKind::Burst);
    assert_eq!(paths(g), vec!["/lib/1.jpg", "/lib/2.jpg", "/lib/3.jpg"]);
}

#[test]
fn burst_window_boundary_splits_runs() {
    let shot = |path: &str, t: i64| MediaRow {
        date_taken: Some(t),
        camera_model: Some("R5".into()),
        ..row(path, 100)
    };
    let cfg = DupConfig {
        find_exact: false,
        find_near: false,
        find_burst: true,
        burst_window_secs: 2,
        ..DupConfig::default()
    };
    // Exactly at the window: still one burst.
    let rep = find_duplicates(&[shot("/a.jpg", 100), shot("/b.jpg", 102)], &cfg);
    assert_eq!(rep.groups.len(), 1);
    // One second past it: two singletons, so nothing is reported.
    let rep = find_duplicates(&[shot("/a.jpg", 100), shot("/b.jpg", 103)], &cfg);
    assert!(rep.is_empty());
}

#[test]
fn burst_detection_is_off_by_default() {
    let shot = |path: &str, t: i64| MediaRow {
        date_taken: Some(t),
        camera_model: Some("R5".into()),
        ..row(path, 100)
    };
    let rows = vec![shot("/lib/1.jpg", 1000), shot("/lib/2.jpg", 1001)];
    assert!(find_duplicates(&rows, &DupConfig::default()).is_empty());
}

#[test]
fn shots_without_capture_time_are_not_bursts() {
    let cfg = DupConfig {
        find_exact: false,
        find_near: false,
        find_burst: true,
        ..DupConfig::default()
    };
    let rows = vec![row("/lib/a.jpg", 100), row("/lib/b.jpg", 100)];
    assert!(find_duplicates(&rows, &cfg).is_empty());
}

#[test]
fn keeper_prefers_highest_resolution() {
    let big = MediaRow {
        width: Some(6000),
        height: Some(4000),
        ..with_hash("/lib/z_big.jpg", 500, "h1")
    };
    let small = MediaRow {
        width: Some(800),
        height: Some(600),
        ..with_hash("/lib/a_small.jpg", 9000, "h1")
    };
    // The small image has the larger byte size and sorts first
    // alphabetically — resolution must still win.
    let rep = find_duplicates(&[small, big], &DupConfig::default());
    let g = &rep.groups[0];
    assert_eq!(g.keeper_row().file_name, "z_big.jpg");
    assert_eq!(g.reclaimable, 9000);
    assert_eq!(g.others().len(), 1);
}

#[test]
fn keeper_falls_back_to_size_then_mtime_then_path() {
    // No dimensions known: the larger file wins.
    let rep = find_duplicates(
        &[
            with_hash("/lib/a.jpg", 100, "h"),
            with_hash("/lib/b.jpg", 900, "h"),
        ],
        &DupConfig::default(),
    );
    assert_eq!(rep.groups[0].keeper_row().file_name, "b.jpg");

    // Same size: the older file is the original.
    let older = MediaRow {
        mtime: 10,
        ..with_hash("/lib/old.jpg", 100, "h")
    };
    let newer = MediaRow {
        mtime: 99,
        ..with_hash("/lib/new.jpg", 100, "h")
    };
    let rep = find_duplicates(&[newer, older], &DupConfig::default());
    assert_eq!(rep.groups[0].keeper_row().file_name, "old.jpg");

    // Fully tied: the shortest path wins, so nested copies lose.
    let rep = find_duplicates(
        &[
            with_hash("/lib/copies/deep/a.jpg", 100, "h"),
            with_hash("/lib/a.jpg", 100, "h"),
        ],
        &DupConfig::default(),
    );
    assert_eq!(rep.groups[0].keeper_row().path, String::from("/lib/a.jpg"));
}

#[test]
fn keeper_choice_is_independent_of_input_order() {
    let a = with_hash("/lib/a.jpg", 100, "h");
    let b = with_hash("/lib/b.jpg", 100, "h");
    let fwd = find_duplicates(&[a.clone(), b.clone()], &DupConfig::default());
    let rev = find_duplicates(&[b, a], &DupConfig::default());
    assert_eq!(
        fwd.groups[0].keeper_row().path,
        rev.groups[0].keeper_row().path
    );
}

#[test]
fn groups_are_ordered_by_kind_then_reclaimable_bytes() {
    let mut near_a = with_hash("/lib/n1.jpg", 10, "x1");
    let mut near_b = with_hash("/lib/n2.jpg", 10, "x2");
    near_a.phash = Some(0);
    near_b.phash = Some(1);

    let rows = vec![
        with_hash("/lib/e1.jpg", 5_000, "same"),
        with_hash("/lib/e2.jpg", 5_000, "same"),
        near_a,
        near_b,
    ];
    let rep = find_duplicates(&rows, &DupConfig::default());
    assert_eq!(rep.groups.len(), 2);
    assert_eq!(rep.groups[0].kind, DupKind::Exact, "strongest evidence first");
    assert_eq!(rep.groups[1].kind, DupKind::Near);
    assert_eq!(rep.count_of(DupKind::Exact), 1);
    assert_eq!(rep.count_of(DupKind::Near), 1);
}

#[test]
fn empty_and_single_inputs_produce_nothing() {
    assert!(find_duplicates(&[], &DupConfig::default()).is_empty());
    let one = vec![with_hash("/lib/a.jpg", 1, "h")];
    assert!(find_duplicates(&one, &DupConfig::default()).is_empty());
}

#[test]
fn three_way_exact_group_reclaims_all_but_one() {
    let rows = vec![
        with_hash("/lib/a.jpg", 100, "h"),
        with_hash("/lib/b.jpg", 100, "h"),
        with_hash("/lib/c.jpg", 100, "h"),
    ];
    let rep = find_duplicates(&rows, &DupConfig::default());
    assert_eq!(rep.groups[0].members.len(), 3);
    assert_eq!(rep.groups[0].reclaimable, 200);
    assert_eq!(rep.total_removable(), 2);
}

#[test]
fn saved_images_do_not_group_against_photographs() {
    // Byte-identical, but one is a photo you took and one is a reference
    // image you saved. You want to keep both, so this is not a duplicate.
    let photo = MediaRow {
        camera_model: Some("R5".into()),
        date_taken: Some(1_600_000_000),
        ..with_hash("/lib/IMG_1.jpg", 100, "same")
    };
    let saved = MediaRow {
        kind_override: Some(MediaKind::Saved),
        ..with_hash("/lib/inspo/ref.jpg", 100, "same")
    };

    let rep = find_duplicates(&[photo.clone(), saved.clone()], &DupConfig::default());
    assert!(
        rep.is_empty(),
        "different kinds must not group: {:?}",
        rep.groups.len()
    );

    // Turning the scoping off puts them back together, proving the two are
    // otherwise a perfectly good match.
    let mixed = DupConfig {
        same_kind_only: false,
        ..DupConfig::default()
    };
    assert_eq!(find_duplicates(&[photo, saved], &mixed).groups.len(), 1);
}

#[test]
fn duplicates_within_one_kind_are_still_found() {
    let a = MediaRow {
        kind_override: Some(MediaKind::Saved),
        ..with_hash("/lib/a.jpg", 100, "same")
    };
    let b = MediaRow {
        kind_override: Some(MediaKind::Saved),
        ..with_hash("/lib/b.jpg", 100, "same")
    };
    let rep = find_duplicates(&[a, b], &DupConfig::default());
    assert_eq!(rep.groups.len(), 1);
    assert_eq!(rep.groups[0].members.len(), 2);
}

#[test]
fn kind_scoping_still_finds_groups_in_several_kinds_at_once() {
    let saved = |p: &str| MediaRow {
        kind_override: Some(MediaKind::Saved),
        ..with_hash(p, 10, "s")
    };
    let shot = |p: &str| MediaRow {
        kind_override: Some(MediaKind::Photo),
        ..with_hash(p, 5000, "p")
    };
    let rows = vec![
        saved("/lib/s1.jpg"),
        saved("/lib/s2.jpg"),
        shot("/lib/p1.jpg"),
        shot("/lib/p2.jpg"),
    ];
    let rep = find_duplicates(&rows, &DupConfig::default());
    assert_eq!(rep.groups.len(), 2, "one group per kind");
    // Ordering is still by reclaimable bytes, so the photos come first.
    assert_eq!(rep.groups[0].reclaimable, 5000);
    assert_eq!(rep.groups[1].reclaimable, 10);
}

#[test]
fn the_report_ignores_the_order_of_rows() {
    let mut rows = vec![
        with_hash("/lib/e1.jpg", 50, "same"),
        with_hash("/lib/e2.jpg", 50, "same"),
        with_hash("/lib/f1.jpg", 50, "other"),
        with_hash("/lib/sub/f2.jpg", 50, "other"),
    ];
    for (k, phash) in [0u64, 1, 3, 0xff00_ff00, 0xff00_ff01].into_iter().enumerate() {
        let mut row = with_hash(&format!("/lib/n{k}.jpg"), 10, &format!("x{k}"));
        row.phash = Some(phash);
        row.date_taken = Some(1_000 + k as i64);
        row.camera_model = Some("Pixel 8".into());
        rows.push(row);
    }
    let describe = |rows: &[MediaRow], cfg: &DupConfig| -> Vec<String> {
        let groups = find_duplicates(rows, cfg).groups;
        groups
            .iter()
            .map(|g| {
                let paths: Vec<&str> = g.members.iter().map(|m| m.path.as_str()).collect();
                format!("{:?} {paths:?} {} {} {}", g.kind, g.keeper, g.spread, g.reclaimable)
            })
            .collect()
    };
    for same_kind_only in [true, false] {
        let cfg = DupConfig { find_burst: true, same_kind_only, ..DupConfig::default() };
        let expected = describe(&rows, &cfg);
        assert_eq!(expected.len(), 5, "{expected:?}");
        let mut turned = rows.clone();
        for _ in 0..turned.len() {
            turned.rotate_left(1);
            assert_eq!(describe(&turned, &cfg), expected);
        }
        turned.reverse();
        assert_eq!(describe(&turned, &cfg), expected);
    }
}

#[test]
fn each_kind_is_searched_for_itself() {
    let kinds = [MediaKind::Photo, MediaKind::Screenshot, MediaKind::Saved];
    let mut rows: Vec<MediaRow> = Vec::new();
    for (k, kind) in kinds.into_iter().enumerate() {
        for copy in 0..2 {
            let mut row = with_hash(&format!("/lib/{copy}/{k}.jpg"), 10 + k as u64, "same");
            row.kind_override = Some(kind);
            rows.push(row);
        }
    }
    let paths = |groups: &[DupGroup]| -> Vec<Vec<String>> {
        groups.iter().map(|g| g.members.iter().map(|m| m.path.clone()).collect()).collect()
    };
    let cfg = DupConfig::default();
    let each = DupConfig { same_kind_only: false, ..cfg };
    let mut apart: Vec<Vec<String>> = Vec::new();
    for kind in kinds {
        let some: Vec<MediaRow> =
            rows.iter().filter(|r| r.kind_override == Some(kind)).cloned().collect();
        apart.extend(paths(&find_duplicates(&some, &each).groups));
    }
    let mut together = paths(&find_duplicates(&rows, &cfg).groups);
    assert_eq!(together.len(), 3);
    assert_eq!(together[0], vec!["/lib/0/2.jpg", "/lib/1/2.jpg"], "the biggest gain first");
    together.sort();
    apart.sort();
    assert_eq!(together, apart);
    assert_eq!(find_duplicates(&rows, &each).groups.len(), 1);
}
