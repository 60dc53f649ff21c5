//! The catalog: rows, user metadata, moves and the quarantine ledger.

use renamer::catalog::{
    like_prefix, Catalog, CatalogError, CatalogStats, Entry, LedgerLine, MediaRow, Stamp,
    Visibility, META_VERSION,
};
use renamer::kind::MediaKind;
use renamer::metadata::Degrees;

fn row(path: &str, size: u64, mtime: i64) -> MediaRow {
    let name = path.rsplit('/').next().unwrap_or("");
    MediaRow {
        file_name: name.to_string(),
        ext: match name.rfind('.') {
            Some(i) if i > 0 => name[i + 1..].to_string(),
            _ => String::new(),
        },
        path: path.to_string(),
        size,
        mtime,
        ..MediaRow::default()
    }
}

fn paths_of(rows: &[MediaRow]) -> Vec<String> {
    rows.iter().map(|r| r.path.clone()).collect()
}

fn stamp_of<'a>(stamps: &'a [(String, Stamp)], path: &str) -> &'a Stamp {
    &stamps.iter().find(|(p, _)| p == path).unwrap().1
}

fn degrees(value: f64) -> Option<Degrees> {
    Some(Degrees { bits: value.to_bits() })
}

#[test]
fn upsert_is_idempotent_by_path() {
    let mut cat = Catalog::new();
    let r = row("/lib/a.jpg", 100, 10);
    let id1 = cat.upsert_media(&r).unwrap();
    let id2 = cat.upsert_media(&r).unwrap();
    assert_eq!(id1, id2);
    assert_eq!(cat.all_present(Visibility::All).len(), 1);
}

#[test]
fn unchanged_file_keeps_cached_hashes_but_changed_file_loses_them() {
    let mut cat = Catalog::new();
    let r = row("/lib/a.jpg", 100, 10);
    let id = cat.upsert_media(&r).unwrap();
    cat.set_content_hash(id, "deadbeef");
    cat.set_analysis(id, Some(0xABCD), None);

    // Re-walking an unchanged file must not throw away the expensive work —
    // this is the whole point of the catalog.
    cat.upsert_media(&r).unwrap();
    let got = &cat.all_present(Visibility::All)[0];
    assert_eq!(got.content_hash.as_deref(), Some("deadbeef"));
    assert_eq!(got.phash, Some(0xABCD));

    // A changed mtime means the bytes may differ, so the hashes must go.
    cat.upsert_media(&row("/lib/a.jpg", 100, 11)).unwrap();
    let got = &cat.all_present(Visibility::All)[0];
    assert_eq!(got.content_hash, None);
    assert_eq!(got.phash, None);
}

#[test]
fn phash_roundtrips_high_bit_values() {
    // dHash uses the full 64-bit range but SQLite integers are signed, so
    // the top bit must survive the round trip.
    let mut cat = Catalog::new();
    let id = cat.upsert_media(&row("/lib/a.jpg", 1, 1)).unwrap();
    for probe in [u64::MAX, u64::MAX - 3, 1 << 63, 0] {
        cat.set_analysis(id, Some(probe), None);
        assert_eq!(cat.all_present(Visibility::All)[0].phash, Some(probe));
    }
}

#[test]
fn dimensions_roundtrip() {
    let mut cat = Catalog::new();
    let mut r = row("/lib/a.jpg", 1, 1);
    r.width = Some(6000);
    r.height = Some(4000);
    cat.upsert_media(&r).unwrap();
    let got = &cat.all_present(Visibility::All)[0];
    assert_eq!((got.width, got.height), (Some(6000), Some(4000)));
}

#[test]
fn stamps_under_scopes_to_root() {
    let mut cat = Catalog::new();
    cat.upsert_media(&row("/lib/a.jpg", 1, 1)).unwrap();
    cat.upsert_media(&row("/lib/sub/b.jpg", 2, 2)).unwrap();
    cat.upsert_media(&row("/other/c.jpg", 3, 3)).unwrap();

    let stamps = cat.stamps_under("/lib");
    assert_eq!(stamps.len(), 2);
    let a = stamp_of(&stamps, "/lib/a.jpg");
    assert_eq!((a.size, a.mtime), (1, 1));
    assert!(!a.has_content_hash && !a.has_phash);
}

#[test]
fn root_prefix_does_not_leak_into_sibling_folders() {
    // "/photos/lib" must not match "/photos/library".
    let mut cat = Catalog::new();
    cat.upsert_media(&row("/photos/lib/a.jpg", 1, 1)).unwrap();
    cat.upsert_media(&row("/photos/library/b.jpg", 2, 2))
        .unwrap();

    let rows = cat.present_under("/photos/lib", Visibility::All);
    assert_eq!(paths_of(&rows), vec!["/photos/lib/a.jpg"]);
    assert_eq!(cat.stats_under("/photos/lib").unwrap().files, 1);
}

#[test]
fn like_wildcards_in_paths_are_escaped() {
    // `_` and `%` are LIKE wildcards, and `_` is everywhere in camera
    // filenames. An unescaped pattern would pull in unrelated folders.
    let mut cat = Catalog::new();
    cat.upsert_media(&row("/lib_a/keep.jpg", 1, 1)).unwrap();
    cat.upsert_media(&row("/libXa/other.jpg", 2, 2)).unwrap();
    cat.upsert_media(&row("/100%/pct.jpg", 3, 3)).unwrap();
    cat.upsert_media(&row("/100X/notpct.jpg", 4, 4)).unwrap();

    let rows = cat.present_under("/lib_a", Visibility::All);
    assert_eq!(paths_of(&rows), vec!["/lib_a/keep.jpg"]);

    let rows = cat.present_under("/100%", Visibility::All);
    assert_eq!(paths_of(&rows), vec!["/100%/pct.jpg"]);
}

#[test]
fn mark_missing_respects_escaped_root_scope() {
    let mut cat = Catalog::new();
    let keep = cat.upsert_media(&row("/lib_a/keep.jpg", 1, 1)).unwrap();
    cat.upsert_media(&row("/lib_a/gone.jpg", 2, 2)).unwrap();
    cat.upsert_media(&row("/libXa/untouched.jpg", 3, 3)).unwrap();

    let flagged = cat.mark_missing("/lib_a", &[keep]);
    assert_eq!(flagged, 1, "only gone.jpg is missing");
    assert_eq!(
        paths_of(&cat.all_present(Visibility::All)),
        vec!["/libXa/untouched.jpg", "/lib_a/keep.jpg"]
    );
}

#[test]
fn only_size_collisions_need_hashing() {
    let mut cat = Catalog::new();
    cat.upsert_media(&row("/lib/a.jpg", 100, 1)).unwrap();
    cat.upsert_media(&row("/lib/b.jpg", 100, 2)).unwrap();
    cat.upsert_media(&row("/lib/c.jpg", 999, 3)).unwrap();

    assert_eq!(cat.duplicate_candidate_sizes(), vec![100]);
    let names: Vec<String> = cat
        .rows_needing_content_hash()
        .iter()
        .map(|(_, p)| p.rsplit('/').next().unwrap().to_string())
        .collect();
    // c.jpg has a unique size, so it cannot be a byte-duplicate of anything.
    assert_eq!(names, vec!["a.jpg", "b.jpg"]);
}

#[test]
fn hashed_rows_drop_out_of_the_work_list() {
    let mut cat = Catalog::new();
    let a = cat.upsert_media(&row("/lib/a.jpg", 100, 1)).unwrap();
    cat.upsert_media(&row("/lib/b.jpg", 100, 2)).unwrap();
    cat.set_content_hash(a, "aa");
    assert_eq!(cat.rows_needing_content_hash().len(), 1);

    assert_eq!(cat.rows_needing_analysis().len(), 2);
    // A row only leaves the analysis work list once the decode pass has
    // produced *everything*: a perceptual hash alone still leaves the
    // dominant colour outstanding.
    cat.set_analysis(a, Some(1), None);
    assert_eq!(
        cat.rows_needing_analysis().len(),
        2,
        "still missing a colour"
    );
    cat.set_analysis(a, Some(1), Some(0x102030));
    assert_eq!(cat.rows_needing_analysis().len(), 1);
}

#[test]
fn mark_missing_then_purge() {
    let mut cat = Catalog::new();
    let a = cat.upsert_media(&row("/lib/a.jpg", 1, 1)).unwrap();
    cat.upsert_media(&row("/lib/b.jpg", 2, 2)).unwrap();
    cat.upsert_media(&row("/other/c.jpg", 3, 3)).unwrap();

    // Only a.jpg was seen; b.jpg is gone; c.jpg is out of scope entirely.
    assert_eq!(cat.mark_missing("/lib", &[a]), 1);
    assert_eq!(
        paths_of(&cat.all_present(Visibility::All)),
        vec!["/lib/a.jpg", "/other/c.jpg"]
    );
    assert_eq!(cat.purge_missing(), 1);
    assert_eq!(cat.all_present(Visibility::All).len(), 2);
}

#[test]
fn reappearing_file_clears_the_missing_flag() {
    let mut cat = Catalog::new();
    let a = cat.upsert_media(&row("/lib/a.jpg", 1, 1)).unwrap();
    cat.upsert_media(&row("/lib/b.jpg", 2, 2)).unwrap();
    cat.mark_missing("/lib", &[a]);
    assert_eq!(cat.all_present(Visibility::All).len(), 1);

    // Re-indexing after the file comes back must un-hide it.
    cat.upsert_media(&row("/lib/b.jpg", 2, 2)).unwrap();
    assert_eq!(cat.all_present(Visibility::All).len(), 2);
}

#[test]
fn stats_are_scoped_and_count_computed_fields() {
    let mut cat = Catalog::new();
    let a = cat.upsert_media(&row("/lib/a.jpg", 100, 1)).unwrap();
    cat.upsert_media(&row("/lib/b.jpg", 250, 2)).unwrap();
    cat.upsert_media(&row("/other/c.jpg", 999, 3)).unwrap();
    cat.set_content_hash(a, "aa");
    cat.set_analysis(a, Some(7), None);

    assert_eq!(
        cat.stats_under("/lib").unwrap(),
        CatalogStats {
            files: 2,
            hashed: 1,
            phashed: 1,
            bytes: 350,
        }
    );
}

#[test]
fn quarantine_ledger_batches_and_restores() {
    let mut cat = Catalog::new();
    assert_eq!(cat.next_quarantine_batch(), 1);
    assert_eq!(cat.latest_restorable_batch(), None);

    cat.record_quarantine(1, "/lib/dup1.jpg", "/q/dup1.jpg")
        .unwrap();
    cat.record_quarantine(1, "/lib/dup2.jpg", "/q/dup2.jpg")
        .unwrap();
    assert_eq!(cat.next_quarantine_batch(), 2);
    assert_eq!(cat.latest_restorable_batch(), Some(1));

    let batch = cat.quarantine_batch(1);
    assert_eq!(batch.len(), 2);
    assert_eq!(cat.quarantine_pending().len(), 2);
    assert_eq!(batch[0].original_path, String::from("/lib/dup2.jpg"));

    for e in &batch {
        cat.mark_restored(e.id);
    }
    assert!(cat.quarantine_batch(1).is_empty());
    assert!(cat.quarantine_pending().is_empty());
    assert_eq!(cat.latest_restorable_batch(), None);
    // Batch numbers keep advancing so a restored batch is never reused.
    assert_eq!(cat.next_quarantine_batch(), 2);
}

#[test]
fn remove_path_drops_the_row() {
    let mut cat = Catalog::new();
    cat.upsert_media(&row("/lib/a.jpg", 1, 1)).unwrap();
    assert_eq!(cat.remove_path("/lib/a.jpg"), 1);
    assert!(cat.all_present(Visibility::All).is_empty());
}

#[test]
fn moving_a_file_keeps_its_row_and_everything_expensive_on_it() {
    // The whole point of apply_moves: a rename must not look like a delete
    // plus an insert, or the next index throws away work already done.
    let mut cat = Catalog::new();
    let id = cat.upsert_media(&row("/lib/IMG_1.jpg", 100, 5)).unwrap();
    cat.set_content_hash(id, "abc123");
    cat.set_analysis(id, Some(0xFEED), Some(0x00FF00));

    let moved = cat
        .apply_moves(&[(
            String::from("/lib/IMG_1.jpg"),
            String::from("/lib/2019/holiday.jpg"),
        )]);
    assert_eq!(moved, 1);

    let rows = cat.all_present(Visibility::All);
    assert_eq!(rows.len(), 1, "one row, not two");
    assert_eq!(rows[0].id, id, "same row, not a replacement");
    assert_eq!(rows[0].path, String::from("/lib/2019/holiday.jpg"));
    assert_eq!(rows[0].file_name, "holiday.jpg");
    assert_eq!(rows[0].ext, "jpg");
    assert_eq!(rows[0].content_hash.as_deref(), Some("abc123"));
    assert_eq!(rows[0].phash, Some(0xFEED));
    assert_eq!(rows[0].dom_color, Some(0x00FF00));
}

#[test]
fn hidden_flag_survives_a_rename() {
    // The durability guarantee that matters: user-assigned metadata is keyed
    // on content hash, so it follows the bytes even if the row were rebuilt.
    let mut cat = Catalog::new();
    let id = cat.upsert_media(&row("/lib/private.jpg", 100, 5)).unwrap();
    cat.set_content_hash(id, "hash-of-bytes");
    cat.set_hidden("hash-of-bytes", true);
    assert!(cat.is_hidden("hash-of-bytes"));

    cat.apply_moves(&[(
        String::from("/lib/private.jpg"),
        String::from("/lib/sorted/2019_001.jpg"),
    )]);

    let visible = cat.all_present(Visibility::VisibleOnly);
    assert!(visible.is_empty(), "still hidden after the rename");
    let all = cat.all_present(Visibility::All);
    assert_eq!(all.len(), 1);
    assert!(all[0].hidden);
}

#[test]
fn hidden_flag_survives_even_a_full_row_rebuild() {
    // Simulates a move made outside the app: the row is dropped and
    // recreated by a later index. Keying on content hash is what saves it.
    let mut cat = Catalog::new();
    let id = cat.upsert_media(&row("/lib/a.jpg", 100, 5)).unwrap();
    cat.set_content_hash(id, "same-bytes");
    cat.set_hidden("same-bytes", true);

    // A second row keeps SQLite's rowid counter above `id`. Without it,
    // deleting the highest rowid frees it for reuse and the "new" row comes
    // back with the same id, which would make the assertion below vacuous.
    cat.upsert_media(&row("/lib/zz-other.jpg", 7, 7)).unwrap();

    cat.remove_path("/lib/a.jpg");
    let new_id = cat
        .upsert_media(&MediaRow {
            content_hash: Some("same-bytes".into()),
            ..row("/elsewhere/renamed.jpg", 100, 9)
        })
        .unwrap();
    assert_ne!(new_id, id, "genuinely a new row, not an update");

    // The rebuilt row is still hidden: the flag followed the bytes, not the
    // path or the row id.
    let visible = cat.all_present(Visibility::VisibleOnly);
    assert_eq!(paths_of(&visible), vec!["/lib/zz-other.jpg"]);
    let all = cat.all_present(Visibility::All);
    let rebuilt = all.iter().find(|r| r.id == new_id).unwrap();
    assert!(rebuilt.hidden);
}

#[test]
fn apply_moves_clears_a_stale_row_at_the_destination() {
    // `path` is UNIQUE, so a leftover row where the file is going would
    // otherwise make the update fail.
    let mut cat = Catalog::new();
    cat.upsert_media(&row("/lib/a.jpg", 100, 1)).unwrap();
    cat.upsert_media(&row("/lib/b.jpg", 200, 2)).unwrap();

    let moved = cat
        .apply_moves(&[(String::from("/lib/a.jpg"), String::from("/lib/b.jpg"))]);
    assert_eq!(moved, 1);
    let rows = cat.all_present(Visibility::All);
    assert_eq!(rows.len(), 1);
    assert_eq!(rows[0].path, String::from("/lib/b.jpg"));
    assert_eq!(rows[0].size, 100, "the moved file's row won, not the stale one");
}

#[test]
fn apply_moves_ignores_paths_it_does_not_know() {
    let mut cat = Catalog::new();
    cat.upsert_media(&row("/lib/a.jpg", 100, 1)).unwrap();
    // A rename in a folder that was never indexed is the normal case.
    let moved = cat
        .apply_moves(&[(
            String::from("/somewhere/else.jpg"),
            String::from("/somewhere/new.jpg"),
        )]);
    assert_eq!(moved, 0);
    assert_eq!(cat.all_present(Visibility::All).len(), 1);
}

#[test]
fn visibility_gates_every_row_query() {
    let mut cat = Catalog::new();
    let a = cat.upsert_media(&row("/lib/keep.jpg", 100, 1)).unwrap();
    let b = cat.upsert_media(&row("/lib/private.jpg", 200, 2)).unwrap();
    cat.set_content_hash(a, "h-keep");
    cat.set_content_hash(b, "h-private");
    cat.set_hidden("h-private", true);

    for rows in [
        cat.present_under("/lib", Visibility::VisibleOnly),
        cat.all_present(Visibility::VisibleOnly),
    ] {
        assert_eq!(paths_of(&rows), vec!["/lib/keep.jpg"]);
    }
    for rows in [
        cat.present_under("/lib", Visibility::All),
        cat.all_present(Visibility::All),
    ] {
        assert_eq!(rows.len(), 2);
    }
    assert_eq!(cat.hidden_count_under("/lib"), 1);
}

#[test]
fn unhiding_restores_visibility() {
    let mut cat = Catalog::new();
    let id = cat.upsert_media(&row("/lib/a.jpg", 100, 1)).unwrap();
    cat.set_content_hash(id, "h");
    cat.set_hidden("h", true);
    assert!(cat.all_present(Visibility::VisibleOnly).is_empty());

    cat.set_hidden("h", false);
    assert_eq!(cat.all_present(Visibility::VisibleOnly).len(), 1);
    assert!(!cat.is_hidden("h"));
    assert_eq!(cat.hidden_count_under("/lib"), 0);
}

#[test]
fn identical_files_share_user_metadata() {
    // Byte-identical files are the same picture, so hiding one hides both.
    let mut cat = Catalog::new();
    let a = cat.upsert_media(&row("/lib/a.jpg", 100, 1)).unwrap();
    let b = cat.upsert_media(&row("/lib/copy/a.jpg", 100, 2)).unwrap();
    cat.set_content_hash(a, "identical");
    cat.set_content_hash(b, "identical");
    cat.set_hidden("identical", true);

    assert!(cat.all_present(Visibility::VisibleOnly).is_empty());
    assert_eq!(cat.hidden_count_under("/lib"), 2);
}

#[test]
fn unhashed_rows_are_never_hidden_by_accident() {
    // Rows with no content hash must not join against a NULL and vanish.
    let mut cat = Catalog::new();
    cat.upsert_media(&row("/lib/unhashed.jpg", 100, 1)).unwrap();
    let b = cat.upsert_media(&row("/lib/hidden.jpg", 200, 2)).unwrap();
    cat.set_content_hash(b, "h");
    cat.set_hidden("h", true);

    let rows = cat.all_present(Visibility::VisibleOnly);
    assert_eq!(paths_of(&rows), vec!["/lib/unhashed.jpg"]);
}

#[test]
fn dominant_colour_roundtrips_and_survives_unchanged_reindex() {
    let mut cat = Catalog::new();
    let r = row("/lib/a.jpg", 100, 5);
    let id = cat.upsert_media(&r).unwrap();
    cat.set_analysis(id, Some(1), Some(0xC0FFEE));
    assert_eq!(
        cat.all_present(Visibility::All)[0].dom_color,
        Some(0xC0FFEE)
    );

    // Unchanged file: keep it. Changed file: recompute.
    cat.upsert_media(&r).unwrap();
    assert_eq!(
        cat.all_present(Visibility::All)[0].dom_color,
        Some(0xC0FFEE)
    );
    cat.upsert_media(&row("/lib/a.jpg", 100, 6)).unwrap();
    assert_eq!(cat.all_present(Visibility::All)[0].dom_color, None);
}

#[test]
fn rows_needing_analysis_covers_colour_added_to_an_older_catalog() {
    // A row hashed before colour extraction existed must be picked up again,
    // rather than needing a full rebuild.
    let mut cat = Catalog::new();
    let id = cat.upsert_media(&row("/lib/a.jpg", 100, 1)).unwrap();
    cat.set_analysis(id, Some(7), None);
    assert_eq!(cat.rows_needing_analysis().len(), 1);

    cat.set_analysis(id, Some(7), Some(0x112233));
    assert!(cat.rows_needing_analysis().is_empty());
}


#[test]
fn rating_roundtrips_and_clamps() {
    let mut cat = Catalog::new();
    let id = cat.upsert_media(&row("/lib/a.jpg", 100, 1)).unwrap();
    cat.set_content_hash(id, "h");
    assert_eq!(cat.all_present(Visibility::All)[0].rating, 0);

    for stars in 0..=5u8 {
        cat.set_rating("h", stars);
        assert_eq!(cat.all_present(Visibility::All)[0].rating, stars);
    }
    // A caller bug must not poison the database with an impossible rating.
    cat.set_rating("h", 99);
    assert_eq!(cat.all_present(Visibility::All)[0].rating, 5);
}

#[test]
fn kind_override_roundtrips_and_clears() {
    let mut cat = Catalog::new();
    let id = cat.upsert_media(&row("/lib/a.jpg", 100, 1)).unwrap();
    cat.set_content_hash(id, "h");
    assert_eq!(cat.all_present(Visibility::All)[0].kind_override, None);

    for k in MediaKind::ALL {
        cat.set_kind("h", Some(k));
        assert_eq!(
            cat.all_present(Visibility::All)[0].kind_override,
            Some(k)
        );
    }
    cat.set_kind("h", None);
    assert_eq!(cat.all_present(Visibility::All)[0].kind_override, None);
}

#[test]
fn user_meta_fields_are_independent() {
    // Each setter writes one column; the others must survive untouched.
    let mut cat = Catalog::new();
    let id = cat.upsert_media(&row("/lib/a.jpg", 100, 1)).unwrap();
    cat.set_content_hash(id, "h");

    cat.set_rating("h", 4);
    cat.set_hidden("h", true);
    cat.set_kind("h", Some(MediaKind::Saved));

    let got = &cat.all_present(Visibility::All)[0];
    assert_eq!(got.rating, 4);
    assert!(got.hidden);
    assert_eq!(got.kind_override, Some(MediaKind::Saved));

    // Changing one still leaves the rest alone.
    cat.set_hidden("h", false);
    let got = &cat.all_present(Visibility::All)[0];
    assert_eq!(got.rating, 4);
    assert!(!got.hidden);
    assert_eq!(got.kind_override, Some(MediaKind::Saved));
}

#[test]
fn ratings_and_kinds_survive_a_rename() {
    // Same durability guarantee as the hidden flag: keyed on bytes, so the
    // rename engine cannot lose them.
    let mut cat = Catalog::new();
    let id = cat.upsert_media(&row("/lib/IMG_1.jpg", 100, 5)).unwrap();
    cat.set_content_hash(id, "bytes");
    cat.set_rating("bytes", 5);
    cat.set_kind("bytes", Some(MediaKind::Photo));

    cat.apply_moves(&[(
        String::from("/lib/IMG_1.jpg"),
        String::from("/lib/2019/best.jpg"),
    )]);

    let got = &cat.all_present(Visibility::All)[0];
    assert_eq!(got.path, String::from("/lib/2019/best.jpg"));
    assert_eq!(got.rating, 5);
    assert_eq!(got.kind_override, Some(MediaKind::Photo));
}


#[test]
fn geotag_roundtrips_including_negative_hemispheres() {
    let mut cat = Catalog::new();
    let mut r = row("/lib/a.jpg", 100, 1);
    r.lat = degrees(-33.8688);
    r.lon = degrees(151.2093);
    cat.upsert_media(&r).unwrap();

    let got = &cat.all_present(Visibility::All)[0];
    assert_eq!(got.lat, degrees(-33.8688));
    assert_eq!(got.lon, degrees(151.2093));
    assert_eq!(got.coords(), Some((degrees(-33.8688).unwrap(), degrees(151.2093).unwrap())));
}

#[test]
fn a_photo_with_no_geotag_has_no_coords() {
    let mut cat = Catalog::new();
    cat.upsert_media(&row("/lib/a.jpg", 100, 1)).unwrap();
    assert_eq!(cat.all_present(Visibility::All)[0].coords(), None);
}

#[test]
fn half_a_geotag_yields_no_coords() {
    // One axis alone cannot place a photo.
    let mut cat = Catalog::new();
    let mut r = row("/lib/a.jpg", 100, 1);
    r.lat = degrees(51.5);
    cat.upsert_media(&r).unwrap();
    let got = &cat.all_present(Visibility::All)[0];
    assert_eq!(got.lat, degrees(51.5));
    assert_eq!(got.coords(), None);
}

#[test]
fn upsert_stamps_the_current_metadata_version() {
    let mut cat = Catalog::new();
    cat.upsert_media(&row("/lib/a.jpg", 100, 1)).unwrap();
    let stamps = cat.stamps_under("/lib");
    assert_eq!(
        stamp_of(&stamps, "/lib/a.jpg").meta_version,
        META_VERSION
    );
}

#[test]
fn rows_from_an_older_catalog_report_an_older_metadata_version() {
    // This is what makes a newly-extracted field reach files indexed before
    // it existed: the stamp is behind, so the indexer re-examines them.
    let mut cat = Catalog::new();
    cat.upsert_media(&row("/lib/a.jpg", 100, 1)).unwrap();
    cat.mark_meta_stale_for_tests();

    let stamps = cat.stamps_under("/lib");
    let stamp = stamp_of(&stamps, "/lib/a.jpg");
    assert!(
        stamp.meta_version < META_VERSION,
        "stale row must be detectable"
    );
    // Size and mtime still match, so version is the only thing that would
    // trigger a re-read.
    assert_eq!((stamp.size, stamp.mtime), (100, 1));
}


#[test]
fn like_prefix_escapes_and_anchors() {
    assert_eq!(like_prefix("/a/b"), "/a/b/%");
    assert_eq!(like_prefix("/a/b/"), "/a/b/%");
    assert_eq!(like_prefix("/lib_a"), "/lib\\_a/%");
    assert_eq!(like_prefix("/100%"), "/100\\%/%");
}

#[test]
fn numbers_that_run_out_are_errors() {
    let last = Entry {
        row: MediaRow { id: i64::MAX, ..row("/lib/z.jpg", 1, 1) },
        meta_version: META_VERSION,
    };
    let mut cat = Catalog::from_tables(vec![last], Vec::new(), Vec::new()).unwrap();
    assert_eq!(cat.upsert_media(&row("/lib/a.jpg", 1, 1)), Err(CatalogError::NoMoreIds));
    assert_eq!(cat.upsert_media(&row("/lib/z.jpg", 2, 1)), Ok(i64::MAX), "known already");
    assert!(!CatalogError::NoMoreIds.message().is_empty());

    let line = LedgerLine {
        id: i64::MAX,
        batch: 1,
        original_path: "/a".into(),
        quarantine_path: "/q/a".into(),
        restored: false,
    };
    let mut cat = Catalog::from_tables(Vec::new(), Vec::new(), vec![line]).unwrap();
    assert_eq!(cat.record_quarantine(2, "/b", "/q/b"), Err(CatalogError::NoMoreIds));

    let mut cat = Catalog::new();
    cat.upsert_media(&row("/lib/a.jpg", i64::MAX as u64, 1)).unwrap();
    cat.upsert_media(&row("/lib/b.jpg", 1, 1)).unwrap();
    assert_eq!(cat.stats_under("/lib"), Err(CatalogError::SizeOverflow));
    assert_ne!(CatalogError::SizeOverflow.message(), CatalogError::NoMoreIds.message());
}

#[test]
fn visibility_is_a_parameter() {
    assert_eq!(Visibility::All.as_param(), 0);
    assert_eq!(Visibility::VisibleOnly.as_param(), 1);
}
