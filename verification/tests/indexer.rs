//! Indexing a library.

use image::{DynamicImage, ImageFormat, Rgb, Rgb32FImage, RgbImage};
use renamer::catalog::{Catalog, CatalogStats, MediaRow, Visibility};
use renamer::colour::unpack;
use renamer::dupes::{find_duplicates, DupConfig, DupKind};
use renamer::hashing::content_hash;
use renamer::indexer::{
    analyse_image, collect_files, current_id, decode_one, ensure_content_hash,
    extension_of, files_to_examine, hash_phase, index_library, is_decodable_ext, run_decode_pass,
    scan_phase, to_events, to_row, DecodeEvent, Decoded, HashResult, IndexConfig, IndexOutcome,
    IndexRun, IndexStep, Look, ScanEvent, StepResult, ThumbEvent,
};
use renamer::kind::MediaKind;
use renamer::metadata::{is_image_ext, Degrees, DateStamp, FileMeta};
use renamer::thumbs::thumb_path;

struct DiskFile {
    path: String,
    bytes: Vec<u8>,
    mtime: i64,
}

/// A library in memory, and the thumbnails made for it.
struct Fixture {
    disk: Vec<DiskFile>,
    thumbs: Vec<(String, Vec<u8>)>,
    catalog: Catalog,
    clock: i64,
}

/// The image in a file, in the format that its extension names.
fn decoded(path: &str, bytes: &[u8]) -> Option<DynamicImage> {
    let format = ImageFormat::from_extension(extension_of(path))?;
    image::load_from_memory_with_format(bytes, format).ok()
}

fn fixture() -> Fixture {
    Fixture { disk: Vec::new(), thumbs: Vec::new(), catalog: Catalog::new(), clock: 1000 }
}

fn png(img: &DynamicImage) -> Vec<u8> {
    let mut out = std::io::Cursor::new(Vec::new());
    img.write_to(&mut out, ImageFormat::Png).unwrap();
    out.into_inner()
}

impl Fixture {
    fn write(&mut self, rel: &str, bytes: Vec<u8>) -> String {
        let path = format!("/library/{rel}");
        let mtime = self.clock;
        self.disk.retain(|d| d.path != path);
        self.disk.push(DiskFile { path: path.clone(), bytes, mtime });
        path
    }

    fn bytes(&self, path: &str) -> Vec<u8> {
        self.disk.iter().find(|d| d.path == path).unwrap().bytes.clone()
    }

    /// Write a distinct PNG. `shift` changes the pixels, so two images with
    /// the same shift are byte-identical and different shifts are not.
    fn image(&mut self, rel: &str, w: u32, h: u32, shift: u8) -> String {
        let mut img = RgbImage::new(w, h);
        for (x, y, px) in img.enumerate_pixels_mut() {
            let v = ((x * 7 + y * 13 + shift as u32 * 61) % 256) as u8;
            *px = Rgb([v, v.wrapping_add(40), v.wrapping_add(80)]);
        }
        self.write(rel, png(&DynamicImage::ImageRgb8(img)))
    }

    fn solid(&mut self, rel: &str, w: u32, h: u32, colour: [u8; 3]) -> String {
        let img = RgbImage::from_pixel(w, h, Rgb(colour));
        self.write(rel, png(&DynamicImage::ImageRgb8(img)))
    }

    fn cfg(&self) -> IndexConfig {
        IndexConfig::new("/library".to_string())
    }

    fn index(&mut self) -> IndexOutcome {
        let cfg = self.cfg();
        self.index_with(&cfg)
    }

    fn index_with(&mut self, cfg: &IndexConfig) -> IndexOutcome {
        let mut run = IndexRun::new(cfg.clone());
        let found: Vec<String> = self.disk.iter().map(|d| d.path.clone()).collect();
        let mut result = StepResult::Found(found);
        loop {
            result = match index_library(&mut self.catalog, &mut run, result) {
                IndexStep::Stat => StepResult::Stats(self.stat(&run)),
                IndexStep::Examine => StepResult::Examined(self.examine(&run)),
                IndexStep::Hash(work) => StepResult::Hashed(self.hash(work)),
                IndexStep::Decode(work) => StepResult::Decoded(self.decode(work)),
                IndexStep::Finished => return run.out,
            };
        }
    }

    fn stat(&self, run: &IndexRun) -> Vec<Option<(u64, i64)>> {
        let file = |path: &String| self.disk.iter().find(|d| &d.path == path);
        run.files.iter().map(|p| file(p).map(|f| (f.bytes.len() as u64, f.mtime))).collect()
    }

    fn examine(&self, run: &IndexRun) -> Vec<Option<FileMeta>> {
        let examine = |(path, look): (&String, &Look)| match look {
            Look::Examine { .. } => Some(FileMeta::read_with(path, None, None)),
            _ => None,
        };
        run.files.iter().zip(&run.looks).map(examine).collect()
    }

    fn hash(&self, work: Vec<(i64, String)>) -> Vec<HashResult> {
        work.into_iter()
            .map(|(id, path)| {
                let hash = Ok(content_hash(&self.bytes(&path)));
                HashResult { id, path, hash }
            })
            .collect()
    }

    fn decode(&mut self, work: Vec<(i64, String)>) -> Vec<Decoded> {
        let mut results: Vec<Decoded> = Vec::new();
        for (id, path) in work {
            let file = self.disk.iter().find(|d| d.path == path).unwrap();
            let thumb = thumb_path("/cache", &path, file.bytes.len() as u64, file.mtime);
            let cached = self.thumbs.iter().any(|(p, _)| *p == thumb);
            let analysis = decoded(&path, &file.bytes).and_then(|i| analyse_image(&i, cached));
            let event = match analysis {
                None => DecodeEvent::NotAnImage,
                Some(a) => DecodeEvent::Image {
                    phash: a.phash,
                    dom_color: a.dom_color,
                    width: a.width,
                    height: a.height,
                    thumb: match a.thumb {
                        None => ThumbEvent::Cached,
                        Some(Ok(jpeg)) => {
                            self.thumbs.push((thumb, jpeg));
                            ThumbEvent::Written
                        }
                        Some(Err(e)) => ThumbEvent::Failed(e),
                    },
                },
            };
            results.push(decode_one(id, &path, &event));
        }
        results
    }

    fn ensure_hash(&mut self, row: &MediaRow) -> Result<String, String> {
        let read = Ok(content_hash(&self.bytes(&row.path)));
        ensure_content_hash(&mut self.catalog, row, &read)
    }
}

#[test]
fn indexes_images_and_computes_hashes_and_thumbnails() {
    let mut f = fixture();
    f.image("a.png", 40, 30, 1);
    f.image("nested/b.png", 40, 30, 2);

    let out = f.index();
    assert!(out.errors.is_empty(), "errors: {:?}", out.errors);
    assert_eq!(out.scanned, 2);
    assert_eq!(out.updated, 2);
    assert_eq!(out.unchanged, 0);
    assert_eq!(out.phashed, 2, "both images analysed");
    assert_eq!(out.thumbs, 2, "thumbnails generated from the same decode");

    let rows = f.catalog.all_present(Visibility::All);
    assert_eq!(rows.len(), 2);
    assert!(rows.iter().all(|r| r.phash.is_some()));
    assert!(rows.iter().all(|r| r.width == Some(40)));
    assert!(rows.iter().all(|r| r.height == Some(30)));
    assert!(!f.thumbs.is_empty());

}

#[test]
fn rescan_of_an_unchanged_library_does_no_work() {
    let mut f = fixture();
    f.image("a.png", 32, 32, 1);
    f.image("b.png", 32, 32, 2);

    let first = f.index();
    assert_eq!(first.updated, 2);

    // This is the payoff of the catalog: nothing is re-read.
    let second = f.index();
    assert_eq!(second.scanned, 2);
    assert_eq!(second.unchanged, 2);
    assert_eq!(second.updated, 0);
    assert_eq!(second.hashed, 0);
    assert_eq!(second.phashed, 0, "no image re-decoded");
    assert_eq!(second.thumbs, 0);

}

#[test]
fn identical_files_get_content_hashes_and_group_as_exact_duplicates() {
    let mut f = fixture();
    let a = f.image("a.png", 32, 32, 5);
    // A byte-for-byte copy, which is the common "imported twice" case.
    let bytes = f.bytes(&a);
    f.write("copies/a-copy.png", bytes);
    // And a file with unique contents, which must not be hashed at all.
    f.image("unique.png", 64, 48, 9);

    let out = f.index();
    assert!(out.errors.is_empty(), "errors: {:?}", out.errors);
    assert_eq!(out.scanned, 3);
    assert_eq!(
        out.hashed, 2,
        "only the size-colliding pair is read for hashing"
    );

    let rows = f.catalog.all_present(Visibility::All);
    let hashed: Vec<_> = rows.iter().filter(|r| r.content_hash.is_some()).collect();
    assert_eq!(hashed.len(), 2);
    assert_eq!(hashed[0].content_hash, hashed[1].content_hash);

    let rep = find_duplicates(&rows, &DupConfig::default());
    assert_eq!(rep.count_of(DupKind::Exact), 1);

}

#[test]
fn resized_copy_is_found_as_a_near_duplicate() {
    // End-to-end proof of the near-duplicate path: same picture, different
    // bytes and dimensions, so only perceptual hashing can connect them.
    let mut f = fixture();
    let orig = f.image("orig.png", 200, 200, 3);
    let img = image::load_from_memory(&f.bytes(&orig)).unwrap();
    let small = img.resize_exact(100, 100, image::imageops::FilterType::Triangle);
    f.write("shrunk.png", png(&small));

    let out = f.index();
    assert!(out.errors.is_empty(), "errors: {:?}", out.errors);

    let rows = f.catalog.all_present(Visibility::All);
    assert_eq!(rows.len(), 2);
    assert!(rows.iter().all(|r| r.phash.is_some()));

    let rep = find_duplicates(&rows, &DupConfig::default());
    assert_eq!(
        rep.count_of(DupKind::Near),
        1,
        "resized copy should be flagged as a near-duplicate"
    );
    // The full-size original is the suggested keeper.
    let g = &rep.groups[0];
    assert_eq!(g.keeper_row().width, Some(200));

}

#[test]
fn changed_file_is_reindexed_and_stale_hashes_dropped() {
    let mut f = fixture();
    f.image("a.png", 32, 32, 1);
    f.index();
    let before = f.catalog.all_present(Visibility::All)[0].phash;

    // Rewrite with different content and a newer mtime.
    f.clock += 2;
    f.solid("a.png", 32, 32, [255, 0, 0]);

    let out = f.index();
    assert_eq!(out.updated, 1, "changed file re-examined");
    let after = f.catalog.all_present(Visibility::All)[0].phash;
    assert!(after.is_some());
    assert_ne!(before, after, "perceptual hash recomputed for new content");

}

#[test]
fn deleted_file_is_marked_missing() {
    let mut f = fixture();
    let a = f.image("a.png", 32, 32, 1);
    f.image("b.png", 40, 40, 2);
    f.index();
    assert_eq!(f.catalog.all_present(Visibility::All).len(), 2);

    f.disk.retain(|d| d.path != a);
    let out = f.index();
    assert_eq!(out.missing, 1);
    assert_eq!(out.scanned, 1);
    assert_eq!(f.catalog.all_present(Visibility::All).len(), 1);

}

#[test]
fn non_images_are_skipped_when_images_only() {
    let mut f = fixture();
    f.image("a.png", 32, 32, 1);
    f.write("notes.txt", b"not a photo".to_vec());

    let out = f.index();
    assert_eq!(out.scanned, 1, "text file ignored");

    let mut cfg = f.cfg();
    cfg.images_only = false;
    let out = f.index_with(&cfg);
    assert_eq!(out.scanned, 2, "text file included when asked");

}


#[test]
fn phash_pass_can_be_disabled() {
    let mut f = fixture();
    f.image("a.png", 32, 32, 1);
    let mut cfg = f.cfg();
    cfg.compute_phash = false;

    let out = f.index_with(&cfg);
    assert_eq!(out.phashed, 0);
    assert_eq!(out.thumbs, 0);
    assert!(f.catalog.all_present(Visibility::All)[0].phash.is_none());
    assert!(f.thumbs.is_empty(), "no thumbnails written");

}




#[test]
fn empty_library_indexes_cleanly() {
    let mut f = fixture();
    let out = f.index();
    assert_eq!(out.scanned, 0);
    assert!(out.errors.is_empty());
    assert_eq!(out.stats, CatalogStats::default());
}

#[test]
fn dominant_colour_comes_out_of_the_same_decode_pass() {
    let mut f = fixture();
    // A strongly red image, written as a solid fill.
    f.solid("red.png", 48, 48, [210, 25, 30]);

    let out = f.index();
    assert!(out.errors.is_empty(), "errors: {:?}", out.errors);

    let rows = f.catalog.all_present(Visibility::All);
    let dom = rows[0].dom_color.expect("colour extracted");
    let (r, g, b) = unpack(dom);
    assert!(r > 180 && g < 70 && b < 70, "expected red, got {dom:06X}");
    // And it arrived alongside the perceptual hash from one decode.
    assert!(rows[0].phash.is_some());

}

#[test]
fn colour_is_backfilled_without_a_full_reindex() {
    // An image analysed before colour extraction existed: the next index
    // must fill it in without re-walking or re-hashing everything.
    let mut f = fixture();
    f.image("a.png", 32, 32, 4);
    f.index();

    let id = f.catalog.all_present(Visibility::All)[0].id;
    f.catalog.set_analysis(id, Some(9), None); // simulate old catalog

    let out = f.index();
    assert_eq!(out.unchanged, 1, "file itself was not re-read");
    assert!(f.catalog.all_present(Visibility::All)[0]
        .dom_color
        .is_some());

}

#[test]
fn ensure_content_hash_computes_on_demand_and_caches() {
    // Tagging a file is the moment its hash has to exist, since indexing
    // only hashes size-colliding files.
    let mut f = fixture();
    f.image("solo.png", 32, 32, 1);
    f.index();

    let row = f.catalog.all_present(Visibility::All)[0].clone();
    assert!(row.content_hash.is_none(), "unique size, so never hashed");

    let hash = f.ensure_hash(&row).unwrap();
    assert_eq!(hash.len(), 64);
    // Persisted, so a second call is free and returns the same value.
    let stored = f.catalog.all_present(Visibility::All)[0].clone();
    assert_eq!(stored.content_hash.as_deref(), Some(hash.as_str()));
    assert_eq!(f.ensure_hash(&stored).unwrap(), hash);

}

#[test]
fn reindexing_never_clobbers_user_metadata() {
    // `to_row` builds a MediaRow with inert user-metadata fields, and
    // `upsert_media` ignores them. If either ever changed, re-indexing would
    // silently wipe ratings and hidden flags.
    let mut f = fixture();
    f.image("a.png", 32, 32, 1);
    f.index();

    let row = f.catalog.all_present(Visibility::All)[0].clone();
    let hash = f.ensure_hash(&row).unwrap();
    f.catalog.set_rating(&hash, 5);
    f.catalog.set_hidden(&hash, true);
    f.catalog.set_kind(&hash, Some(MediaKind::Saved));

    // Re-index twice, to catch both the "skipped, unchanged" fast path and
    // anything that might rewrite the row.
    f.index();
    f.index();

    let after = &f.catalog.all_present(Visibility::All)[0];
    assert_eq!(after.rating, 5, "rating survived re-indexing");
    assert!(after.hidden, "hidden flag survived re-indexing");
    assert_eq!(after.kind_override, Some(MediaKind::Saved));

}

#[test]
fn replacing_a_file_with_different_bytes_does_not_inherit_its_metadata() {
    // A direct consequence of keying user metadata on content hash: metadata
    // follows the *bytes*, not the path. Overwrite a photo with a different
    // image and the new content starts unrated, because as far as the
    // catalog is concerned it is a different picture that happens to live at
    // the same path.
    //
    // Pinned deliberately. It is the right behaviour for "this path now
    // holds something else", and arguably the wrong one for "I cropped this
    // photo and saved over it" — so it should not change by accident.
    let mut f = fixture();
    f.image("a.png", 32, 32, 1);
    f.index();

    let row = f.catalog.all_present(Visibility::All)[0].clone();
    let old_hash = f.ensure_hash(&row).unwrap();
    f.catalog.set_rating(&old_hash, 5);
    f.catalog.set_kind(&old_hash, Some(MediaKind::Saved));

    f.clock += 2;
    f.image("a.png", 48, 48, 9); // same path, different content

    f.index();
    let after = &f.catalog.all_present(Visibility::All)[0];
    assert_eq!(after.rating, 0, "new content is unrated");
    assert_eq!(after.kind_override, None);

    // The old rating is not lost, just detached: it still applies to those
    // bytes should they reappear.
    assert_eq!(f.catalog.rating_of(&old_hash), 5);

}

#[test]
fn a_stale_metadata_stamp_forces_a_re_read_of_an_unchanged_file() {
    // The backfill mechanism. Without it, adding a new extracted field
    // (GPS, most recently) would only ever apply to new and changed files,
    // leaving an existing library permanently missing it.
    let mut f = fixture();
    f.image("a.png", 32, 32, 1);
    f.index();

    // Unchanged: skipped entirely.
    let out = f.index();
    assert_eq!(out.unchanged, 1);
    assert_eq!(out.updated, 0);

    // Simulate a row written by an older build, without touching the file.
    f.catalog.mark_meta_stale_for_tests();

    let out = f.index();
    assert_eq!(
        out.updated, 1,
        "stale stamp must re-read the file even though it is unchanged"
    );
    assert_eq!(out.unchanged, 0);

    // And the stamp is brought up to date, so it settles after one pass.
    let out = f.index();
    assert_eq!(out.unchanged, 1);
    assert_eq!(out.updated, 0);

}

#[test]
fn decodable_extension_list_excludes_raw_and_heic() {
    // RAW/HEIC carry EXIF worth reading but cannot be decoded here, so the
    // decode pass must not waste a full read attempting them.
    assert!(is_decodable_ext("jpg"));
    assert!(is_decodable_ext("JPEG"));
    assert!(is_decodable_ext("png"));
    assert!(!is_decodable_ext("cr2"));
    assert!(!is_decodable_ext("heic"));
    assert!(!is_decodable_ext("txt"));
    // ...but they are still recognized as images worth cataloguing.
    assert!(is_image_ext("cr2"));
    assert!(is_image_ext("heic"));
}

#[test]
fn summary_mentions_the_interesting_counts() {
    let out = IndexOutcome {
        scanned: 10,
        updated: 3,
        unchanged: 7,
        hashed: 2,
        missing: 1,
        errors: vec!["boom".into()],
        ..IndexOutcome::default()
    };
    let s = out.summary();
    assert!(s.contains("10 file(s)"));
    assert!(s.contains("3 updated"));
    assert!(s.contains("7 unchanged"));
    assert!(s.contains("2 hashed"));
    assert!(s.contains("1 missing"));
    assert!(s.contains("1 error(s)"));
}

#[test]
fn rows_are_made_from_metadata() {
    let mut meta = FileMeta::read_with("/lib/2019/IMG_1.JPG", None, None);
    meta.width = Some("6000".into());
    meta.height = Some("4000 pixels".into());
    meta.iso = Some("400".into());
    meta.date_taken = Some(DateStamp { secs: 77, nanos: 5, offset: 3600 });
    meta.lat = Some(Degrees { bits: 1 });
    let row = to_row("/lib/2019/IMG_1.JPG", &meta, 10, 20);
    assert_eq!(row.file_name, "IMG_1.JPG");
    assert_eq!(row.ext, "JPG");
    assert_eq!((row.size, row.mtime, row.date_taken), (10, 20, Some(77)));
    assert_eq!(row.width, Some(6000));
    assert_eq!(row.height, None, "not a number");
    assert_eq!(row.iso.as_deref(), Some("400"));
    assert!(row.content_hash.is_none() && !row.hidden && row.rating == 0);
}

#[test]
fn every_problem_is_reported_by_path() {
    let mut cat = Catalog::new();
    let files = vec!["/lib/a.jpg".to_string()];
    let (mut out, _) = scan_phase(&mut cat, &files, &[ScanEvent::NoStat]);
    let hashes = [HashResult { id: 1, path: "/lib/b.jpg".into(), hash: Err("gone".into()) }];
    hash_phase(&mut cat, &mut out, &hashes);
    let decoded = [
        decode_one(1, "/lib/c.jpg", &DecodeEvent::NoStat("gone".into())),
        decode_one(2, "/lib/d.txt", &DecodeEvent::NotAnImage),
        decode_one(
            3,
            "/lib/e.jpg",
            &DecodeEvent::Image {
                phash: 1,
                dom_color: 2,
                width: 3,
                height: 4,
                thumb: ThumbEvent::Failed("disk full".into()),
            },
        ),
    ];
    run_decode_pass(&mut cat, &mut out, &decoded);
    assert_eq!(
        out.errors,
        vec![
            "/lib/a.jpg: cannot stat",
            "/lib/b.jpg: gone",
            "/lib/c.jpg: gone",
            "/lib/e.jpg: thumbnail: disk full",
        ]
    );
    assert_eq!((out.phashed, out.thumbs, out.hashed), (1, 0, 0));
}

#[test]
fn what_cannot_be_hashed_is_not_tagged() {
    let mut cat = Catalog::new();
    let row = MediaRow { path: "/lib/a.jpg".into(), ..MediaRow::default() };
    assert_eq!(
        ensure_content_hash(&mut cat, &row, &Err("denied".into())),
        Err("/lib/a.jpg: denied".to_string())
    );
}

#[test]
fn files_are_picked_and_sorted() {
    let found: Vec<String> = ["/l/b.png", "/l/.renamer_undo.log", "/l/a/z.jpg", "/l/n.txt"]
        .iter()
        .map(|p| p.to_string())
        .collect();
    assert_eq!(collect_files(&found, true), vec!["/l/a/z.jpg", "/l/b.png"]);
    assert_eq!(collect_files(&found, false), vec!["/l/a/z.jpg", "/l/b.png", "/l/n.txt"]);
}

#[test]
fn an_image_is_analysed_once() {
    let image = DynamicImage::ImageRgb8(RgbImage::from_pixel(20, 10, Rgb([200, 30, 40])));
    let analysis = analyse_image(&image, false).unwrap();
    assert_eq!((analysis.width, analysis.height), (20, 10));
    assert_eq!(unpack(analysis.dom_color), (200, 30, 40));
    assert_eq!(analysis.phash, 0, "nothing darkens");
    let thumb = analysis.thumb.unwrap().unwrap();
    assert_eq!(&thumb[..2], &[0xff, 0xd8], "a JPEG file");
    assert!(analyse_image(&image, true).unwrap().thumb.is_none(), "it is there already");
}

#[test]
fn what_cannot_be_decoded_is_tried_again_in_vain() {
    let mut f = fixture();
    f.image("a.png", 24, 24, 1);
    f.write("broken.png", b"no picture".to_vec());
    let first = f.index();
    assert!(first.errors.is_empty());
    assert_eq!((first.updated, first.phashed, first.thumbs), (2, 1, 1));
    let rows = f.catalog.all_present(Visibility::All);
    let second = f.index();
    assert_eq!((second.scanned, second.unchanged, second.updated), (2, 2, 0));
    assert_eq!((second.hashed, second.phashed, second.thumbs), (0, 0, 0));
    assert!(second.errors.is_empty());
    assert_eq!(f.catalog.all_present(Visibility::All), rows);
    assert_eq!(f.catalog.rows_needing_analysis().len(), 1, "it may be whole some day");
}

#[test]
fn summary_leaves_out_what_did_not_happen() {
    let out = IndexOutcome { scanned: 2, unchanged: 2, ..IndexOutcome::default() };
    assert_eq!(out.summary(), "2 file(s): 0 updated, 2 unchanged");
    let out = IndexOutcome {
        scanned: 1,
        updated: 1,
        hashed: 1,
        phashed: 1,
        thumbs: 1,
        missing: 1,
        errors: vec!["x".into()],
        ..IndexOutcome::default()
    };
    assert_eq!(
        out.summary(),
        "1 file(s): 1 updated, 0 unchanged, 1 hashed, 1 analysed, 1 thumbnails, 1 missing, 1 error(s)"
    );
}

#[test]
fn an_index_run_goes_through_its_stages() {
    let mut cat = Catalog::new();
    let mut cfg = IndexConfig::new("/l".to_string());
    cfg.compute_phash = false;
    let mut run = IndexRun::new(cfg);
    let found = vec!["/l/b.jpg".to_string(), "/l/x.txt".to_string(), "/l/a.jpg".to_string()];
    assert!(matches!(
        index_library(&mut cat, &mut run, StepResult::Found(found)),
        IndexStep::Stat
    ));
    assert_eq!(run.files, vec!["/l/a.jpg", "/l/b.jpg"]);
    let stats = vec![Some((5, 1)); 2];
    assert!(matches!(
        index_library(&mut cat, &mut run, StepResult::Stats(stats)),
        IndexStep::Examine
    ));
    assert_eq!(run.looks, vec![Look::Examine { size: 5, mtime: 1 }; 2]);
    let metas = run.files.iter().map(|p| Some(FileMeta::read_with(p, None, None))).collect();
    let IndexStep::Hash(work) = index_library(&mut cat, &mut run, StepResult::Examined(metas))
    else {
        panic!("two files share a size");
    };
    assert_eq!(work, vec![(1, "/l/a.jpg".to_string()), (2, "/l/b.jpg".to_string())]);
    let hashes = work
        .into_iter()
        .map(|(id, path)| HashResult { id, path, hash: Ok("h".to_string()) })
        .collect();
    assert!(
        matches!(
            index_library(&mut cat, &mut run, StepResult::Hashed(hashes)),
            IndexStep::Finished
        ),
        "images are not to be analysed"
    );
    assert_eq!((run.out.scanned, run.out.updated, run.out.hashed), (2, 2, 2));
    assert_eq!((run.out.stats.files, run.out.stats.hashed, run.out.stats.bytes), (2, 2, 10));
}

#[test]
fn only_files_that_changed_are_examined() {
    let mut cat = Catalog::new();
    let files = vec!["/l/a.jpg".to_string(), "/elsewhere/b.jpg".to_string()];
    let events: Vec<ScanEvent> = files
        .iter()
        .map(|p| ScanEvent::Examined {
            size: 7,
            mtime: 3,
            meta: FileMeta::read_with(p, None, None),
        })
        .collect();
    scan_phase(&mut cat, &files, &events);

    let mut run = IndexRun::new(IndexConfig::new("/l".to_string()));
    run.files = vec!["/l/a.jpg".to_string(); 4];
    run.files.push("/elsewhere/b.jpg".to_string());
    run.files.push("/l/new.jpg".to_string());
    let stats = [Some((7, 3)), Some((8, 3)), Some((7, 4)), None, Some((7, 3)), Some((7, 3))];
    assert_eq!(
        files_to_examine(&cat, &run, &stats),
        vec![
            Look::Current { id: 1 },
            Look::Examine { size: 8, mtime: 3 },
            Look::Examine { size: 7, mtime: 4 },
            Look::NoStat,
            Look::Examine { size: 7, mtime: 3 },
            Look::Examine { size: 7, mtime: 3 },
        ]
    );
    cat.mark_meta_stale_for_tests();
    run.files.truncate(1);
    let stale = files_to_examine(&cat, &run, &stats[..1]);
    assert_eq!(stale, vec![Look::Examine { size: 7, mtime: 3 }]);
}

#[test]
fn scans_follow_from_what_was_to_be_done() {
    let meta = FileMeta::read_with("/l/a.jpg", None, None);
    let looks = [Look::NoStat, Look::Current { id: 4 }, Look::Examine { size: 1, mtime: 2 }];
    let events = to_events(&looks, vec![None, None, Some(meta)]);
    assert!(matches!(events[0], ScanEvent::NoStat));
    assert!(matches!(events[1], ScanEvent::Current { id: 4 }));
    let ScanEvent::Examined { size, mtime, meta } = &events[2] else {
        panic!("the last one was examined");
    };
    assert_eq!((*size, *mtime, meta.ext.as_str()), (1, 2, "jpg"));
}

#[test]
fn indexing_again_does_no_work_and_changes_nothing() {
    for analyse in [true, false] {
        let mut f = fixture();
        let a = f.image("a.png", 24, 24, 1);
        f.image("sub/b.png", 24, 24, 2);
        let bytes = f.bytes(&a);
        f.write("copy.png", bytes);
        let mut cfg = f.cfg();
        cfg.compute_phash = analyse;
        let first = f.index_with(&cfg);
        assert!(first.hashed >= 2 && first.updated == 3);
        let rows = f.catalog.all_present(Visibility::All);
        let second = f.index_with(&cfg);
        assert_eq!((second.scanned, second.unchanged, second.updated), (3, 3, 0));
        assert_eq!((second.hashed, second.phashed, second.thumbs, second.missing), (0, 0, 0, 0));
        assert_eq!(f.catalog.all_present(Visibility::All), rows);
    }
}

#[test]
fn samples_that_are_no_numbers_yield_no_analysis() {
    let float = |v: f32| DynamicImage::ImageRgb32F(Rgb32FImage::from_pixel(20, 10, Rgb([v; 3])));
    let a = analyse_image(&float(0.5), false).unwrap();
    assert_eq!((a.width, a.height), (20, 10));
    assert!(a.thumb.unwrap().is_ok());
    assert_eq!(unpack(a.dom_color), (128, 128, 128));
    let bright = analyse_image(&float(2f32.powi(125)), false).unwrap();
    assert_eq!(unpack(bright.dom_color), (255, 255, 255));
    assert!(bright.thumb.unwrap().is_ok());
    for odd in [f32::NAN, f32::INFINITY, f32::NEG_INFINITY, f32::MAX] {
        assert!(analyse_image(&float(odd), false).is_none(), "{odd}");
    }
}
