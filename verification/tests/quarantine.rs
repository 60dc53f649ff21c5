//! Setting duplicates aside, and putting them back.

use renamer::catalog::{Catalog, MediaRow, Visibility};
use renamer::pathname::join;
use renamer::quarantine::{
    batch_folder, next_place, quarantine, record_moved, restore_batch, short_copy, tidy_order,
    QuarantineEvent, QuarantineOutcome, RestoreEvent,
};

/// A library in memory.
struct Fixture {
    disk: Vec<(String, Vec<u8>)>,
    catalog: Catalog,
}

fn fixture() -> Fixture {
    Fixture { disk: Vec::new(), catalog: Catalog::new() }
}

impl Fixture {
    fn write(&mut self, name: &str, content: &[u8]) -> String {
        let path = format!("/library/{name}");
        self.put(&path, content);
        self.catalog
            .upsert_media(&MediaRow {
                path: path.clone(),
                file_name: name.to_string(),
                size: content.len() as u64,
                mtime: 1,
                ..MediaRow::default()
            })
            .unwrap();
        path
    }

    fn put(&mut self, path: &str, content: &[u8]) {
        self.disk.push((path.to_string(), content.to_vec()));
    }

    fn holds(&self, path: &str) -> bool {
        self.disk.iter().any(|(p, _)| p == path)
    }

    fn read(&self, path: &str) -> Vec<u8> {
        self.disk.iter().find(|(p, _)| p == path).unwrap().1.clone()
    }

    fn rename(&mut self, from: &str, to: &str) -> bool {
        match self.disk.iter_mut().find(|(p, _)| p == from) {
            Some(f) => {
                f.0 = to.to_string();
                true
            }
            None => false,
        }
    }

    fn reserve(&self, root: &str, src: &str) -> String {
        let mut taken = 0;
        loop {
            let dest = next_place(root, src, taken);
            if !self.holds(&dest) {
                return dest;
            }
            taken += 1;
        }
    }

    fn quarantine(&mut self, paths: &[String]) -> QuarantineOutcome {
        let batch = self.catalog.next_quarantine_batch();
        let root = batch_folder("/data/quarantine", batch);
        let mut events = Vec::new();
        for src in paths {
            let size = if self.holds(src) { self.read(src).len() as u64 } else { 0 };
            let dest = self.reserve(&root, src);
            events.push(if !self.rename(src, &dest) {
                QuarantineEvent::NotMoved("No such file or directory".into())
            } else {
                match record_moved(&mut self.catalog, batch, src, &dest) {
                    Ok(()) => QuarantineEvent::Moved { dest, size },
                    Err(e) => QuarantineEvent::NotRecorded(e.message().to_string()),
                }
            });
        }
        quarantine(paths, &events, batch)
    }

    fn restore(&mut self, batch: i64) -> (usize, Vec<String>) {
        let entries = self.catalog.quarantine_batch(batch);
        let mut events = Vec::new();
        for e in &entries {
            events.push(if self.holds(&e.original_path) {
                RestoreEvent::Occupied
            } else if self.rename(&e.quarantine_path, &e.original_path) {
                RestoreEvent::Restored
            } else {
                RestoreEvent::NotMoved("No such file or directory".into())
            });
        }
        restore_batch(&mut self.catalog, &entries, &events)
    }
}

#[test]
fn quarantine_moves_files_out_and_restore_puts_them_back() {
    let mut f = fixture();
    let keep = f.write("keep.jpg", b"original");
    let dup = f.write("copies/dup.jpg", b"original");

    let out = f.quarantine(&[dup.clone()]);
    assert!(out.errors.is_empty(), "errors: {:?}", out.errors);
    assert_eq!(out.moved, 1);
    assert_eq!(out.bytes, 8);
    let batch = out.batch.unwrap();

    // Gone from the library, still on disk in quarantine, keeper untouched.
    assert!(!f.holds(&dup), "duplicate left the library");
    assert!(f.holds(&keep), "keeper must never be touched");
    assert_eq!(f.disk.len(), 2, "file is preserved, not deleted");
    // And dropped from the catalog, since it is no longer in the library.
    assert_eq!(f.catalog.all_present(Visibility::All).len(), 1);

    let (restored, errors) = f.restore(batch);
    assert_eq!(restored, 1);
    assert!(errors.is_empty(), "errors: {errors:?}");
    assert!(f.holds(&dup), "file came back to its original path");
    assert_eq!(f.read(&dup), b"original");
    // Ledger is settled, so a second undo is a no-op.
    assert!(f.catalog.quarantine_batch(batch).is_empty());
}

#[test]
fn quarantine_mirrors_the_original_tree_under_a_batch_folder() {
    let mut f = fixture();
    let dup = f.write("2019/holiday/IMG_1.jpg", b"x");

    let out = f.quarantine(&[dup]);
    assert_eq!(out.moved, 1);

    let entries = f.catalog.quarantine_batch(out.batch.unwrap());
    let text = &entries[0].quarantine_path;
    assert!(text.contains("batch-0001"), "batch folder in {text}");
    assert!(text.ends_with("2019/holiday/IMG_1.jpg"), "original tree mirrored: {text}");
    assert!(f.holds(text));
}

#[test]
fn restore_refuses_to_overwrite_a_reoccupied_path() {
    let mut f = fixture();
    let dup = f.write("dup.jpg", b"quarantined");

    let out = f.quarantine(&[dup.clone()]);
    let batch = out.batch.unwrap();

    // Something new appears at the original path before the undo.
    f.put(&dup, b"newer file");

    let (restored, errors) = f.restore(batch);
    assert_eq!(restored, 0);
    assert_eq!(errors.len(), 1);
    // The newer file survives untouched...
    assert_eq!(f.read(&dup), b"newer file");
    // ...and the quarantined copy is still recoverable by hand.
    let entries = f.catalog.quarantine_batch(batch);
    assert_eq!(entries.len(), 1);
    assert!(f.holds(&entries[0].quarantine_path));
}

#[test]
fn colliding_names_from_different_folders_do_not_clobber() {
    let mut f = fixture();
    // Same basename in two directories. The mirrored tree is what keeps them
    // apart; this pins that behaviour so a future flattening of the layout
    // cannot silently overwrite one with the other.
    let a = f.write("a/IMG.jpg", b"first");
    let b = f.write("b/IMG.jpg", b"second");

    let out = f.quarantine(&[a, b]);
    assert_eq!(out.moved, 2, "errors: {:?}", out.errors);

    let entries = f.catalog.quarantine_batch(out.batch.unwrap());
    assert_eq!(entries.len(), 2);
    let mut contents: Vec<Vec<u8>> =
        entries.iter().map(|e| f.read(&e.quarantine_path)).collect();
    contents.sort();
    // Both survived distinctly: nothing was overwritten.
    assert_eq!(contents, vec![b"first".to_vec(), b"second".to_vec()]);
}

#[test]
fn reserve_dest_uniquifies_an_existing_target() {
    let mut f = fixture();
    let first = f.reserve("/qroot", "/library/x.jpg");
    f.put(&first, b"a");
    let second = f.reserve("/qroot", "/library/x.jpg");
    assert_ne!(first, second);
    assert!(second.rsplit('/').next().unwrap().starts_with("x-2"));
}

#[test]
fn missing_source_is_reported_not_panicked() {
    let mut f = fixture();
    let out = f.quarantine(&["/library/not-there.jpg".to_string()]);
    assert_eq!(out.moved, 0);
    assert_eq!(out.errors.len(), 1);
    assert!(out.batch.is_none());
}

#[test]
fn empty_selection_is_a_no_op() {
    let mut f = fixture();
    let out = f.quarantine(&[]);
    assert_eq!(out.moved, 0);
    assert!(out.errors.is_empty());
    assert!(out.batch.is_none());
    // No batch number was consumed.
    assert_eq!(f.catalog.next_quarantine_batch(), 1);
}

#[test]
fn separate_batches_are_independently_restorable() {
    let mut f = fixture();
    let a = f.write("a.jpg", b"1");
    let b = f.write("b.jpg", b"2");

    let first = f.quarantine(&[a.clone()]);
    let second = f.quarantine(&[b.clone()]);
    assert_ne!(first.batch, second.batch);
    assert_eq!(f.catalog.latest_restorable_batch(), second.batch);

    // Undo only the most recent batch.
    f.restore(second.batch.unwrap());
    assert!(f.holds(&b));
    assert!(!f.holds(&a), "the earlier batch stays quarantined");
    assert_eq!(f.catalog.latest_restorable_batch(), first.batch);
}

#[test]
fn places_and_messages() {
    assert_eq!(batch_folder("/q", 7), "/q/batch-0007");
    assert_eq!(batch_folder("/q", 12345), "/q/batch-12345");
    assert_eq!(next_place("/q", "/lib/a.tar.gz", 0), "/q/lib/a.tar.gz");
    assert_eq!(next_place("/q", "/lib/a.tar.gz", 1), "/q/lib/a.tar-2.gz");
    assert_eq!(next_place("/q", "/lib/README", 2), "/q/lib/README-3");
    // What has no name goes by the folder's.
    assert_eq!(next_place("/q/batch-0001", "/", 0), "/q/batch-0001/");
    assert_eq!(next_place("/q/batch-0001", "/", 1), "/q/batch-0001-2");
    assert_eq!(next_place("/q/batch-0001", "", 2), "/q/batch-0001-3");
    assert_eq!(next_place("/q/v1.2", "..", 1), "/q/v1-2.2");
    assert_eq!(next_place("/", "/", 1), "/file-2");
    assert_eq!(join("/q", "a"), "/q/a");
    assert_eq!(short_copy(3, 3), None);
    assert_eq!(short_copy(2, 3).as_deref(), Some("short copy: 2 of 3 bytes"));
}

#[test]
fn every_event_is_summed_up() {
    let paths: Vec<String> =
        ["/a", "/b", "/c", "/d"].iter().map(|p| p.to_string()).collect();
    let events = [
        QuarantineEvent::Moved { dest: "/q/a".into(), size: 5 },
        QuarantineEvent::NoPlace("denied".into()),
        QuarantineEvent::NotMoved("busy".into()),
        QuarantineEvent::NotRecorded("full".into()),
    ];
    let out = quarantine(&paths, &events, 4);
    assert_eq!((out.batch, out.moved, out.bytes), (Some(4), 1, 5));
    assert_eq!(
        out.errors,
        vec!["/b: denied", "/c: busy", "/d: ledger write failed: full"]
    );
}

#[test]
fn empty_folders_are_tidied_deepest_first() {
    let dirs: Vec<String> =
        ["/q/a", "/q/a/b", "/q/a/b", "/q"].iter().map(|d| d.to_string()).collect();
    assert_eq!(tidy_order(&dirs), vec!["/q/a/b", "/q/a", "/q"]);
}
