//! Slideshow sequencing.

use renamer::catalog::MediaRow;
use renamer::slideshow::{build_order, SlideOrder, Slideshow, MAX_INTERVAL, MIN_INTERVAL};

fn row(path: &str, taken: Option<i64>, rating: u8) -> MediaRow {
    MediaRow {
        path: path.to_string(),
        file_name: path.rsplit('/').next().unwrap_or(path).to_string(),
        mtime: 500,
        date_taken: taken,
        rating,
        ..MediaRow::default()
    }
}

fn rows() -> Vec<MediaRow> {
    vec![
        row("/l/c.jpg", Some(300), 1),
        row("/l/a.jpg", Some(100), 5),
        row("/l/b.jpg", Some(200), 3),
    ]
}

fn named(rows: &[MediaRow], order: &[usize]) -> Vec<String> {
    order.iter().map(|&i| rows[i].file_name.clone()).collect()
}

#[test]
fn as_listed_preserves_the_callers_order() {
    let rows = rows();
    let visible = vec![2, 0, 1];
    let order = build_order(&rows, &visible, SlideOrder::AsListed, 1);
    assert_eq!(named(&rows, &order), vec!["b.jpg", "c.jpg", "a.jpg"]);
}

#[test]
fn date_order_is_chronological() {
    let rows = rows();
    let order = build_order(&rows, &[0, 1, 2], SlideOrder::Date, 1);
    assert_eq!(named(&rows, &order), vec!["a.jpg", "b.jpg", "c.jpg"]);
}

#[test]
fn date_order_falls_back_to_mtime() {
    // Saved images have no capture time; they must still sequence sensibly
    // rather than all collapsing to the same key.
    let rows = vec![
        MediaRow {
            mtime: 900,
            ..row("/l/late.jpg", None, 0)
        },
        MediaRow {
            mtime: 100,
            ..row("/l/early.jpg", None, 0)
        },
    ];
    let order = build_order(&rows, &[0, 1], SlideOrder::Date, 1);
    assert_eq!(named(&rows, &order), vec!["early.jpg", "late.jpg"]);
}

#[test]
fn rating_order_is_best_first() {
    let rows = rows();
    let order = build_order(&rows, &[0, 1, 2], SlideOrder::Rating, 1);
    assert_eq!(named(&rows, &order), vec!["a.jpg", "b.jpg", "c.jpg"]);
}

#[test]
fn shuffle_is_a_permutation() {
    let rows = rows();
    let visible: Vec<usize> = (0..3).collect();
    for seed in [1u64, 2, 42, 9999, 0] {
        let mut got = build_order(&rows, &visible, SlideOrder::Shuffle, seed);
        assert_eq!(got.len(), 3, "seed {seed} lost or duplicated entries");
        got.sort_unstable();
        assert_eq!(got, visible, "seed {seed} is not a permutation");
    }
}

#[test]
fn shuffle_is_reproducible_and_seed_dependent() {
    let rows: Vec<MediaRow> = (0..40)
        .map(|i| row(&format!("/l/{i:02}.jpg"), Some(i), 0))
        .collect();
    let visible: Vec<usize> = (0..40).collect();

    let a = build_order(&rows, &visible, SlideOrder::Shuffle, 7);
    let b = build_order(&rows, &visible, SlideOrder::Shuffle, 7);
    assert_eq!(a, b, "same seed must give the same order");

    let c = build_order(&rows, &visible, SlideOrder::Shuffle, 8);
    assert_ne!(a, c, "different seeds should differ");
    // And it must actually shuffle rather than returning the input.
    assert_ne!(a, visible);
}

#[test]
fn shuffle_handles_degenerate_lengths() {
    let rows = rows();
    assert!(build_order(&rows, &[], SlideOrder::Shuffle, 3).is_empty());
    assert_eq!(build_order(&rows, &[1], SlideOrder::Shuffle, 3), vec![1]);
}

#[test]
fn next_and_prev_wrap_around() {
    let mut show = Slideshow::new(vec![10, 11, 12]);
    assert_eq!(show.current(), Some(10));
    assert_eq!(show.len(), 3);

    show.next();
    assert_eq!(show.current(), Some(11));
    show.next();
    assert_eq!(show.current(), Some(12));
    // Wraps rather than stopping on a blank screen.
    show.next();
    assert_eq!(show.current(), Some(10));
    assert_eq!(show.pos(), 0);

    show.prev();
    assert_eq!(show.current(), Some(12), "backwards wraps too");
}

#[test]
fn an_empty_slideshow_is_inert() {
    let mut show = Slideshow::new(Vec::new());
    assert!(show.is_empty());
    assert_eq!(show.current(), None);
    // Must not panic or divide by zero.
    show.next();
    show.prev();
    assert_eq!(show.current(), None);
}

#[test]
fn resequencing_keeps_the_current_image_on_screen() {
    // Changing the order mid-show should not yank the picture away.
    let mut show = Slideshow::new(vec![10, 11, 12]);
    show.next();
    assert_eq!(show.current(), Some(11));

    show.resequence(vec![12, 11, 10]);
    assert_eq!(show.current(), Some(11), "still showing the same image");
    assert_eq!(show.pos(), 1);
}

#[test]
fn resequencing_without_the_current_image_starts_over() {
    let mut show = Slideshow::new(vec![10, 11, 12]);
    show.next();
    show.next();
    assert_eq!(show.current(), Some(12));

    // The filter tightened and 12 is gone.
    show.resequence(vec![10, 11]);
    assert_eq!(show.current(), Some(10));
    assert_eq!(show.pos(), 0);

    show.resequence(Vec::new());
    assert_eq!(show.current(), None);
}

#[test]
fn restart_returns_to_the_beginning() {
    let mut show = Slideshow::new(vec![10, 11, 12]);
    show.playing = true;
    show.next();
    show.restart();
    assert_eq!(show.pos(), 0);
    assert!(show.playing, "restart does not stop playback");
}

#[test]
fn defaults_are_sane() {
    let show = Slideshow::new(vec![1]);
    assert!(!show.playing, "starts paused");
    assert!(show.interval_millis >= MIN_INTERVAL);
    assert!(show.interval_millis <= MAX_INTERVAL);
}

#[test]
fn playback_goes_round() {
    let mut show = Slideshow::new(vec![4, 9, 2]);
    show.next();
    let mut seen = Vec::new();
    for _ in 0..3 {
        seen.push(show.current().unwrap());
        show.next();
    }
    assert_eq!(seen, vec![9, 2, 4], "every image once");
    assert_eq!(show.current(), Some(9), "and back where it was");
}
