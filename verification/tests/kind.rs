//! Classification of images.

use renamer::catalog::MediaRow;
use renamer::kind::{classify, effective, MediaKind};

fn row(name: &str) -> MediaRow {
    MediaRow {
        path: format!("/lib/{name}"),
        file_name: name.to_string(),
        ..MediaRow::default()
    }
}

fn camera(name: &str) -> MediaRow {
    MediaRow {
        camera_make: Some("Canon".into()),
        camera_model: Some("R5".into()),
        date_taken: Some(1_600_000_000),
        ..row(name)
    }
}

fn sized(name: &str, w: u32, h: u32) -> MediaRow {
    MediaRow {
        width: Some(w),
        height: Some(h),
        ..row(name)
    }
}

#[test]
fn camera_metadata_means_photograph() {
    assert_eq!(classify(&camera("IMG_1234.jpg")), MediaKind::Photo);

    // Any single camera signal is enough — plenty of files carry only one.
    let only_date = MediaRow {
        date_taken: Some(1),
        ..row("a.jpg")
    };
    assert_eq!(classify(&only_date), MediaKind::Photo);

    let only_iso = MediaRow {
        iso: Some("400".into()),
        ..row("b.jpg")
    };
    assert_eq!(classify(&only_iso), MediaKind::Photo);
}

#[test]
fn filename_identifies_screenshots() {
    for name in [
        "Screenshot 2024-01-01 at 10.00.00.png",
        "Screen Shot 2019-05-05.png",
        "screen_shot_1.png",
        "screencapture-site.png",
        "SCREENSHOT.PNG",
    ] {
        assert_eq!(classify(&row(name)), MediaKind::Screenshot, "{name}");
    }
}

#[test]
fn filename_beats_camera_metadata_for_screenshots() {
    // A screenshot of a photo can inherit EXIF-looking fields; the explicit
    // filename is the more trustworthy signal.
    let mut r = camera("Screenshot of holiday.png");
    r.width = Some(400);
    r.height = Some(300);
    assert_eq!(classify(&r), MediaKind::Screenshot);
}

#[test]
fn screen_dimensions_suggest_a_screenshot_when_nothing_else_does() {
    assert_eq!(classify(&sized("a.png", 1920, 1080)), MediaKind::Screenshot);
    assert_eq!(classify(&sized("b.png", 2560, 1440)), MediaKind::Screenshot);
    // Portrait phone capture: the same entry, transposed.
    assert_eq!(classify(&sized("c.png", 1170, 2532)), MediaKind::Screenshot);
    assert_eq!(classify(&sized("d.png", 2532, 1170)), MediaKind::Screenshot);
}

#[test]
fn a_real_photo_at_screen_dimensions_is_still_a_photo() {
    // Dimensions are the weakest signal and must not override camera data —
    // plenty of real photos are exported at 1920x1080.
    let mut r = camera("IMG_9.jpg");
    r.width = Some(1920);
    r.height = Some(1080);
    assert_eq!(classify(&r), MediaKind::Photo);
}

#[test]
fn anything_else_is_a_saved_image() {
    assert_eq!(classify(&row("inspo-01.jpg")), MediaKind::Saved);
    assert_eq!(classify(&sized("moodboard.png", 733, 1100)), MediaKind::Saved);
    assert_eq!(classify(&row("tumblr_abc123.png")), MediaKind::Saved);
}

#[test]
fn user_override_wins_over_the_guess() {
    let mut r = camera("IMG_1.jpg");
    assert_eq!(effective(&r), MediaKind::Photo);

    r.kind_override = Some(MediaKind::Saved);
    assert_eq!(effective(&r), MediaKind::Saved);
    // The underlying guess is unchanged; only the effective value moves.
    assert_eq!(classify(&r), MediaKind::Photo);
}

#[test]
fn stored_form_roundtrips() {
    for k in MediaKind::ALL {
        assert_eq!(MediaKind::parse(k.as_str()), Some(k));
    }
    assert_eq!(MediaKind::parse("nonsense"), None);
    assert_eq!(MediaKind::parse(""), None);
}
