//! File metadata and EXIF.

use exif::experimental::Writer;
use exif::{Field, In, Rational, Tag, Value};
use renamer::metadata::{
    geotag, is_image_ext, needs_exif, read_exif, south_or_west, Degrees, DateStamp, ExifFindings,
    FileMeta, FileStat, NaiveStamp,
};

#[test]
fn image_extensions_cover_raw_and_heic() {
    // GPS lives in EXIF, which RAW and HEIC both carry, so they must stay in
    // the "worth reading metadata from" list even though they cannot be
    // decoded for thumbnails.
    for ext in ["jpg", "JPEG", "heic", "cr2", "nef", "dng", "arw"] {
        assert!(is_image_ext(ext), "{ext}");
    }
    assert!(!is_image_ext("txt"));
    assert!(!is_image_ext(""));
}

#[test]
fn geotag_defaults_to_absent() {
    let m = FileMeta::default();
    assert!(m.lat.is_none() && m.lon.is_none());
}

fn degrees(value: f64) -> Option<Degrees> {
    Some(Degrees { bits: value.to_bits() })
}

#[test]
fn geotags_are_kept_as_plausible_pairs() {
    assert!(geotag(degrees(51.5), degrees(-0.1)).is_some());
    assert!(geotag(degrees(-90.0), degrees(180.0)).is_some());
    assert!(geotag(degrees(51.5), None).is_none());
    assert!(geotag(None, degrees(1.0)).is_none());
    assert!(geotag(degrees(90.1), degrees(1.0)).is_none());
    assert!(geotag(degrees(1.0), degrees(-180.5)).is_none());
    assert!(geotag(degrees(0.0), degrees(-0.0)).is_none());
    assert!(geotag(degrees(0.0), degrees(5.0)).is_some());
    assert!(geotag(degrees(f64::NAN), degrees(5.0)).is_none());
    assert!(geotag(degrees(5.0), degrees(f64::INFINITY)).is_none());
}

fn ascii(tag: Tag, text: &str) -> Field {
    Field { tag, ifd_num: In::PRIMARY, value: Value::Ascii(vec![text.as_bytes().to_vec()]) }
}

fn position(tag: Tag, d: u32, m: u32, s: u32) -> Field {
    let value = Value::Rational(vec![
        Rational { num: d, denom: 1 },
        Rational { num: m, denom: 1 },
        Rational { num: s, denom: 100 },
    ]);
    Field { tag, ifd_num: In::PRIMARY, value }
}

fn tiff(fields: &[Field]) -> Vec<u8> {
    let mut writer = Writer::new();
    for f in fields {
        writer.push_field(f);
    }
    let mut out = std::io::Cursor::new(Vec::new());
    writer.write(&mut out, false).unwrap();
    out.into_inner()
}

#[test]
fn exif_is_read_from_a_file() {
    let fields = [
        ascii(Tag::Make, "Canon"),
        ascii(Tag::Model, "EOS R5"),
        ascii(Tag::DateTime, "2021:01:01 00:00:00"),
        ascii(Tag::DateTimeOriginal, "2020:09:13 12:26:40"),
        ascii(Tag::LensModel, "RF 50mm"),
        Field {
            tag: Tag::PhotographicSensitivity,
            ifd_num: In::PRIMARY,
            value: Value::Short(vec![400]),
        },
        Field { tag: Tag::PixelXDimension, ifd_num: In::PRIMARY, value: Value::Long(vec![6000]) },
        Field { tag: Tag::PixelYDimension, ifd_num: In::PRIMARY, value: Value::Long(vec![4000]) },
        position(Tag::GPSLatitude, 33, 52, 768),
        ascii(Tag::GPSLatitudeRef, "S"),
        position(Tag::GPSLongitude, 151, 12, 3348),
        ascii(Tag::GPSLongitudeRef, "E"),
    ];
    let r = read_exif(&tiff(&fields)).unwrap();
    assert_eq!(r.camera_make.as_deref(), Some("Canon"));
    assert_eq!(r.camera_model.as_deref(), Some("EOS R5"));
    assert_eq!(r.lens.as_deref(), Some("RF 50mm"));
    assert_eq!(r.iso.as_deref(), Some("400"));
    assert_eq!(r.width.as_deref(), Some("6000"));
    assert_eq!(r.height.as_deref(), Some("4000"));
    // The shutter time is preferred, and read on the camera's clock.
    assert_eq!(r.taken, Some(NaiveStamp { secs: 1_600_000_000, nanos: 0 }));
    let lat = r.lat.unwrap();
    assert_eq!(lat.degrees, (33, 1));
    assert_eq!(lat.minutes, (52, 1));
    assert_eq!(lat.seconds, (768, 100));
    assert!(lat.negative, "south");
    assert!(!r.lon.unwrap().negative, "east");
}

#[test]
fn the_plain_date_is_a_fallback() {
    let r = read_exif(&tiff(&[ascii(Tag::DateTime, " 2021:01:01 00:00:01 ")])).unwrap();
    assert_eq!(r.taken, Some(NaiveStamp { secs: 1_609_459_201, nanos: 0 }));
    let r = read_exif(&tiff(&[ascii(Tag::DateTime, "yesterday")])).unwrap();
    assert!(r.taken.is_none());
    assert!(r.lat.is_none() && r.camera_make.is_none());
}

#[test]
fn what_is_no_image_holds_no_exif() {
    assert!(read_exif(b"not a photo").is_none());
    assert!(read_exif(&[]).is_none());
}

#[test]
fn metadata_comes_from_the_path_the_disk_and_exif() {
    let stat = FileStat {
        size: 42,
        created: None,
        modified: Some(DateStamp { secs: 5, nanos: 0, offset: 0 }),
        accessed: None,
    };
    let m = FileMeta::read_with("/lib/2019/IMG_1.JPG", Some(stat), None);
    assert_eq!((m.name.as_str(), m.ext.as_str(), m.parent.as_str()), ("IMG_1", "JPG", "2019"));
    assert_eq!(m.size, 42);
    assert_eq!(m.date_modified.unwrap().secs, 5);
    assert!(m.date_taken.is_none());

    let reading = read_exif(&tiff(&[ascii(Tag::Model, "Pixel 8")])).unwrap();
    let exif = ExifFindings {
        reading,
        lat: degrees(10.0),
        lon: degrees(20.0),
        taken: Some(DateStamp { secs: 7, nanos: 0, offset: 3600 }),
    };
    let m = FileMeta::read_with("/lib/IMG_1.JPG", None, Some(exif));
    assert_eq!(m.camera_model.as_deref(), Some("Pixel 8"));
    assert_eq!(m.date_taken.unwrap().secs, 7);
    assert_eq!((m.lat, m.lon), (degrees(10.0), degrees(20.0)));
}

#[test]
fn fields_resolve_by_name() {
    let mut m = FileMeta::default();
    m.parent = "2019".into();
    m.size = 7;
    assert_eq!(m.field("folder", None).as_deref(), Some("2019"));
    assert_eq!(m.field("parent", None).as_deref(), Some("2019"));
    assert_eq!(m.field("size", None).as_deref(), Some("7"));
    assert_eq!(m.field("lens", None), None);
    assert_eq!(m.field("nonsense", None), None);
    m.date_created = Some(DateStamp { secs: 0, nanos: 0, offset: 0 });
    assert_eq!(m.field("date_created", None).as_deref(), Some("1970-01-01"));
    assert_eq!(m.field("date_created", Some("%Y")).as_deref(), Some("1970"));
    assert!(m.try_field("date_created", Some("%Q")).is_none());
}

#[test]
fn only_some_fields_need_the_file_contents() {
    assert!(needs_exif(&["name".into(), "camera_model".into()]));
    assert!(needs_exif(&["date_taken".into()]));
    assert!(!needs_exif(&["name".into(), "date_modified".into(), "n".into()]));
    assert!(FileMeta::wants_exif("/a/b.jpg", true));
    assert!(!FileMeta::wants_exif("/a/b.jpg", false));
    assert!(!FileMeta::wants_exif("/a/b.txt", true));
}

#[test]
fn hemispheres_go_by_their_first_letter() {
    assert!(south_or_west("S") && south_or_west("WEST"));
    assert!(!south_or_west("N") && !south_or_west("E") && !south_or_west(""));
    assert!(!south_or_west("s"), "in uppercase only");
}
