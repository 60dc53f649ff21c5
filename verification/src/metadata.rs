//! What is known of a single file: its name and place, what the filesystem says
//! of it, and what its EXIF block says.
use std::fmt::Write;

use vstd::prelude::*;
use vstd::utf8::*;

use crate::pathname;
use crate::pathname::{extension_of_path, file_stem_of, parent_name_of};
use crate::text;
use crate::text::{
    chars_of, clone_opt, decimal_of, is_listed, str_eq, to_lower, to_upper, trim, trim_of,
    utf8_text,
};

verus! {

/// A moment as seen from a place: seconds since the epoch, nanoseconds, and the
/// place's offset from universal time in seconds east.
#[derive(Debug, Clone, Copy, PartialEq, Eq, Structural)]
pub struct DateStamp {
    pub secs: i64,
    pub nanos: u32,
    pub offset: i32,
}

/// A date and time on the clock of an unknown place, as seconds and nanoseconds
/// since that clock showed the epoch.
#[derive(Debug, Clone, Copy, PartialEq, Eq, Structural)]
pub struct NaiveStamp {
    pub secs: i64,
    pub nanos: u32,
}

/// An angle in decimal degrees, as the bits of a double-precision number.
#[derive(Debug, Clone, Copy, PartialEq, Eq, Structural)]
pub struct Degrees {
    pub bits: u64,
}

/// The bits of the largest latitude, 90 degrees.
pub const NINETY: u64 = 0x4056_8000_0000_0000;

/// The bits of the largest longitude, 180 degrees.
pub const ONE_EIGHTY: u64 = 0x4066_8000_0000_0000;

/// The bits of a double-precision number without its sign. Of two numbers these
/// order as their magnitudes do, and those of a value that is no number are
/// beyond those of every number.
pub open spec fn magnitude(d: Degrees) -> u64 {
    d.bits % 0x8000_0000_0000_0000
}

/// Whether a pair of angles can be a place where a photo was taken. A corrupt
/// tag must not put a photo in the middle of the ocean where both are zero.
pub open spec fn is_plausible(lat: Degrees, lon: Degrees) -> bool {
    &&& magnitude(lat) <= NINETY
    &&& magnitude(lon) <= ONE_EIGHTY
    &&& !(magnitude(lat) == 0 && magnitude(lon) == 0)
}

/// The pair that is kept of two coordinates: both or none, since one axis alone
/// cannot place a photo.
pub open spec fn geotag_of(lat: Option<Degrees>, lon: Option<Degrees>) -> Option<(Degrees, Degrees)> {
    match (lat, lon) {
        (Some(a), Some(b)) => if is_plausible(a, b) {
            Some((a, b))
        } else {
            None
        },
        _ => None,
    }
}

/// The pair that is kept of two coordinates.
pub fn geotag(lat: Option<Degrees>, lon: Option<Degrees>) -> (r: Option<(Degrees, Degrees)>)
    ensures
        r == geotag_of(lat, lon),
{
    match (lat, lon) {
        (Some(a), Some(b)) => {
            let x: u64 = a.bits % 0x8000_0000_0000_0000;
            let y: u64 = b.bits % 0x8000_0000_0000_0000;
            if x <= NINETY && y <= ONE_EIGHTY && !(x == 0 && y == 0) {
                Some((a, b))
            } else {
                None
            }
        },
        _ => None,
    }
}

/// A geotag is a whole pair or absent, and never a value that is no number.
pub proof fn geotags_are_plausible_pairs(lat: Option<Degrees>, lon: Option<Degrees>)
    ensures
        geotag_of(lat, lon) matches Some(p) ==> lat == Some(p.0) && lon == Some(p.1)
            && magnitude(p.0) <= NINETY && magnitude(p.1) <= ONE_EIGHTY,
        lat is None || lon is None ==> geotag_of(lat, lon) is None,
{
}

/// What chrono's `format` makes of a moment and a `strftime` format: nothing if
/// the format is not a valid one, or the moment is out of the calendar's range.
pub uninterp spec fn strftime(secs: i64, nanos: u32, offset: i32, fmt: Seq<char>) -> Option<
    Seq<char>,
>;

/// `chrono::DateTime::format` on the moment that `chrono::TimeZone::timestamp_opt`
/// gives for a `chrono::FixedOffset`: the moment's text, which is a function of
/// the moment, the offset and the format alone.
#[verifier::external_body]
pub(crate) fn format_date(secs: i64, nanos: u32, offset: i32, fmt: &str) -> (r: Option<String>)
    ensures
        text::opt_view(r) == strftime(secs, nanos, offset, fmt@),
{
    let zone = chrono::FixedOffset::east_opt(offset)?;
    let moment = chrono::TimeZone::timestamp_opt(&zone, secs, nanos).single()?;
    let mut out = String::new();
    write!(out, "{}", moment.format(fmt)).ok()?;
    Some(out)
}

/// Field names usable in templates.
pub const FIELDS: [&'static str; 15] = [
    "name",
    "ext",
    "parent",
    "folder",
    "size",
    "date_taken",
    "date_created",
    "date_modified",
    "date_accessed",
    "camera_make",
    "camera_model",
    "lens",
    "iso",
    "width",
    "height",
];

/// Template fields whose value comes from EXIF, so that a file's contents have
/// to be read for them.
pub const EXIF_FIELDS: [&'static str; 7] = [
    "date_taken",
    "camera_make",
    "camera_model",
    "lens",
    "iso",
    "width",
    "height",
];

/// Whether any of `fields` comes from EXIF.
pub fn needs_exif(fields: &[String]) -> (r: bool)
    ensures
        r == exists|i: int|
            0 <= i < fields@.len() && text::listed(EXIF_FIELDS@, (#[trigger] fields@[i])@),
{
    let list: [&'static str; 7] = EXIF_FIELDS;
    let mut i: usize = 0;
    while i < fields.len()
        invariant
            list@ == EXIF_FIELDS@,
            i <= fields@.len(),
            forall|j: int| 0 <= j < i ==> !text::listed(list@, (#[trigger] fields@[j])@),
        decreases fields@.len() - i,
    {
        if is_listed(list.as_slice(), fields[i].as_str()) {
            assert(text::listed(EXIF_FIELDS@, fields@[i as int]@));
            return true;
        }
        i += 1;
    }
    false
}

/// File extensions, in lowercase, worth attempting EXIF on.
pub const IMAGE_EXTS: [&'static str; 15] = [
    "jpg",
    "jpeg",
    "tif",
    "tiff",
    "heic",
    "heif",
    "png",
    "webp",
    "dng",
    "cr2",
    "nef",
    "arw",
    "raf",
    "rw2",
    "orf",
];

/// Whether an extension, already in lowercase, is worth attempting EXIF on.
pub fn is_image_ext_lowered(ext: &str) -> (r: bool)
    ensures
        r == text::listed(IMAGE_EXTS@, ext@),
{
    let list: [&'static str; 15] = IMAGE_EXTS;
    is_listed(list.as_slice(), ext)
}

/// Whether an extension is worth attempting EXIF on, whatever its case.
pub fn is_image_ext(ext: &str) -> (r: bool)
    ensures
        r == text::listed(IMAGE_EXTS@, text::lowercase(ext@)),
        text::is_ascii(ext@) ==> r == text::listed(IMAGE_EXTS@, text::ascii_lowercase(ext@)),
{
    let lowered: String = to_lower(ext);
    is_image_ext_lowered(lowered.as_str())
}

/// What is known of a single file. Dates are moments, so that templates can
/// apply any format to them; everything else is text ready to be used.
#[derive(Debug, Clone)]
pub struct FileMeta {
    /// File stem, without the extension.
    pub name: String,
    /// Extension without its dot.
    pub ext: String,
    /// Name of the directory the file is in.
    pub parent: String,
    pub size: u64,
    pub date_taken: Option<DateStamp>,
    pub date_created: Option<DateStamp>,
    pub date_modified: Option<DateStamp>,
    pub date_accessed: Option<DateStamp>,
    pub camera_make: Option<String>,
    pub camera_model: Option<String>,
    pub lens: Option<String>,
    pub iso: Option<String>,
    pub width: Option<String>,
    pub height: Option<String>,
    /// Decimal degrees, south and west negative. Both are set together or not
    /// at all.
    pub lat: Option<Degrees>,
    pub lon: Option<Degrees>,
}

/// File metadata as mathematical values.
#[verifier::ext_equal]
pub struct Meta {
    pub name: Seq<char>,
    pub ext: Seq<char>,
    pub parent: Seq<char>,
    pub size: u64,
    pub date_taken: Option<DateStamp>,
    pub date_created: Option<DateStamp>,
    pub date_modified: Option<DateStamp>,
    pub date_accessed: Option<DateStamp>,
    pub camera_make: Option<Seq<char>>,
    pub camera_model: Option<Seq<char>>,
    pub lens: Option<Seq<char>>,
    pub iso: Option<Seq<char>>,
    pub width: Option<Seq<char>>,
    pub height: Option<Seq<char>>,
    pub lat: Option<Degrees>,
    pub lon: Option<Degrees>,
}

impl View for FileMeta {
    type V = Meta;

    open spec fn view(&self) -> Meta {
        Meta {
            name: self.name@,
            ext: self.ext@,
            parent: self.parent@,
            size: self.size,
            date_taken: self.date_taken,
            date_created: self.date_created,
            date_modified: self.date_modified,
            date_accessed: self.date_accessed,
            camera_make: text::opt_view(self.camera_make),
            camera_model: text::opt_view(self.camera_model),
            lens: text::opt_view(self.lens),
            iso: text::opt_view(self.iso),
            width: text::opt_view(self.width),
            height: text::opt_view(self.height),
            lat: self.lat,
            lon: self.lon,
        }
    }
}

/// A file of which nothing is known.
pub open spec fn blank_meta() -> Meta {
    Meta {
        name: Seq::empty(),
        ext: Seq::empty(),
        parent: Seq::empty(),
        size: 0,
        date_taken: None,
        date_created: None,
        date_modified: None,
        date_accessed: None,
        camera_make: None,
        camera_model: None,
        lens: None,
        iso: None,
        width: None,
        height: None,
        lat: None,
        lon: None,
    }
}

impl Default for FileMeta {
    fn default() -> (r: Self)
        ensures
            r@ == blank_meta(),
    {
        FileMeta {
            name: String::new(),
            ext: String::new(),
            parent: String::new(),
            size: 0,
            date_taken: None,
            date_created: None,
            date_modified: None,
            date_accessed: None,
            camera_make: None,
            camera_model: None,
            lens: None,
            iso: None,
            width: None,
            height: None,
            lat: None,
            lon: None,
        }
    }
}

/// The format a date is written in when a template gives none.
pub open spec fn date_format(fmt: Option<Seq<char>>) -> Seq<char> {
    match fmt {
        Some(f) => f,
        None => "%Y-%m-%d"@,
    }
}

/// The date that a date field of the given name stands for.
pub open spec fn date_field(m: Meta, name: Seq<char>) -> Option<DateStamp> {
    if name == "date_taken"@ {
        m.date_taken
    } else if name == "date_created"@ {
        m.date_created
    } else if name == "date_modified"@ {
        m.date_modified
    } else if name == "date_accessed"@ {
        m.date_accessed
    } else {
        None
    }
}

/// The text that a field other than a date stands for.
pub open spec fn text_field(m: Meta, name: Seq<char>) -> Option<Seq<char>> {
    if name == "name"@ {
        Some(m.name)
    } else if name == "ext"@ {
        Some(m.ext)
    } else if name == "parent"@ || name == "folder"@ {
        Some(m.parent)
    } else if name == "size"@ {
        Some(text::decimal(m.size as nat))
    } else if name == "camera_make"@ {
        m.camera_make
    } else if name == "camera_model"@ {
        m.camera_model
    } else if name == "lens"@ {
        m.lens
    } else if name == "iso"@ {
        m.iso
    } else if name == "width"@ {
        m.width
    } else if name == "height"@ {
        m.height
    } else {
        None
    }
}

/// Whether a field can be written: a date needs a valid format.
pub open spec fn field_formats(m: Meta, name: Seq<char>, fmt: Option<Seq<char>>) -> bool {
    date_field(m, name) matches Some(d) ==> strftime(d.secs, d.nanos, d.offset, date_format(fmt)) is Some
}

/// The text of a template field: nothing for a field that is unknown or that has
/// no value for this file.
pub open spec fn field_value(m: Meta, name: Seq<char>, fmt: Option<Seq<char>>) -> Option<Seq<char>> {
    match date_field(m, name) {
        Some(d) => strftime(d.secs, d.nanos, d.offset, date_format(fmt)),
        None => text_field(m, name),
    }
}

/// What the filesystem says of a file.
#[derive(Debug, Clone, Copy)]
pub struct FileStat {
    pub size: u64,
    pub created: Option<DateStamp>,
    pub modified: Option<DateStamp>,
    pub accessed: Option<DateStamp>,
}

/// An empty text in place of an absent one.
pub open spec fn or_empty(s: Option<Seq<char>>) -> Seq<char> {
    match s {
        Some(t) => t,
        None => Seq::empty(),
    }
}

fn text_or_empty(s: Option<String>) -> (r: String)
    ensures
        r@ == or_empty(text::opt_view(s)),
{
    match s {
        Some(t) => t,
        None => String::new(),
    }
}

/// What a path and the filesystem alone say of a file.
pub open spec fn plain_meta(path: Seq<char>, stat: Option<FileStat>) -> Meta {
    let named = Meta {
        name: or_empty(pathname::file_stem(path)),
        ext: or_empty(pathname::extension(path)),
        parent: or_empty(pathname::parent_name(path)),
        ..blank_meta()
    };
    match stat {
        Some(s) => Meta {
            size: s.size,
            date_created: s.created,
            date_modified: s.modified,
            date_accessed: s.accessed,
            ..named
        },
        None => named,
    }
}

/// Metadata with what EXIF adds to it. A coordinate pair and a date are added
/// only where there are usable ones; the other fields become what EXIF says,
/// present or not.
pub open spec fn with_exif(m: Meta, e: Findings) -> Meta {
    let pair = geotag_of(e.lat, e.lon);
    Meta {
        camera_make: e.reading.camera_make,
        camera_model: e.reading.camera_model,
        lens: e.reading.lens,
        iso: e.reading.iso,
        width: e.reading.width,
        height: e.reading.height,
        lat: match pair {
            Some((lat, lon)) => Some(lat),
            None => m.lat,
        },
        lon: match pair {
            Some((lat, lon)) => Some(lon),
            None => m.lon,
        },
        date_taken: if e.taken is Some {
            e.taken
        } else {
            m.date_taken
        },
        ..m
    }
}

impl FileMeta {
    /// Whether the file's contents have to be read for its metadata: EXIF is
    /// wanted, and the extension is that of an image.
    pub fn wants_exif(path: &str, want_exif: bool) -> (r: bool)
        ensures
            r == (want_exif && text::listed(
                IMAGE_EXTS@,
                text::lowercase(or_empty(pathname::extension(path@))),
            )),
    {
        let ext: String = text_or_empty(extension_of_path(path));
        want_exif && is_image_ext(ext.as_str())
    }

    /// The metadata of the file at `path`, from what the filesystem says of it
    /// and, where its contents were read, what EXIF says.
    pub fn read_with(path: &str, stat: Option<FileStat>, exif: Option<ExifFindings>) -> (r: Self)
        ensures
            r@ == (match exif {
                Some(e) => with_exif(plain_meta(path@, stat), e@),
                None => plain_meta(path@, stat),
            }),
    {
        let mut m: FileMeta = FileMeta::default();
        m.name = text_or_empty(file_stem_of(path));
        m.ext = text_or_empty(extension_of_path(path));
        m.parent = text_or_empty(parent_name_of(path));
        if let Some(s) = stat {
            m.size = s.size;
            m.date_created = s.created;
            m.date_modified = s.modified;
            m.date_accessed = s.accessed;
        }
        assert(m@ == plain_meta(path@, stat));
        if let Some(e) = exif {
            m.apply_exif(e);
        }
        m
    }

    fn apply_exif(&mut self, e: ExifFindings)
        ensures
            final(self)@ == with_exif(old(self)@, e@),
    {
        let pair: Option<(Degrees, Degrees)> = geotag(e.lat, e.lon);
        let reading: ExifReading = e.reading;
        self.camera_make = reading.camera_make;
        self.camera_model = reading.camera_model;
        self.lens = reading.lens;
        self.iso = reading.iso;
        self.width = reading.width;
        self.height = reading.height;
        if let Some((lat, lon)) = pair {
            self.lat = Some(lat);
            self.lon = Some(lon);
        }
        if let Some(taken) = e.taken {
            self.date_taken = Some(taken);
        }
    }

    /// Resolves a template field, with the optional date format that follows the
    /// colon in `{field:fmt}`. The outer result is absent where the field is a
    /// date and the format is not a valid one.
    pub fn try_field(&self, name: &str, fmt: Option<&str>) -> (r: Option<Option<String>>)
        ensures
            r is Some <==> field_formats(self@, name@, text::opt_str(fmt)),
            r is Some ==> text::opt_view(r->0) == field_value(self@, name@, text::opt_str(fmt)),
    {
        let date: Option<DateStamp> = if str_eq(name, "date_taken") {
            self.date_taken
        } else if str_eq(name, "date_created") {
            self.date_created
        } else if str_eq(name, "date_modified") {
            self.date_modified
        } else if str_eq(name, "date_accessed") {
            self.date_accessed
        } else {
            None
        };
        if let Some(d) = date {
            let spec: &str = match fmt {
                Some(f) => f,
                None => "%Y-%m-%d",
            };
            return match format_date(d.secs, d.nanos, d.offset, spec) {
                Some(t) => Some(Some(t)),
                None => None,
            };
        }
        Some(self.text_of(name))
    }

    fn text_of(&self, name: &str) -> (r: Option<String>)
        ensures
            text::opt_view(r) == text_field(self@, name@),
    {
        if str_eq(name, "name") {
            Some(self.name.clone())
        } else if str_eq(name, "ext") {
            Some(self.ext.clone())
        } else if str_eq(name, "parent") || str_eq(name, "folder") {
            Some(self.parent.clone())
        } else if str_eq(name, "size") {
            Some(decimal_of(self.size))
        } else if str_eq(name, "camera_make") {
            clone_opt(&self.camera_make)
        } else if str_eq(name, "camera_model") {
            clone_opt(&self.camera_model)
        } else if str_eq(name, "lens") {
            clone_opt(&self.lens)
        } else if str_eq(name, "iso") {
            clone_opt(&self.iso)
        } else if str_eq(name, "width") {
            clone_opt(&self.width)
        } else if str_eq(name, "height") {
            clone_opt(&self.height)
        } else {
            None
        }
    }

    /// Resolves a template field whose format, if it is a date, is a valid one.
    pub fn field(&self, name: &str, fmt: Option<&str>) -> (r: Option<String>)
        requires
            field_formats(self@, name@, text::opt_str(fmt)),
        ensures
            text::opt_view(r) == field_value(self@, name@, text::opt_str(fmt)),
    {
        self.try_field(name, fmt).unwrap()
    }
}

/// How a coordinate is stored: degrees, minutes and seconds as rationals, and
/// whether it is south or west of zero.
#[derive(Debug, Clone, Copy)]
pub struct GpsReading {
    pub degrees: (u32, u32),
    pub minutes: (u32, u32),
    pub seconds: (u32, u32),
    pub negative: bool,
}

/// What an EXIF block says of a photo.
#[derive(Debug, Clone)]
pub struct ExifReading {
    pub camera_make: Option<String>,
    pub camera_model: Option<String>,
    pub lens: Option<String>,
    pub iso: Option<String>,
    pub width: Option<String>,
    pub height: Option<String>,
    pub lat: Option<GpsReading>,
    pub lon: Option<GpsReading>,
    /// When the shutter was released, on the camera's clock.
    pub taken: Option<NaiveStamp>,
}

/// An EXIF reading as mathematical values.
#[verifier::ext_equal]
pub struct Reading {
    pub camera_make: Option<Seq<char>>,
    pub camera_model: Option<Seq<char>>,
    pub lens: Option<Seq<char>>,
    pub iso: Option<Seq<char>>,
    pub width: Option<Seq<char>>,
    pub height: Option<Seq<char>>,
    pub lat: Option<GpsReading>,
    pub lon: Option<GpsReading>,
    pub taken: Option<NaiveStamp>,
}

impl View for ExifReading {
    type V = Reading;

    open spec fn view(&self) -> Reading {
        Reading {
            camera_make: text::opt_view(self.camera_make),
            camera_model: text::opt_view(self.camera_model),
            lens: text::opt_view(self.lens),
            iso: text::opt_view(self.iso),
            width: text::opt_view(self.width),
            height: text::opt_view(self.height),
            lat: self.lat,
            lon: self.lon,
            taken: self.taken,
        }
    }
}

/// A field that does not come from EXIF has the same value whether or not EXIF
/// was read, so that a template without such fields can do without opening files.
pub proof fn other_fields_do_not_need_exif(
    m: Meta,
    e: Findings,
    name: Seq<char>,
    fmt: Option<Seq<char>>,
)
    requires
        !text::listed(EXIF_FIELDS@, name),
    ensures
        field_value(with_exif(m, e), name, fmt) == field_value(m, name, fmt),
        field_formats(with_exif(m, e), name, fmt) == field_formats(m, name, fmt),
{
    assert(EXIF_FIELDS@[0]@ != name);
    assert(EXIF_FIELDS@[1]@ != name);
    assert(EXIF_FIELDS@[2]@ != name);
    assert(EXIF_FIELDS@[3]@ != name);
    assert(EXIF_FIELDS@[4]@ != name);
    assert(EXIF_FIELDS@[5]@ != name);
    assert(EXIF_FIELDS@[6]@ != name);
}

/// An EXIF reading together with its coordinates in decimal degrees and its date
/// as a moment in the local time zone, each where there is one.
#[derive(Debug, Clone)]
pub struct ExifFindings {
    pub reading: ExifReading,
    pub lat: Option<Degrees>,
    pub lon: Option<Degrees>,
    pub taken: Option<DateStamp>,
}

/// Findings as mathematical values.
#[verifier::ext_equal]
pub struct Findings {
    pub reading: Reading,
    pub lat: Option<Degrees>,
    pub lon: Option<Degrees>,
    pub taken: Option<DateStamp>,
}

impl View for ExifFindings {
    type V = Findings;

    open spec fn view(&self) -> Findings {
        Findings { reading: self.reading@, lat: self.lat, lon: self.lon, taken: self.taken }
    }
}

/// `exif::Exif`.
#[verifier::external_type_specification]
#[verifier::external_body]
pub struct ExExif(exif::Exif);

/// The EXIF block that can be read from the bytes of a file, if there is one.
pub uninterp spec fn exif_in(bytes: Seq<u8>) -> Option<exif::Exif>;

/// The text in which the field with the given tag is displayed, if a block's primary
/// image has that field.
pub uninterp spec fn exif_display(block: exif::Exif, group: u8, number: u16) -> Option<Seq<char>>;

/// The strings of the field with the given tag, if a block's primary image has that
/// field and it holds strings.
pub uninterp spec fn exif_strings(block: exif::Exif, group: u8, number: u16) -> Option<
    Seq<Seq<u8>>,
>;

/// The rationals of the field with the given tag, if a block's primary image has that
/// field and it holds rationals.
pub uninterp spec fn exif_rationals(block: exif::Exif, group: u8, number: u16) -> Option<
    Seq<(u32, u32)>,
>;

/// Strings of bytes as mathematical values.
pub open spec fn byte_strings(v: Seq<Vec<u8>>) -> Seq<Seq<u8>> {
    v.map_values(|s: Vec<u8>| s@)
}

/// `exif::Reader::read_from_container` on the bytes of a file: the EXIF block, if
/// one can be read.
#[verifier::external_body]
pub(crate) fn read_block(bytes: &[u8]) -> (r: Option<exif::Exif>)
    ensures
        r == exif_in(bytes@),
{
    exif::Reader::new().read_from_container(&mut std::io::Cursor::new(bytes)).ok()
}

/// `exif::Exif::get_field` for the primary image, the field's `display_value`
/// turned into text. The tag's group is 0 for the TIFF directory, 1 for the EXIF
/// directory, and otherwise the GPS directory.
#[verifier::external_body]
pub(crate) fn block_display(block: &exif::Exif, group: u8, number: u16) -> (r: Option<String>)
    ensures
        text::opt_view(r) == exif_display(*block, group, number),
{
    let context = match group {
        0 => exif::Context::Tiff,
        1 => exif::Context::Exif,
        _ => exif::Context::Gps,
    };
    let field = block.get_field(exif::Tag(context, number), exif::In::PRIMARY)?;
    Some(field.display_value().to_string())
}

/// `exif::Exif::get_field` for the primary image: the strings of a field that holds
/// strings. Groups are as for `block_display`.
#[verifier::external_body]
pub(crate) fn block_strings(block: &exif::Exif, group: u8, number: u16) -> (r: Option<Vec<Vec<u8>>>)
    ensures
        r is Some <==> exif_strings(*block, group, number) is Some,
        r is Some ==> byte_strings(r->0@) == exif_strings(*block, group, number)->0,
{
    let context = match group {
        0 => exif::Context::Tiff,
        1 => exif::Context::Exif,
        _ => exif::Context::Gps,
    };
    match &block.get_field(exif::Tag(context, number), exif::In::PRIMARY)?.value {
        exif::Value::Ascii(strings) => Some(strings.clone()),
        _ => None,
    }
}

/// `exif::Exif::get_field` for the primary image: the numerators and denominators
/// of a field that holds rationals. Groups are as for `block_display`.
#[verifier::external_body]
pub(crate) fn block_rationals(block: &exif::Exif, group: u8, number: u16) -> (r: Option<
    Vec<(u32, u32)>,
>)
    ensures
        r is Some <==> exif_rationals(*block, group, number) is Some,
        r is Some ==> r->0@ == exif_rationals(*block, group, number)->0,
{
    let context = match group {
        0 => exif::Context::Tiff,
        1 => exif::Context::Exif,
        _ => exif::Context::Gps,
    };
    match &block.get_field(exif::Tag(context, number), exif::In::PRIMARY)?.value {
        exif::Value::Rational(v) => Some(v.iter().map(|q| (q.num, q.denom)).collect()),
        _ => None,
    }
}

/// What chrono's `NaiveDateTime::parse_from_str` makes of a text and a format:
/// seconds and nanoseconds since the epoch, if the text has that format.
pub uninterp spec fn naive_date(s: Seq<char>, fmt: Seq<char>) -> Option<(i64, u32)>;

/// `chrono::NaiveDateTime::parse_from_str`: the date and time that a text states
/// in a given format, which is a function of the two alone.
#[verifier::external_body]
pub(crate) fn parse_date(s: &str, fmt: &str) -> (r: Option<(i64, u32)>)
    ensures
        r == naive_date(s@, fmt@),
{
    let date = chrono::NaiveDateTime::parse_from_str(s, fmt).ok()?.and_utc();
    Some((date.timestamp(), date.timestamp_subsec_nanos()))
}

/// The group of the TIFF directory's tags.
pub const GROUP_TIFF: u8 = 0;

/// The group of the EXIF directory's tags.
pub const GROUP_EXIF: u8 = 1;

/// The group of the GPS directory's tags.
pub const GROUP_GPS: u8 = 2;

pub const TAG_MAKE: u16 = 0x10f;

pub const TAG_MODEL: u16 = 0x110;

pub const TAG_DATE_TIME: u16 = 0x132;

pub const TAG_SENSITIVITY: u16 = 0x8827;

pub const TAG_DATE_TIME_ORIGINAL: u16 = 0x9003;

pub const TAG_PIXEL_X: u16 = 0xa002;

pub const TAG_PIXEL_Y: u16 = 0xa003;

pub const TAG_LENS_MODEL: u16 = 0xa434;

pub const TAG_LATITUDE_REF: u16 = 1;

pub const TAG_LATITUDE: u16 = 2;

pub const TAG_LONGITUDE_REF: u16 = 3;

pub const TAG_LONGITUDE: u16 = 4;

/// A displayed field without the quotation marks around it.
pub open spec fn unquoted(displayed: Option<Seq<char>>) -> Option<Seq<char>> {
    match displayed {
        Some(t) => Some(text::trimmed_of(t, '"')),
        None => None,
    }
}

/// Whether a hemisphere, in uppercase, is the southern or western one.
pub open spec fn is_south_or_west(u: Seq<char>) -> bool {
    u.len() > 0 && (u[0] == 'S' || u[0] == 'W')
}

/// Whether a hemisphere, as it is displayed, is the southern or western one.
pub open spec fn is_negative(displayed: Option<Seq<char>>) -> bool {
    match unquoted(displayed) {
        Some(t) => is_south_or_west(text::uppercase(t)),
        None => false,
    }
}

/// The coordinate that at least three rationals and a hemisphere make. Some
/// cameras put the whole value in the degrees and leave the others zero.
pub open spec fn gps_of(parts: Option<Seq<(u32, u32)>>, hemisphere: Option<Seq<char>>) -> Option<
    GpsReading,
> {
    match parts {
        Some(p) => if p.len() < 3 {
            None
        } else {
            Some(
                GpsReading {
                    degrees: p[0],
                    minutes: p[1],
                    seconds: p[2],
                    negative: is_negative(hemisphere),
                },
            )
        },
        None => None,
    }
}

/// The date that a field's first string states, if it is text in EXIF's date format.
pub open spec fn exif_date(strings: Option<Seq<Seq<u8>>>) -> Option<NaiveStamp> {
    match strings {
        Some(v) => if v.len() > 0 && valid_utf8(v[0]) {
            match naive_date(text::trimmed(decode_utf8(v[0])), "%Y:%m:%d %H:%M:%S"@) {
                Some((secs, nanos)) => Some(NaiveStamp { secs, nanos }),
                None => None,
            }
        } else {
            None
        },
        None => None,
    }
}

/// What an EXIF block says. The date is the original one, that of the shutter, where
/// the block has that field at all, and otherwise the plain one.
pub open spec fn reading_of(block: exif::Exif) -> Reading {
    Reading {
        camera_make: unquoted(exif_display(block, GROUP_TIFF, TAG_MAKE)),
        camera_model: unquoted(exif_display(block, GROUP_TIFF, TAG_MODEL)),
        lens: unquoted(exif_display(block, GROUP_EXIF, TAG_LENS_MODEL)),
        iso: unquoted(exif_display(block, GROUP_EXIF, TAG_SENSITIVITY)),
        width: unquoted(exif_display(block, GROUP_EXIF, TAG_PIXEL_X)),
        height: unquoted(exif_display(block, GROUP_EXIF, TAG_PIXEL_Y)),
        lat: gps_of(
            exif_rationals(block, GROUP_GPS, TAG_LATITUDE),
            exif_display(block, GROUP_GPS, TAG_LATITUDE_REF),
        ),
        lon: gps_of(
            exif_rationals(block, GROUP_GPS, TAG_LONGITUDE),
            exif_display(block, GROUP_GPS, TAG_LONGITUDE_REF),
        ),
        taken: exif_date(
            if exif_display(block, GROUP_EXIF, TAG_DATE_TIME_ORIGINAL) is Some {
                exif_strings(block, GROUP_EXIF, TAG_DATE_TIME_ORIGINAL)
            } else {
                exif_strings(block, GROUP_TIFF, TAG_DATE_TIME)
            },
        ),
    }
}

/// A displayed field without the quotation marks around it.
pub fn unquote(displayed: Option<String>) -> (r: Option<String>)
    ensures
        text::opt_view(r) == unquoted(text::opt_view(displayed)),
{
    match displayed {
        Some(t) => Some(trim_of(t.as_str(), '"')),
        None => None,
    }
}

/// Whether a hemisphere, in uppercase, is the southern or western one.
pub fn south_or_west(hemisphere: &str) -> (r: bool)
    ensures
        r == is_south_or_west(hemisphere@),
{
    let u: Vec<char> = chars_of(hemisphere);
    u.len() > 0 && (u[0] == 'S' || u[0] == 'W')
}

/// The coordinate that a list of rationals and a hemisphere make.
pub fn gps_reading(parts: Option<Vec<(u32, u32)>>, hemisphere: Option<String>) -> (r: Option<
    GpsReading,
>)
    ensures
        r == gps_of(
            match parts {
                Some(p) => Some(p@),
                None => None,
            },
            text::opt_view(hemisphere),
        ),
{
    let p: Vec<(u32, u32)> = match parts {
        Some(p) => p,
        None => return None,
    };
    if p.len() < 3 {
        return None;
    }
    let negative: bool = match unquote(hemisphere) {
        Some(t) => south_or_west(to_upper(t.as_str()).as_str()),
        None => false,
    };
    Some(GpsReading { degrees: p[0], minutes: p[1], seconds: p[2], negative })
}

/// The date that a field's first string states.
pub fn date_of_strings(strings: Option<Vec<Vec<u8>>>) -> (r: Option<NaiveStamp>)
    ensures
        r == exif_date(
            match strings {
                Some(v) => Some(byte_strings(v@)),
                None => None,
            },
        ),
{
    let v: Vec<Vec<u8>> = match strings {
        Some(v) => v,
        None => return None,
    };
    assert(byte_strings(v@).len() == v@.len());
    if v.len() == 0 {
        return None;
    }
    assert(byte_strings(v@)[0] == v@[0]@);
    let s: String = match utf8_text(v[0].as_slice()) {
        Some(s) => s,
        None => return None,
    };
    match parse_date(trim(s.as_str()).as_str(), "%Y:%m:%d %H:%M:%S") {
        Some((secs, nanos)) => Some(NaiveStamp { secs, nanos }),
        None => None,
    }
}

/// What the bytes of a file say in their EXIF block, if they hold one.
pub fn read_exif(bytes: &[u8]) -> (r: Option<ExifReading>)
    ensures
        match exif_in(bytes@) {
            Some(block) => r matches Some(e) && e@ == reading_of(block),
            None => r is None,
        },
{
    let block: exif::Exif = match read_block(bytes) {
        Some(block) => block,
        None => return None,
    };
    let date: Option<Vec<Vec<u8>>> = if block_display(
        &block,
        GROUP_EXIF,
        TAG_DATE_TIME_ORIGINAL,
    ).is_some() {
        block_strings(&block, GROUP_EXIF, TAG_DATE_TIME_ORIGINAL)
    } else {
        block_strings(&block, GROUP_TIFF, TAG_DATE_TIME)
    };
    Some(
        ExifReading {
            camera_make: unquote(block_display(&block, GROUP_TIFF, TAG_MAKE)),
            camera_model: unquote(block_display(&block, GROUP_TIFF, TAG_MODEL)),
            lens: unquote(block_display(&block, GROUP_EXIF, TAG_LENS_MODEL)),
            iso: unquote(block_display(&block, GROUP_EXIF, TAG_SENSITIVITY)),
            width: unquote(block_display(&block, GROUP_EXIF, TAG_PIXEL_X)),
            height: unquote(block_display(&block, GROUP_EXIF, TAG_PIXEL_Y)),
            lat: gps_reading(
                block_rationals(&block, GROUP_GPS, TAG_LATITUDE),
                block_display(&block, GROUP_GPS, TAG_LATITUDE_REF),
            ),
            lon: gps_reading(
                block_rationals(&block, GROUP_GPS, TAG_LONGITUDE),
                block_display(&block, GROUP_GPS, TAG_LONGITUDE_REF),
            ),
            taken: date_of_strings(date),
        },
    )
}

proof fn lemma_field_names_differ()
    ensures
        "name"@.len() == 4 && "name"@[0] == 'n',
        "size"@.len() == 4 && "size"@[0] == 's',
        "lens"@.len() == 4 && "lens"@[0] == 'l',
        "ext"@.len() == 3 && "ext"@[0] == 'e',
        "iso"@.len() == 3 && "iso"@[0] == 'i',
        "width"@.len() == 5,
        "parent"@.len() == 6 && "parent"@[0] == 'p',
        "folder"@.len() == 6 && "folder"@[0] == 'f',
        "height"@.len() == 6 && "height"@[0] == 'h',
        "date_taken"@.len() == 10,
        "camera_make"@.len() == 11,
        "camera_model"@.len() == 12 && "camera_model"@[0] == 'c',
        "date_created"@.len() == 12 && "date_created"@[0] == 'd',
        "date_modified"@.len() == 13 && "date_modified"@[5] == 'm',
        "date_accessed"@.len() == 13 && "date_accessed"@[5] == 'a',
{
    reveal_strlit("name");
    reveal_strlit("size");
    reveal_strlit("lens");
    reveal_strlit("ext");
    reveal_strlit("iso");
    reveal_strlit("width");
    reveal_strlit("parent");
    reveal_strlit("folder");
    reveal_strlit("height");
    reveal_strlit("date_taken");
    reveal_strlit("camera_make");
    reveal_strlit("camera_model");
    reveal_strlit("date_created");
    reveal_strlit("date_modified");
    reveal_strlit("date_accessed");
}

/// A field of a template stands for what is known of the file under its name: its own
/// name, extension and folder, its size in decimal, and what the picture itself says.
pub proof fn fields_are_found_by_name(m: Meta, fmt: Option<Seq<char>>)
    ensures
        field_value(m, "name"@, fmt) == Some(m.name),
        field_value(m, "ext"@, fmt) == Some(m.ext),
        field_value(m, "parent"@, fmt) == Some(m.parent),
        field_value(m, "folder"@, fmt) == Some(m.parent),
        field_value(m, "size"@, fmt) == Some(text::decimal(m.size as nat)),
        field_value(m, "camera_make"@, fmt) == m.camera_make,
        field_value(m, "camera_model"@, fmt) == m.camera_model,
        field_value(m, "lens"@, fmt) == m.lens,
        field_value(m, "iso"@, fmt) == m.iso,
        field_value(m, "width"@, fmt) == m.width,
        field_value(m, "height"@, fmt) == m.height,
{
    lemma_field_names_differ();
}

/// A field for a date stands for that date, written as its format says and otherwise as
/// year, month and day; where the date is not known it stands for nothing.
pub proof fn dates_are_written_as_asked_for(m: Meta, fmt: Option<Seq<char>>)
    ensures
        ({
            let f = if fmt is Some {
                fmt->0
            } else {
                "%Y-%m-%d"@
            };
            &&& field_value(m, "date_taken"@, fmt) == (match m.date_taken {
                Some(d) => strftime(d.secs, d.nanos, d.offset, f),
                None => None,
            })
            &&& field_value(m, "date_created"@, fmt) == (match m.date_created {
                Some(d) => strftime(d.secs, d.nanos, d.offset, f),
                None => None,
            })
            &&& field_value(m, "date_modified"@, fmt) == (match m.date_modified {
                Some(d) => strftime(d.secs, d.nanos, d.offset, f),
                None => None,
            })
            &&& field_value(m, "date_accessed"@, fmt) == (match m.date_accessed {
                Some(d) => strftime(d.secs, d.nanos, d.offset, f),
                None => None,
            })
        }),
{
    lemma_field_names_differ();
}

/// A name that is no field stands for nothing.
pub proof fn other_names_are_no_fields(m: Meta, name: Seq<char>, fmt: Option<Seq<char>>)
    requires
        name != "name"@ && name != "ext"@ && name != "parent"@ && name != "folder"@,
        name != "size"@ && name != "camera_make"@ && name != "camera_model"@,
        name != "lens"@ && name != "iso"@ && name != "width"@ && name != "height"@,
        name != "date_taken"@ && name != "date_created"@,
        name != "date_modified"@ && name != "date_accessed"@,
    ensures
        field_value(m, name, fmt) is None,
{
}

/// What is known of a file without looking inside: from its path its name, extension and
/// folder, and from the file system its size and dates, where that tells.
pub proof fn paths_and_file_systems_tell(
    dir: Seq<char>,
    folder: Seq<char>,
    stem: Seq<char>,
    ext: Seq<char>,
    stat: Option<FileStat>,
)
    requires
        dir.len() > 0,
        !folder.contains('/') && folder.len() > 0 && folder != seq!['.'] && folder != seq!['.', '.'],
        stem.len() > 0 && !stem.contains('/'),
        !ext.contains('/') && !ext.contains('.'),
        !(ext.len() == 0 && stem == seq!['.']),
    ensures
        ({
            let path = dir + seq!['/'] + folder + seq!['/'] + (stem + seq!['.'] + ext);
            let m = plain_meta(path, stat);
            &&& m.name == stem && m.ext == ext && m.parent == folder
            &&& stat is None ==> m.size == 0 && m.date_created is None && m.date_modified is None
                && m.date_accessed is None
            &&& stat matches Some(s) ==> m.size == s.size && m.date_created == s.created
                && m.date_modified == s.modified && m.date_accessed == s.accessed
            &&& m.date_taken is None && m.camera_make is None && m.camera_model is None
            &&& m.lens is None && m.iso is None && m.width is None && m.height is None
            &&& m.lat is None && m.lon is None
        }),
{
    let name = stem + seq!['.'] + ext;
    assert(!name.contains('/')) by {
        if name.contains('/') {
            let i = choose|i: int| 0 <= i < name.len() && name[i] == '/';
            if i < stem.len() {
                assert(stem[i] == '/');
            } else if i > stem.len() {
                assert(ext[i - stem.len() - 1] == '/');
            }
        }
    }
    assert(name != seq!['.']) by {
        assert(name.len() >= 2);
    }
    if name == seq!['.', '.'] {
        assert(name[0] == stem[0]);
        assert(stem =~= seq!['.']);
    }
    pathname::names_are_the_last_segments(dir + seq!['/'] + folder, folder, name);
    pathname::names_are_the_last_segments(dir, folder, name);
    pathname::names_split_at_the_last_dot(stem, ext, name);
}

/// What the picture itself says replaces what was known of the camera and the dimensions;
/// the date it was taken and where, only if it says so; and nothing else changes.
pub proof fn pictures_tell_more(m: Meta, e: Findings)
    ensures
        ({
            let after = with_exif(m, e);
            &&& after.camera_make == e.reading.camera_make
            &&& after.camera_model == e.reading.camera_model
            &&& after.lens == e.reading.lens && after.iso == e.reading.iso
            &&& after.width == e.reading.width && after.height == e.reading.height
            &&& e.taken is Some ==> after.date_taken == e.taken
            &&& e.taken is None ==> after.date_taken == m.date_taken
            &&& geotag_of(e.lat, e.lon) is Some ==> after.lat == e.lat && after.lon == e.lon
            &&& geotag_of(e.lat, e.lon) is None ==> after.lat == m.lat && after.lon == m.lon
            &&& after.name == m.name && after.ext == m.ext && after.parent == m.parent
            &&& after.size == m.size && after.date_created == m.date_created
            &&& after.date_modified == m.date_modified && after.date_accessed == m.date_accessed
        }),
{
}

/// A pair of coordinates is taken exactly if it can be a place: both are there, neither is
/// beyond the poles or the date line, and not both are zero. The sign is the highest bit.
pub proof fn places_on_earth_are_taken(lat: Degrees, lon: Degrees)
    ensures
        ({
            let north = lat.bits % 0x8000_0000_0000_0000;
            let east = lon.bits % 0x8000_0000_0000_0000;
            geotag_of(Some(lat), Some(lon)) == if north <= 0x4056_8000_0000_0000 && east
                <= 0x4066_8000_0000_0000 && (north != 0 || east != 0) {
                Some((lat, lon))
            } else {
                None
            }
        }),
{
}

/// A position is read from three fractions, degrees, minutes and seconds, and is negative
/// if the hemisphere, whatever quotes and case it is written in, begins with S or W.
pub proof fn positions_are_read_from_three_fractions(
    parts: Seq<(u32, u32)>,
    hemisphere: Option<Seq<char>>,
)
    ensures
        gps_of(None, hemisphere) is None,
        parts.len() < 3 ==> gps_of(Some(parts), hemisphere) is None,
        parts.len() >= 3 ==> gps_of(Some(parts), hemisphere) is Some,
        gps_of(Some(parts), hemisphere) matches Some(g) ==> {
            let upper = text::uppercase(text::trimmed_of(hemisphere->0, '"'));
            &&& g.degrees == parts[0] && g.minutes == parts[1] && g.seconds == parts[2]
            &&& g.negative <==> hemisphere is Some && upper.len() > 0 && (upper[0] == 'S' || upper[0]
                == 'W')
        },
{
}

/// Where in a picture's own data each thing is read: the group and number of its tag. Text
/// is read without quotes at its ends.
pub proof fn readings_come_from_their_tags(block: exif::Exif)
    ensures
        ({
            let r = reading_of(block);
            let plain = |shown: Option<Seq<char>>|
                match shown {
                    Some(t) => Some(text::trimmed_of(t, '"')),
                    None => None::<Seq<char>>,
                };
            &&& r.camera_make == plain(exif_display(block, 0, 0x10f))
            &&& r.camera_model == plain(exif_display(block, 0, 0x110))
            &&& r.lens == plain(exif_display(block, 1, 0xa434))
            &&& r.iso == plain(exif_display(block, 1, 0x8827))
            &&& r.width == plain(exif_display(block, 1, 0xa002))
            &&& r.height == plain(exif_display(block, 1, 0xa003))
            &&& r.lat == gps_of(exif_rationals(block, 2, 2), exif_display(block, 2, 1))
            &&& r.lon == gps_of(exif_rationals(block, 2, 4), exif_display(block, 2, 3))
        }),
        exif_display(block, 1, 0x9003) is Some ==> reading_of(block).taken == exif_date(
            exif_strings(block, 1, 0x9003),
        ),
        exif_display(block, 1, 0x9003) is None ==> reading_of(block).taken == exif_date(
            exif_strings(block, 0, 0x132),
        ),
{
}

/// A date in a picture is its first line of text, trimmed, if that is year, month and day
/// with colons and then the time of day.
pub proof fn picture_dates_have_one_form(lines: Seq<Seq<u8>>)
    ensures
        exif_date(None) is None,
        lines.len() == 0 || !valid_utf8(lines[0]) ==> exif_date(Some(lines)) is None,
        lines.len() > 0 && valid_utf8(lines[0]) ==> exif_date(Some(lines)) == (match naive_date(
            text::trimmed(decode_utf8(lines[0])),
            "%Y:%m:%d %H:%M:%S"@,
        ) {
            Some((secs, nanos)) => Some(NaiveStamp { secs, nanos }),
            None => None,
        }),
{
}

/// The fields that a template can name, and those of them that come from inside the file.
pub proof fn the_fields_are_these(name: Seq<char>)
    ensures
        text::listed(EXIF_FIELDS@, name) <==> (name == "date_taken"@ || name == "camera_make"@ || name
            == "camera_model"@ || name == "lens"@ || name == "iso"@ || name == "width"@ || name
            == "height"@),
        text::listed(FIELDS@, name) <==> (name == "name"@ || name == "ext"@ || name == "parent"@
            || name == "folder"@ || name == "size"@ || name == "date_taken"@ || name
            == "date_created"@ || name == "date_modified"@ || name == "date_accessed"@ || name
            == "camera_make"@ || name == "camera_model"@ || name == "lens"@ || name == "iso"@ || name
            == "width"@ || name == "height"@),
{
    let e = EXIF_FIELDS@;
    assert(e[0] == "date_taken" && e[1] == "camera_make" && e[2] == "camera_model" && e[3] == "lens"
        && e[4] == "iso" && e[5] == "width" && e[6] == "height");
    if text::listed(e, name) {
        let j = choose|j: int| 0 <= j < e.len() && (#[trigger] e[j])@ == name;
        assert(j == 0 || j == 1 || j == 2 || j == 3 || j == 4 || j == 5 || j == 6);
    }
    let f = FIELDS@;
    assert(f[0] == "name" && f[1] == "ext" && f[2] == "parent" && f[3] == "folder" && f[4] == "size"
        && f[5] == "date_taken" && f[6] == "date_created" && f[7] == "date_modified" && f[8]
        == "date_accessed" && f[9] == "camera_make" && f[10] == "camera_model" && f[11] == "lens"
        && f[12] == "iso" && f[13] == "width" && f[14] == "height");
    if text::listed(f, name) {
        let j = choose|j: int| 0 <= j < f.len() && (#[trigger] f[j])@ == name;
        assert(j == 0 || j == 1 || j == 2 || j == 3 || j == 4 || j == 5 || j == 6 || j == 7 || j == 8
            || j == 9 || j == 10 || j == 11 || j == 12 || j == 13 || j == 14);
    }
}

/// Quotation marks around a displayed field are taken off, and those inside it are kept.
pub proof fn quotation_marks_are_taken_off_the_ends(before: nat, t: Seq<char>, after: nat)
    requires
        t.len() > 0,
        t[0] != '"',
        t.last() != '"',
    ensures
        unquoted(
            Some(Seq::new(before, |i: int| '"') + t + Seq::new(after, |i: int| '"')),
        ) == Some(t),
        unquoted(None) is None,
{
    let s = Seq::new(before, |i: int| '"') + t + Seq::new(after, |i: int| '"');
    let at = text::trimming_a_character_takes_it_off_the_ends(s, '"');
    assert(s[before as int] == t[0]);
    assert(s[before + t.len() - 1] == t.last());
    assert(at.0 <= before && before + t.len() <= at.1);
    assert(at.0 == before && at.1 == before + t.len());
    assert(s.subrange(at.0, at.1) =~= t);
}

} // verus!
