//! What sort of image a file is: a photograph, a screenshot, or an image saved
//! from somewhere.
//!
//! The classification is a suggestion derived from what the file itself says,
//! always overridable. The override is something only the user can supply, so
//! like ratings and the hidden flag it goes by content hash and survives renames.
use vstd::prelude::*;

use crate::catalog;
use crate::catalog::MediaRow;
use crate::text;
use crate::text::{chars_of, occurs, str_eq, to_lower};

verus! {

#[derive(Debug, Clone, Copy, PartialEq, Eq, Hash, PartialOrd, Ord, Structural)]
pub enum MediaKind {
    /// Taken with a camera.
    Photo,
    /// A capture of a screen.
    Screenshot,
    /// Saved or downloaded from somewhere else: moodboards, inspiration,
    /// reference images.
    Saved,
}

/// The word for a kind.
pub open spec fn kind_word(k: MediaKind) -> Seq<char> {
    match k {
        MediaKind::Photo => "photo"@,
        MediaKind::Screenshot => "screenshot"@,
        MediaKind::Saved => "saved"@,
    }
}

/// The kind that a word stands for.
pub open spec fn kind_of_word(s: Seq<char>) -> Option<MediaKind> {
    if s == "photo"@ {
        Some(MediaKind::Photo)
    } else if s == "screenshot"@ {
        Some(MediaKind::Screenshot)
    } else if s == "saved"@ {
        Some(MediaKind::Saved)
    } else {
        None
    }
}

/// What is stored for a kind is read back as that kind.
pub proof fn stored_kinds_are_read_back(k: MediaKind)
    ensures
        kind_of_word(kind_word(k)) == Some(k),
{
    reveal_strlit("photo");
    reveal_strlit("screenshot");
    reveal_strlit("saved");
    assert("photo"@.len() == 5 && "screenshot"@.len() == 10);
    assert("photo"@[0] == 'p' && "saved"@[0] == 's');
}

/// A kind is read only from the word that is stored for it.
pub proof fn kinds_are_read_from_their_words_only(s: Seq<char>)
    ensures
        kind_of_word(s) matches Some(k) ==> kind_word(k) == s,
{
}

impl MediaKind {
    /// All kinds.
    pub const ALL: [MediaKind; 3] = [MediaKind::Photo, MediaKind::Screenshot, MediaKind::Saved];

    /// The word for display.
    pub fn label(self) -> (r: &'static str)
        ensures
            r@ == kind_word(self),
    {
        match self {
            MediaKind::Photo => "photo",
            MediaKind::Screenshot => "screenshot",
            MediaKind::Saved => "saved",
        }
    }

    /// The stored form. It is apart from `label` so that the wording can change
    /// without rewriting what is stored.
    pub fn as_str(self) -> (r: &'static str)
        ensures
            r@ == kind_word(self),
    {
        self.label()
    }

    /// The kind of a stored form.
    pub fn parse(s: &str) -> (r: Option<MediaKind>)
        ensures
            r == kind_of_word(s@),
    {
        if str_eq(s, "photo") {
            Some(MediaKind::Photo)
        } else if str_eq(s, "screenshot") {
            Some(MediaKind::Screenshot)
        } else if str_eq(s, "saved") {
            Some(MediaKind::Saved)
        } else {
            None
        }
    }
}

/// Screen resolutions common enough to be worth recognizing, in either
/// orientation: those of desktops and laptops, then those of phones.
pub const SCREEN_SIZES: [(u32, u32); 25] = [
    (1280, 720),
    (1366, 768),
    (1440, 900),
    (1600, 900),
    (1680, 1050),
    (1920, 1080),
    (1920, 1200),
    (2048, 1152),
    (2560, 1440),
    (2560, 1600),
    (2880, 1800),
    (3024, 1964),
    (3456, 2234),
    (3840, 2160),
    (5120, 2880),
    (750, 1334),
    (828, 1792),
    (1080, 1920),
    (1125, 2436),
    (1170, 2532),
    (1179, 2556),
    (1242, 2688),
    (1284, 2778),
    (1290, 2796),
    (1440, 3120),
];

/// Fragments of a lowercase file name that give a screenshot away.
pub const SCREENSHOT_HINTS: [&'static str; 6] = [
    "screenshot",
    "screen shot",
    "screen_shot",
    "screen-shot",
    "screencapture",
    "screen capture",
];

/// Whether a lowercase file name gives a screenshot away.
pub open spec fn hints_at_screenshot(lowered: Seq<char>) -> bool {
    exists|i: int|
        0 <= i < SCREENSHOT_HINTS@.len() && text::occurs_in((#[trigger] SCREENSHOT_HINTS@[i])@, lowered)
}

/// Whether a width and height are those of a screen, in either orientation.
pub open spec fn is_screen_size(w: u32, h: u32) -> bool {
    exists|i: int|
        0 <= i < SCREEN_SIZES@.len() && (#[trigger] SCREEN_SIZES@[i] == (w, h) || SCREEN_SIZES@[i]
            == (h, w))
}

/// Whether a camera wrote the file: it states a make, a model, a lens, a
/// sensitivity or a capture time.
pub open spec fn from_camera(row: catalog::Row) -> bool {
    row.camera_make is Some || row.camera_model is Some || row.lens is Some || row.iso is Some
        || row.date_taken is Some
}

/// The best guess at what a file is, given its file name in lowercase. A file
/// name is the strongest signal, camera metadata the next; dimensions only count
/// when nothing else has an opinion.
pub open spec fn guess(row: catalog::Row, lowered: Seq<char>) -> MediaKind {
    if hints_at_screenshot(lowered) {
        MediaKind::Screenshot
    } else if from_camera(row) {
        MediaKind::Photo
    } else if row.width is Some && row.height is Some && is_screen_size(row.width->0, row.height->0) {
        MediaKind::Screenshot
    } else {
        MediaKind::Saved
    }
}

/// The best guess at what a file is, from the file alone.
pub open spec fn classified(row: catalog::Row) -> MediaKind {
    guess(row, text::lowercase(row.file_name))
}

/// The kind in force: the user's override, or else the guess.
pub open spec fn effective_kind(row: catalog::Row) -> MediaKind {
    match row.kind_override {
        Some(k) => k,
        None => classified(row),
    }
}

fn has_hint(lowered: &str) -> (r: bool)
    ensures
        r == hints_at_screenshot(lowered@),
{
    let hay: Vec<char> = chars_of(lowered);
    let hints: [&'static str; 6] = SCREENSHOT_HINTS;
    let mut i: usize = 0;
    while i < 6
        invariant
            hay@ == lowered@,
            hints@ == SCREENSHOT_HINTS@,
            i <= 6,
            forall|j: int|
                0 <= j < i ==> !text::occurs_in((#[trigger] SCREENSHOT_HINTS@[j])@, lowered@),
        decreases 6 - i,
    {
        let needle: Vec<char> = chars_of(hints[i]);
        if occurs(needle.as_slice(), hay.as_slice()) {
            assert(text::occurs_in(SCREENSHOT_HINTS@[i as int]@, lowered@));
            return true;
        }
        i += 1;
    }
    false
}

fn has_screen_size(w: u32, h: u32) -> (r: bool)
    ensures
        r == is_screen_size(w, h),
{
    let sizes: [(u32, u32); 25] = SCREEN_SIZES;
    let mut i: usize = 0;
    while i < 25
        invariant
            sizes@ == SCREEN_SIZES@,
            i <= 25,
            forall|j: int|
                0 <= j < i ==> #[trigger] SCREEN_SIZES@[j] != (w, h) && SCREEN_SIZES@[j] != (h, w),
        decreases 25 - i,
    {
        let (sw, sh) = sizes[i];
        if (w == sw && h == sh) || (w == sh && h == sw) {
            assert(SCREEN_SIZES@[i as int] == (sw, sh));
            return true;
        }
        i += 1;
    }
    false
}

/// The best guess at what a file is, given its file name in lowercase.
pub fn classify_lowered(row: &MediaRow, lowered: &str) -> (r: MediaKind)
    ensures
        r == guess(row@, lowered@),
{
    if has_hint(lowered) {
        return MediaKind::Screenshot;
    }
    if row.camera_make.is_some() || row.camera_model.is_some() || row.lens.is_some()
        || row.iso.is_some() || row.date_taken.is_some() {
        return MediaKind::Photo;
    }
    if let (Some(w), Some(h)) = (row.width, row.height) {
        if has_screen_size(w, h) {
            return MediaKind::Screenshot;
        }
    }
    MediaKind::Saved
}

/// The best guess at what a file is, from the file alone.
pub fn classify(row: &MediaRow) -> (r: MediaKind)
    ensures
        r == classified(row@),
{
    let lowered: String = to_lower(row.file_name.as_str());
    classify_lowered(row, lowered.as_str())
}

/// The kind in force: the user's override, or else the guess.
pub fn effective(row: &MediaRow) -> (r: MediaKind)
    ensures
        r == effective_kind(row@),
{
    match row.kind_override {
        Some(k) => k,
        None => classify(row),
    }
}

/// The dimensions of a picture that a camera took do not make it a screenshot.
pub proof fn camera_data_outranks_dimensions(row: catalog::Row, lowered: Seq<char>)
    requires
        from_camera(row),
        !hints_at_screenshot(lowered),
    ensures
        guess(row, lowered) == MediaKind::Photo,
{
}

/// A file name that gives a screenshot away decides, whatever the file holds.
pub proof fn file_name_outranks_everything(row: catalog::Row, lowered: Seq<char>)
    requires
        hints_at_screenshot(lowered),
    ensures
        guess(row, lowered) == MediaKind::Screenshot,
{
}

/// Turning a picture by a right angle does not change whether its size is that
/// of a screen.
pub proof fn screen_sizes_ignore_orientation(w: u32, h: u32)
    ensures
        is_screen_size(w, h) == is_screen_size(h, w),
{
    if is_screen_size(w, h) {
        let i = choose|i: int|
            0 <= i < SCREEN_SIZES@.len() && (#[trigger] SCREEN_SIZES@[i] == (w, h)
                || SCREEN_SIZES@[i] == (h, w));
        assert(SCREEN_SIZES@[i] == (w, h) || SCREEN_SIZES@[i] == (h, w));
    }
    if is_screen_size(h, w) {
        let i = choose|i: int|
            0 <= i < SCREEN_SIZES@.len() && (#[trigger] SCREEN_SIZES@[i] == (h, w)
                || SCREEN_SIZES@[i] == (w, h));
        assert(SCREEN_SIZES@[i] == (w, h) || SCREEN_SIZES@[i] == (h, w));
    }
}

/// The kind in force is the user's, if they chose one. Otherwise a name that speaks of a
/// screenshot decides; then any trace of a camera makes a photo; and without either a
/// picture whose size is not known is a saved one.
pub proof fn kinds_follow_from_the_file(row: catalog::Row)
    ensures
        row.kind_override is Some ==> effective_kind(row) == row.kind_override->0,
        row.kind_override is None ==> effective_kind(row) == classified(row),
        ({
            let name = text::lowercase(row.file_name);
            let named = text::occurs_in("screenshot"@, name) || text::occurs_in(
                "screen shot"@,
                name,
            ) || text::occurs_in("screen_shot"@, name) || text::occurs_in("screen-shot"@, name)
                || text::occurs_in("screencapture"@, name) || text::occurs_in(
                "screen capture"@,
                name,
            );
            let taken = row.camera_make is Some || row.camera_model is Some || row.lens is Some
                || row.iso is Some || row.date_taken is Some;
            &&& named ==> classified(row) == MediaKind::Screenshot
            &&& !named && taken ==> classified(row) == MediaKind::Photo
            &&& !named && !taken ==> classified(row) != MediaKind::Photo
            &&& !named && !taken && (row.width is None || row.height is None) ==> classified(row)
                == MediaKind::Saved
        }),
{
    let name = text::lowercase(row.file_name);
    let hints = SCREENSHOT_HINTS@;
    assert(hints[0] == "screenshot" && hints[1] == "screen shot" && hints[2] == "screen_shot"
        && hints[3] == "screen-shot" && hints[4] == "screencapture" && hints[5]
        == "screen capture");
    if hints_at_screenshot(name) {
        let i = choose|i: int|
            0 <= i < hints.len() && text::occurs_in((#[trigger] hints[i])@, name);
        assert(i == 0 || i == 1 || i == 2 || i == 3 || i == 4 || i == 5);
    }
}

/// A picture that nothing else speaks for is a screenshot exactly if its size is that of a
/// screen, upright or on its side.
pub proof fn sizes_decide_last(row: catalog::Row, lowered: Seq<char>)
    requires
        !hints_at_screenshot(lowered),
        row.camera_make is None && row.camera_model is None && row.lens is None && row.iso is None
            && row.date_taken is None,
        row.width is Some,
        row.height is Some,
    ensures
        ({
            let screens = seq![
                (1280u32, 720u32),
                (1366u32, 768u32),
                (1440u32, 900u32),
                (1600u32, 900u32),
                (1680u32, 1050u32),
                (1920u32, 1080u32),
                (1920u32, 1200u32),
                (2048u32, 1152u32),
                (2560u32, 1440u32),
                (2560u32, 1600u32),
                (2880u32, 1800u32),
                (3024u32, 1964u32),
                (3456u32, 2234u32),
                (3840u32, 2160u32),
                (5120u32, 2880u32),
                (750u32, 1334u32),
                (828u32, 1792u32),
                (1080u32, 1920u32),
                (1125u32, 2436u32),
                (1170u32, 2532u32),
                (1179u32, 2556u32),
                (1242u32, 2688u32),
                (1284u32, 2778u32),
                (1290u32, 2796u32),
                (1440u32, 3120u32),
            ];
            let (w, h) = (row.width->0, row.height->0);
            guess(row, lowered) == if screens.contains((w, h)) || screens.contains((h, w)) {
                MediaKind::Screenshot
            } else {
                MediaKind::Saved
            }
        }),
{
    let screens = seq![
        (1280u32, 720u32),
        (1366u32, 768u32),
        (1440u32, 900u32),
        (1600u32, 900u32),
        (1680u32, 1050u32),
        (1920u32, 1080u32),
        (1920u32, 1200u32),
        (2048u32, 1152u32),
        (2560u32, 1440u32),
        (2560u32, 1600u32),
        (2880u32, 1800u32),
        (3024u32, 1964u32),
        (3456u32, 2234u32),
        (3840u32, 2160u32),
        (5120u32, 2880u32),
        (750u32, 1334u32),
        (828u32, 1792u32),
        (1080u32, 1920u32),
        (1125u32, 2436u32),
        (1170u32, 2532u32),
        (1179u32, 2556u32),
        (1242u32, 2688u32),
        (1284u32, 2778u32),
        (1290u32, 2796u32),
        (1440u32, 3120u32),
    ];
    let (w, h) = (row.width->0, row.height->0);
    assert(SCREEN_SIZES@ =~= screens);
    if is_screen_size(w, h) {
        let i = choose|i: int|
            0 <= i < SCREEN_SIZES@.len() && (#[trigger] SCREEN_SIZES@[i] == (w, h)
                || SCREEN_SIZES@[i] == (h, w));
        assert(screens[i] == (w, h) || screens[i] == (h, w));
    }
    if screens.contains((w, h)) {
        let i = choose|i: int| 0 <= i < screens.len() && screens[i] == (w, h);
        assert(SCREEN_SIZES@[i] == (w, h));
    }
    if screens.contains((h, w)) {
        let i = choose|i: int| 0 <= i < screens.len() && screens[i] == (h, w);
        assert(SCREEN_SIZES@[i] == (h, w));
    }
}

/// What is stored for a kind is its word.
pub proof fn kinds_have_their_words()
    ensures
        kind_word(MediaKind::Photo) == "photo"@,
        kind_word(MediaKind::Screenshot) == "screenshot"@,
        kind_word(MediaKind::Saved) == "saved"@,
{
}

} // verus!
