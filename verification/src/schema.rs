//! The tables that a catalog is kept in, and what an older catalog lacks.
//!
//! Columns that came later are added in place, so that an existing catalog keeps what
//! was computed for it.
use vstd::prelude::*;

use crate::engine;
use crate::text::{push_text, str_eq};

verus! {

/// Makes the tables where there are none.
pub const TABLES: &'static str = "
    CREATE TABLE IF NOT EXISTS schema_meta (
        key   TEXT PRIMARY KEY,
        value INTEGER NOT NULL
    );

    CREATE TABLE IF NOT EXISTS media (
        id            INTEGER PRIMARY KEY,
        path          TEXT    NOT NULL UNIQUE,
        file_name     TEXT    NOT NULL,
        ext           TEXT    NOT NULL,
        size          INTEGER NOT NULL,
        mtime         INTEGER NOT NULL,
        date_taken    INTEGER,
        camera_make   TEXT,
        camera_model  TEXT,
        lens          TEXT,
        iso           TEXT,
        width         INTEGER,
        height        INTEGER,
        content_hash  TEXT,
        phash         INTEGER,
        missing       INTEGER NOT NULL DEFAULT 0
    );

    CREATE INDEX IF NOT EXISTS media_size_idx    ON media(size);
    CREATE INDEX IF NOT EXISTS media_hash_idx    ON media(content_hash);
    CREATE INDEX IF NOT EXISTS media_taken_idx   ON media(date_taken);
    CREATE INDEX IF NOT EXISTS media_missing_idx ON media(missing);

    CREATE TABLE IF NOT EXISTS quarantine (
        id              INTEGER PRIMARY KEY,
        batch           INTEGER NOT NULL,
        original_path   TEXT    NOT NULL,
        quarantine_path TEXT    NOT NULL,
        moved_at        INTEGER NOT NULL,
        restored        INTEGER NOT NULL DEFAULT 0
    );

    CREATE INDEX IF NOT EXISTS quarantine_batch_idx ON quarantine(batch);

    CREATE TABLE IF NOT EXISTS user_meta (
        content_hash TEXT PRIMARY KEY,
        hidden       INTEGER NOT NULL DEFAULT 0,
        rating       INTEGER NOT NULL DEFAULT 0,
        kind         TEXT,
        updated_at   INTEGER NOT NULL
    );
";

/// Makes the index over columns that came later.
pub const LATER_INDEX: &'static str = "CREATE INDEX IF NOT EXISTS media_geo_idx ON media(lat, lon);";

/// The columns that came later, in the order in which they came: the table, the column
/// and what it holds.
pub const LATER_COLUMNS: [(&'static str, &'static str, &'static str); 6] = [
    ("media", "dom_color", "INTEGER"),
    ("user_meta", "rating", "INTEGER NOT NULL DEFAULT 0"),
    ("user_meta", "kind", "TEXT"),
    ("media", "lat", "REAL"),
    ("media", "lon", "REAL"),
    ("media", "meta_version", "INTEGER NOT NULL DEFAULT 0"),
];

/// Whether a later column belongs to the user's table.
pub open spec fn is_for_user(i: int) -> bool {
    LATER_COLUMNS@[i].0@ == "user_meta"@
}

/// Whether a catalog has a later column, given the columns of its two tables.
pub open spec fn has_column(media: Seq<Seq<char>>, user_meta: Seq<Seq<char>>, i: int) -> bool {
    if is_for_user(i) {
        user_meta.contains(LATER_COLUMNS@[i].1@)
    } else {
        media.contains(LATER_COLUMNS@[i].1@)
    }
}

/// The statement that adds a later column.
pub open spec fn addition(i: int) -> Seq<char> {
    let (table, column, holds) = LATER_COLUMNS@[i];
    "ALTER TABLE "@ + table@ + " ADD COLUMN "@ + column@ + " "@ + holds@
}

/// The statements that add what a catalog lacks of the first `n` later columns.
pub open spec fn additions(media: Seq<Seq<char>>, user_meta: Seq<Seq<char>>, n: int) -> Seq<
    Seq<char>,
>
    decreases n,
{
    if n <= 0 {
        Seq::empty()
    } else if has_column(media, user_meta, n - 1) {
        additions(media, user_meta, n - 1)
    } else {
        additions(media, user_meta, n - 1).push(addition(n - 1))
    }
}

fn among(columns: &[String], column: &str) -> (r: bool)
    ensures
        r == engine::views(columns@).contains(column@),
{
    let mut i: usize = 0;
    while i < columns.len()
        invariant
            i <= columns@.len(),
            forall|k: int| 0 <= k < i ==> (#[trigger] columns@[k])@ != column@,
        decreases columns@.len() - i,
    {
        if str_eq(columns[i].as_str(), column) {
            assert(engine::views(columns@)[i as int] == column@);
            return true;
        }
        i += 1;
    }
    assert forall|k: int| 0 <= k < engine::views(columns@).len() implies engine::views(columns@)[k]
        != column@ by {
        assert(columns@[k]@ != column@);
    }
    false
}

/// The statements that bring a catalog's tables up to date, given the columns that they
/// have.
pub fn migration(media: &[String], user_meta: &[String]) -> (r: Vec<String>)
    ensures
        engine::views(r@) == additions(engine::views(media@), engine::views(user_meta@), 6),
{
    let ghost ms = engine::views(media@);
    let ghost us = engine::views(user_meta@);
    let later: [(&'static str, &'static str, &'static str); 6] = LATER_COLUMNS;
    let mut out: Vec<String> = Vec::new();
    let mut i: usize = 0;
    assert(engine::views(out@) =~= additions(ms, us, 0));
    while i < 6
        invariant
            ms == engine::views(media@),
            us == engine::views(user_meta@),
            later@ == LATER_COLUMNS@,
            i <= 6,
            engine::views(out@) == additions(ms, us, i as int),
        decreases 6 - i,
    {
        let ghost before = out@;
        let (table, column, holds) = later[i];
        assert(LATER_COLUMNS@[i as int] == (table, column, holds));
        let there: bool = if str_eq(table, "user_meta") {
            among(user_meta, column)
        } else {
            among(media, column)
        };
        if !there {
            let mut statement: String = String::new();
            push_text(&mut statement, "ALTER TABLE ");
            push_text(&mut statement, table);
            push_text(&mut statement, " ADD COLUMN ");
            push_text(&mut statement, column);
            push_text(&mut statement, " ");
            push_text(&mut statement, holds);
            assert(statement@ =~= addition(i as int));
            out.push(statement);
            assert(engine::views(out@) =~= engine::views(before).push(addition(i as int)));
        }
        i += 1;
    }
    out
}

/// A catalog with every later column is left as it is, so that bringing one up to date
/// again changes nothing.
pub proof fn complete_catalogs_are_left_alone(
    media: Seq<Seq<char>>,
    user_meta: Seq<Seq<char>>,
    n: int,
)
    requires
        n <= 6,
        forall|i: int| 0 <= i < 6 ==> #[trigger] has_column(media, user_meta, i),
    ensures
        additions(media, user_meta, n) == Seq::<Seq<char>>::empty(),
    decreases n,
{
    if n > 0 {
        assert(has_column(media, user_meta, n - 1));
        complete_catalogs_are_left_alone(media, user_meta, n - 1);
    }
}

/// Whatever later column a catalog lacks is added.
pub proof fn missing_columns_are_added(
    media: Seq<Seq<char>>,
    user_meta: Seq<Seq<char>>,
    n: int,
    i: int,
)
    requires
        0 <= i < n <= 6,
    ensures
        has_column(media, user_meta, i) || additions(media, user_meta, n).contains(addition(i)),
    decreases n,
{
    let before = additions(media, user_meta, n - 1);
    let now = additions(media, user_meta, n);
    if i == n - 1 {
        if !has_column(media, user_meta, i) {
            assert(now[before.len() as int] == addition(i));
        }
    } else {
        missing_columns_are_added(media, user_meta, n - 1, i);
        if before.contains(addition(i)) {
            let k = choose|k: int| 0 <= k < before.len() && before[k] == addition(i);
            assert(now[k] == addition(i));
        }
    }
}

/// What an older catalog lacks is added in the order in which it came: the colour, the
/// stars and the kind, the coordinates, and the version that read the metadata; what it
/// has is not.
pub proof fn later_columns_are_added_in_order(media: Seq<Seq<char>>, user_meta: Seq<Seq<char>>)
    requires
        !media.contains("dom_color"@) && !media.contains("lat"@) && !media.contains("lon"@)
            && !media.contains("meta_version"@),
        !user_meta.contains("rating"@) && !user_meta.contains("kind"@),
    ensures
        additions(media, user_meta, 6) == seq![addition(0), addition(1), addition(2), addition(3), addition(4), addition(5)],
        addition(0) == "ALTER TABLE "@ + "media"@ + " ADD COLUMN "@ + "dom_color"@ + " "@
            + "INTEGER"@,
        addition(1) == "ALTER TABLE "@ + "user_meta"@ + " ADD COLUMN "@ + "rating"@ + " "@
            + "INTEGER NOT NULL DEFAULT 0"@,
        addition(2) == "ALTER TABLE "@ + "user_meta"@ + " ADD COLUMN "@ + "kind"@ + " "@
            + "TEXT"@,
        addition(3) == "ALTER TABLE "@ + "media"@ + " ADD COLUMN "@ + "lat"@ + " "@ + "REAL"@,
        addition(4) == "ALTER TABLE "@ + "media"@ + " ADD COLUMN "@ + "lon"@ + " "@ + "REAL"@,
        addition(5) == "ALTER TABLE "@ + "media"@ + " ADD COLUMN "@ + "meta_version"@ + " "@
            + "INTEGER NOT NULL DEFAULT 0"@,
{
    reveal_with_fuel(additions, 7);
    reveal_strlit("media");
    reveal_strlit("user_meta");
    assert("media"@.len() == 5 && "user_meta"@.len() == 9);
    let l = LATER_COLUMNS@;
    assert(l[0] == ("media", "dom_color", "INTEGER"));
    assert(l[1] == ("user_meta", "rating", "INTEGER NOT NULL DEFAULT 0"));
    assert(l[2] == ("user_meta", "kind", "TEXT"));
    assert(l[3] == ("media", "lat", "REAL"));
    assert(l[4] == ("media", "lon", "REAL"));
    assert(l[5] == ("media", "meta_version", "INTEGER NOT NULL DEFAULT 0"));
    assert(additions(media, user_meta, 6) =~= seq![addition(0), addition(1), addition(2), addition(3), addition(4), addition(5)]);
}

} // verus!
