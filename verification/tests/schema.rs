//! The tables that a catalog is kept in.

use renamer::catalog::{Catalog, Entry, LedgerLine, MediaRow, UserMeta};
use renamer::schema::{migration, LATER_COLUMNS, LATER_INDEX, TABLES};
use rusqlite::Connection;

fn columns(conn: &Connection, table: &str) -> Vec<String> {
    let mut stmt = conn.prepare(&format!("PRAGMA table_info({table})")).unwrap();
    let names = stmt.query_map([], |r| r.get::<_, String>(1)).unwrap();
    names.map(|n| n.unwrap()).collect()
}

fn bring_up_to_date(conn: &Connection) -> usize {
    conn.execute_batch(TABLES).unwrap();
    let statements = migration(&columns(conn, "media"), &columns(conn, "user_meta"));
    for statement in &statements {
        conn.execute_batch(statement).unwrap();
    }
    conn.execute_batch(LATER_INDEX).unwrap();
    statements.len()
}

#[test]
fn a_new_catalog_has_every_column() {
    let conn = Connection::open_in_memory().unwrap();
    assert_eq!(bring_up_to_date(&conn), 4, "all but the two that new tables have");
    for (table, column, _) in LATER_COLUMNS {
        assert!(columns(&conn, table).iter().any(|c| c == column), "{table}.{column}");
    }
    assert_eq!(bring_up_to_date(&conn), 0, "a second time changes nothing");
}

#[test]
fn an_old_catalog_keeps_its_rows() {
    let conn = Connection::open_in_memory().unwrap();
    conn.execute_batch(
        "CREATE TABLE media (
            id INTEGER PRIMARY KEY, path TEXT NOT NULL UNIQUE, file_name TEXT NOT NULL,
            ext TEXT NOT NULL, size INTEGER NOT NULL, mtime INTEGER NOT NULL,
            date_taken INTEGER, camera_make TEXT, camera_model TEXT, lens TEXT, iso TEXT,
            width INTEGER, height INTEGER, content_hash TEXT, phash INTEGER,
            missing INTEGER NOT NULL DEFAULT 0);
         CREATE TABLE user_meta (
            content_hash TEXT PRIMARY KEY, hidden INTEGER NOT NULL DEFAULT 0,
            updated_at INTEGER NOT NULL);
         INSERT INTO media (path, file_name, ext, size, mtime, content_hash)
            VALUES ('/lib/old.jpg', 'old.jpg', 'jpg', 10, 1, 'kept');
         INSERT INTO user_meta (content_hash, hidden, updated_at) VALUES ('kept', 1, 0);",
    )
    .unwrap();
    assert_eq!(bring_up_to_date(&conn), 6);
    let (hash, colour, version): (String, Option<i64>, i64) = conn
        .query_row("SELECT content_hash, dom_color, meta_version FROM media", [], |r| {
            Ok((r.get(0)?, r.get(1)?, r.get(2)?))
        })
        .unwrap();
    assert_eq!((hash.as_str(), colour, version), ("kept", None, 0));
    let (hidden, rating): (i64, i64) = conn
        .query_row("SELECT hidden, rating FROM user_meta", [], |r| Ok((r.get(0)?, r.get(1)?)))
        .unwrap();
    assert_eq!((hidden, rating), (1, 0));
}

#[test]
fn statements_are_exact() {
    let media: Vec<String> =
        ["id", "dom_color", "lat"].iter().map(|c| c.to_string()).collect();
    let users: Vec<String> = ["kind"].iter().map(|c| c.to_string()).collect();
    assert_eq!(
        migration(&media, &users),
        vec![
            "ALTER TABLE user_meta ADD COLUMN rating INTEGER NOT NULL DEFAULT 0",
            "ALTER TABLE media ADD COLUMN lon REAL",
            "ALTER TABLE media ADD COLUMN meta_version INTEGER NOT NULL DEFAULT 0",
        ]
    );
}

fn entry(id: i64, path: &str) -> Entry {
    Entry {
        row: MediaRow { id, path: path.to_string(), ..MediaRow::default() },
        meta_version: 2,
    }
}

#[test]
fn stored_tables_are_taken_unless_they_contradict_themselves() {
    let line = |id: i64| LedgerLine {
        id,
        batch: 1,
        original_path: "/a".into(),
        quarantine_path: "/q/a".into(),
        restored: false,
    };
    let user = |hash: &str, rating: u8| UserMeta {
        content_hash: hash.to_string(),
        hidden: false,
        rating,
        kind: None,
    };
    let cat = Catalog::from_tables(
        vec![entry(1, "/a"), entry(2, "/b")],
        vec![user("h", 5)],
        vec![line(1), line(2)],
    )
    .unwrap();
    assert_eq!(cat.entries().len(), 2);
    assert_eq!(cat.user_records().len(), 1);
    assert_eq!(cat.ledger_lines().len(), 2);
    assert_eq!(cat.next_quarantine_batch(), 2);

    let of_media = |media| Catalog::from_tables(media, Vec::new(), Vec::new());
    assert!(of_media(vec![entry(1, "/a"), entry(1, "/b")]).is_none(), "same number");
    assert!(of_media(vec![entry(1, "/a"), entry(2, "/a")]).is_none(), "same path");
    let mut big = entry(1, "/a");
    big.row.size = u64::MAX;
    assert!(of_media(vec![big]).is_none(), "a size that cannot be stored");
    let of_users = |users| Catalog::from_tables(Vec::new(), users, Vec::new());
    assert!(of_users(vec![user("h", 1), user("h", 2)]).is_none(), "same contents");
    assert!(of_users(vec![user("h", 6)]).is_none(), "six stars");
    let of_lines = |lines| Catalog::from_tables(Vec::new(), Vec::new(), lines);
    assert!(of_lines(vec![line(1), line(1)]).is_none(), "same number");
}
