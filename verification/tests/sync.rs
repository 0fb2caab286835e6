//! Replicas over in-memory SQLite: tracking, merging, convergence, adoption and audit.
//!
//! Each operation is driven to its end by running the statements that it asks for.
#![allow(dead_code)]

use std::collections::BTreeMap;

use recrr::backends::SqliteDb;
use recrr::flow::{Halt, Journal, Reply, Step};
use recrr::json::Json;
use recrr::merge::Merge;
use recrr::schema::SENTINEL;
use recrr::tracking::Export;
use recrr::value::Real;
use recrr::{
    ChangeRow, Crr, Error, MergeResult, PkSpec, Row, Schema, SkeletonValue, TableSpec, Value,
};

// --- the driver ----------------------------------------------------------------

fn to_sqlite(v: &Value) -> rusqlite::types::Value {
    match v {
        Value::Null => rusqlite::types::Value::Null,
        Value::Integer(i) => rusqlite::types::Value::Integer(*i),
        Value::Real(r) => rusqlite::types::Value::Real(f64::from_bits(r.bits)),
        Value::Text(s) => rusqlite::types::Value::Text(s.clone()),
        Value::Blob(b) => rusqlite::types::Value::Blob(b.clone()),
    }
}

fn from_sqlite(v: rusqlite::types::Value) -> Value {
    match v {
        rusqlite::types::Value::Null => Value::Null,
        rusqlite::types::Value::Integer(i) => Value::Integer(i),
        rusqlite::types::Value::Real(f) => Value::Real(Real {
            bits: f.to_bits(),
            json: serde_json::Number::from_f64(f).map(|n| n.to_string()),
        }),
        rusqlite::types::Value::Text(s) => Value::Text(s),
        rusqlite::types::Value::Blob(b) => Value::Blob(b),
    }
}

fn execute(db: &SqliteDb, sql: &str, params: Vec<Value>) -> Result<u64, Error> {
    let bound: Vec<rusqlite::types::Value> = params.iter().map(to_sqlite).collect();
    match db
        .connection()
        .execute(sql, rusqlite::params_from_iter(bound.iter()))
    {
        Ok(n) => Ok(n as u64),
        Err(e) => Err(Error::Backend(e.to_string())),
    }
}

fn read_rows(
    db: &SqliteDb,
    sql: &str,
    params: Vec<Value>,
) -> Result<Vec<Row>, rusqlite::Error> {
    let bound: Vec<rusqlite::types::Value> = params.iter().map(to_sqlite).collect();
    let mut stmt = db.connection().prepare_cached(sql)?;
    let count = stmt.column_count();
    let mut rows = stmt.query(rusqlite::params_from_iter(bound.iter()))?;
    let mut out = Vec::new();
    while let Some(row) = rows.next()? {
        let mut values = Vec::new();
        for i in 0..count {
            values.push(from_sqlite(row.get(i)?));
        }
        out.push(Row(values));
    }
    Ok(out)
}

fn query(db: &SqliteDb, sql: &str, params: Vec<Value>) -> Result<Vec<Row>, Error> {
    read_rows(db, sql, params).map_err(|e| Error::Backend(e.to_string()))
}

fn answer(db: &SqliteDb, halt: Halt) -> Reply {
    match halt {
        Halt::Ask(statement) => {
            let (sql, params) = (statement.sql(), statement.params());
            let outcome = if statement.is_query() {
                query(db, &sql, params)
            } else {
                execute(db, &sql, params).map(|_| Vec::new())
            };
            match outcome {
                Ok(rows) => Reply::Rows(rows),
                Err(error) => Reply::Failed(error),
            }
        }
        Halt::Fault => panic!("a counter left its range"),
    }
}

fn drive<T>(
    crr: &Crr<SqliteDb>,
    mut operation: impl FnMut(&mut Journal) -> Result<T, Halt>,
) -> T {
    let mut j = Journal::new();
    loop {
        match operation(&mut j) {
            Ok(value) => return value,
            Err(halt) => j.answer(answer(crr.db(), halt)),
        }
    }
}

fn succeed<T>(crr: &Crr<SqliteDb>, operation: impl FnMut(&mut Journal) -> Step<T>) -> T {
    drive(crr, operation).unwrap()
}

// --- the application -----------------------------------------------------------

const APP_SCHEMA_STMTS: &[&str] = &[
    // `notes` exists in the real table from the start but is only backfilled once a device runs
    // `migrate_add_notes`.
    "CREATE TABLE papers (
        id TEXT PRIMARY KEY,
        title TEXT NOT NULL,
        authors TEXT NOT NULL,
        is_favorite INTEGER NOT NULL,
        is_read INTEGER NOT NULL,
        date_added TEXT NOT NULL,
        date_modified TEXT NOT NULL,
        citation_count INTEGER,
        cover BLOB,
        notes TEXT NOT NULL DEFAULT ''
    )",
    "CREATE TABLE collections (
        id TEXT PRIMARY KEY,
        name TEXT NOT NULL,
        parent_id TEXT,
        position INTEGER NOT NULL
    )",
    "CREATE TABLE paper_collections (
        paper_id TEXT NOT NULL,
        collection_id TEXT NOT NULL,
        PRIMARY KEY (paper_id, collection_id)
    )",
];

/// The tracked columns that an insert of a paper writes.
const PAPER_COLS: &[&str] = &[
    "title",
    "authors",
    "is_favorite",
    "is_read",
    "date_added",
    "date_modified",
    "citation_count",
    "cover",
];

const COLLECTION_COLS: &[&str] = &["name", "parent_id", "position"];

fn text(s: &str) -> Value {
    Value::Text(s.to_string())
}

fn test_schema() -> Schema {
    let literal = |s: &str| SkeletonValue::Literal(text(s));
    Schema::new(vec![
        TableSpec::new(
            "papers",
            &[
                "title",
                "authors",
                "is_favorite",
                "is_read",
                "date_added",
                "date_modified",
                "citation_count",
                "cover",
                "notes",
            ],
        )
        .with_skeleton(vec![
            ("title", literal("")),
            ("authors", literal("[]")),
            ("is_favorite", SkeletonValue::Literal(Value::Integer(0))),
            ("is_read", SkeletonValue::Literal(Value::Integer(0))),
            ("date_added", SkeletonValue::NowRfc3339),
            ("date_modified", SkeletonValue::NowRfc3339),
        ]),
        TableSpec::new("collections", COLLECTION_COLS).with_skeleton(vec![
            ("name", literal("")),
            ("position", SkeletonValue::Literal(Value::Integer(0))),
        ]),
        TableSpec::new("paper_collections", &[]).with_pk(PkSpec::composite(
            "paper_id",
            "collection_id",
            ':',
        )),
    ])
}

/// One replica: its own in-memory database and handle.
struct Device {
    crr: Crr<SqliteDb>,
}

impl Device {
    fn new() -> Self {
        let db = SqliteDb::in_memory().unwrap();
        for stmt in APP_SCHEMA_STMTS {
            execute(&db, stmt, vec![]).unwrap();
        }
        let crr = Crr::new(db, test_schema());
        succeed(&crr, |j| crr.init(j));
        Self { crr }
    }

    fn run(&self, sql: &str, params: Vec<Value>) {
        execute(self.crr.db(), sql, params).unwrap();
    }

    fn rows(&self, sql: &str, params: Vec<Value>) -> Vec<Row> {
        query(self.crr.db(), sql, params).unwrap()
    }

    fn track_insert(&self, table: &str, pk: &str, columns: &[&str]) {
        succeed(&self.crr, |j| self.crr.track_insert(j, table, pk, columns));
    }

    fn track_update(&self, table: &str, pk: &str, columns: &[&str]) {
        succeed(&self.crr, |j| self.crr.track_update(j, table, pk, columns));
    }

    fn track_delete(&self, table: &str, pk: &str) {
        succeed(&self.crr, |j| self.crr.track_delete(j, table, pk));
    }

    fn track_adopt(&self, table: &str, pk: &str, columns: &[&str]) {
        succeed(&self.crr, |j| self.crr.track_adopt(j, table, pk, columns));
    }

    fn insert_paper(&self, id: &str, title: &str) {
        let now = "2026-01-01T00:00:00Z";
        self.run(
            "INSERT INTO papers (id, title, authors, is_favorite, is_read, date_added, date_modified) \
             VALUES (?1, ?2, '[]', 0, 0, ?3, ?3)",
            vec![text(id), text(title), text(now)],
        );
        self.track_insert("papers", id, PAPER_COLS);
    }

    fn set_paper(&self, id: &str, column: &str, value: Value) {
        self.run(
            &format!("UPDATE papers SET {column} = ?1 WHERE id = ?2"),
            vec![value, text(id)],
        );
        self.track_update("papers", id, &[column]);
    }

    fn set_title(&self, id: &str, title: &str) {
        self.set_paper(id, "title", text(title));
    }

    fn set_favorite(&self, id: &str, fav: bool) {
        self.set_paper(id, "is_favorite", Value::Integer(fav as i64));
    }

    fn set_cover(&self, id: &str, bytes: &[u8]) {
        self.set_paper(id, "cover", Value::Blob(bytes.to_vec()));
    }

    fn migrate_add_notes(&self) {
        succeed(&self.crr, |j| {
            self.crr.migrate_add_column(j, "papers", "notes")
        });
    }

    fn delete_paper(&self, id: &str) {
        self.run("DELETE FROM papers WHERE id = ?1", vec![text(id)]);
        self.track_delete("papers", id);
    }

    /// A paper's title, or `None` if the row is gone.
    fn title(&self, id: &str) -> Option<String> {
        self.rows("SELECT title FROM papers WHERE id = ?1", vec![text(id)])
            .first()
            .map(|r| r.get(0).text_or_empty())
    }

    fn cover(&self, id: &str) -> Option<Vec<u8>> {
        self.rows("SELECT cover FROM papers WHERE id = ?1", vec![text(id)])
            .first()
            .and_then(|r| r.get(0).as_blob().map(|b| b.to_vec()))
    }

    fn paper_exists(&self, id: &str) -> bool {
        self.title(id).is_some()
    }

    fn insert_collection(&self, id: &str, name: &str) {
        self.run(
            "INSERT INTO collections (id, name, position) VALUES (?1, ?2, 0)",
            vec![text(id), text(name)],
        );
        self.track_insert("collections", id, COLLECTION_COLS);
    }

    fn set_collection_name(&self, id: &str, name: &str) {
        self.run(
            "UPDATE collections SET name = ?1 WHERE id = ?2",
            vec![text(name), text(id)],
        );
        self.track_update("collections", id, &["name"]);
    }

    fn delete_collection(&self, id: &str) {
        self.run("DELETE FROM collections WHERE id = ?1", vec![text(id)]);
        self.track_delete("collections", id);
    }

    fn collection_exists(&self, id: &str) -> bool {
        !self
            .rows("SELECT 1 FROM collections WHERE id = ?1", vec![text(id)])
            .is_empty()
    }

    /// Links a paper to a collection without tracking it: the row commits and the clock never
    /// learns about it.
    fn link_untracked(&self, paper: &str, collection: &str) {
        self.run(
            "INSERT INTO paper_collections (paper_id, collection_id) VALUES (?1, ?2)",
            vec![text(paper), text(collection)],
        );
    }

    fn link(&self, paper: &str, collection: &str) {
        self.link_untracked(paper, collection);
        self.track_insert("paper_collections", &format!("{paper}:{collection}"), &[]);
    }

    fn unlink(&self, paper: &str, collection: &str) {
        self.run(
            "DELETE FROM paper_collections WHERE paper_id = ?1 AND collection_id = ?2",
            vec![text(paper), text(collection)],
        );
        self.track_delete("paper_collections", &format!("{paper}:{collection}"));
    }

    fn adopt_link(&self, paper: &str, collection: &str) {
        self.track_adopt("paper_collections", &format!("{paper}:{collection}"), &[]);
    }

    fn link_exists(&self, paper: &str, collection: &str) -> bool {
        !self
            .rows(
                "SELECT 1 FROM paper_collections WHERE paper_id = ?1 AND collection_id = ?2",
                vec![text(paper), text(collection)],
            )
            .is_empty()
    }

    /// The sentinel clock for a link, or 0 when absent. Odd means alive, even means deleted.
    fn link_sentinel(&self, paper: &str, collection: &str) -> i64 {
        self.rows(
            "SELECT col_ver FROM paper_collections__crr_clock \
             WHERE pk = ?1 AND col_name = '__sentinel'",
            vec![text(&format!("{paper}:{collection}"))],
        )
        .first()
        .map(|r| r.get(0).integer_or(0))
        .unwrap_or(0)
    }

    /// The `col_ver` of a tracked column on a paper, or 0 when absent.
    fn paper_col_ver(&self, id: &str, col: &str) -> i64 {
        self.rows(
            "SELECT col_ver FROM papers__crr_clock WHERE pk = ?1 AND col_name = ?2",
            vec![text(id), text(col)],
        )
        .first()
        .map(|r| r.get(0).integer_or(0))
        .unwrap_or(0)
    }

    fn current_db_version(&self) -> i64 {
        succeed(&self.crr, |j| self.crr.current_db_version(j))
    }

    fn changes_since(&self, since: i64) -> Vec<ChangeRow> {
        let mut export = Export::new();
        succeed(&self.crr, |j| {
            self.crr.resume_export(&mut export, j, since)
        })
    }

    fn changes(&self) -> Vec<ChangeRow> {
        self.changes_since(0)
    }

    fn apply(&self, changes: &[ChangeRow]) -> MergeResult {
        let mut merge = Merge::new();
        succeed(&self.crr, |j| {
            self.crr.resume_merge(&mut merge, j, changes)
        })
    }

    fn untracked_rows(&self, table: &str) -> Vec<String> {
        succeed(&self.crr, |j| self.crr.untracked_rows(j, table))
    }

    fn debug_assert_all_tracked(&self, table: &str) {
        let complaint = succeed(&self.crr, |j| self.crr.debug_assert_all_tracked(j, table));
        if let Some(complaint) = complaint {
            panic!("{complaint}");
        }
    }
}

/// One-way sync: apply every change from `src` into `dst`.
fn sync(src: &Device, dst: &Device) {
    dst.apply(&src.changes());
}

/// One-way lossy sync: deliver only those changes, by index, that `keep` says.
fn sync_lossy(src: &Device, dst: &Device, keep: impl Fn(usize) -> bool) {
    let subset: Vec<ChangeRow> = src
        .changes()
        .into_iter()
        .enumerate()
        .filter(|(i, _)| keep(*i))
        .map(|(_, c)| c)
        .collect();
    dst.apply(&subset);
}

// --- convergence ---------------------------------------------------------------

#[test]
fn insert_tracks_sentinel_and_columns() {
    let d = Device::new();
    d.insert_paper("p1", "Test");

    let changes = d.changes();
    let paper: Vec<_> = changes
        .iter()
        .filter(|c| c.table_name == "papers")
        .collect();
    assert!(paper.len() > 1, "sentinel + column entries expected");

    let sentinel = paper.iter().find(|c| c.col_name == "__sentinel").unwrap();
    assert_eq!(sentinel.cl, 1, "alive sentinel has CL=1");
}

#[test]
fn update_increments_col_ver() {
    let d = Device::new();
    d.insert_paper("p1", "A");
    let v1 = d.current_db_version();

    d.set_favorite("p1", true);
    let v2 = d.current_db_version();
    assert!(v2 > v1, "db_version advances on update");

    let changes = d.changes_since(v1);
    let fav = changes
        .iter()
        .find(|c| c.col_name == "is_favorite")
        .unwrap();
    assert_eq!(fav.col_ver, 2, "col_ver is 2 after one update");
}

#[test]
fn delete_sets_even_cl() {
    let d = Device::new();
    d.insert_paper("p1", "Doomed");
    d.delete_paper("p1");

    let changes = d.changes();
    let sentinel = changes
        .iter()
        .find(|c| c.table_name == "papers" && c.col_name == "__sentinel")
        .unwrap();
    assert_eq!(sentinel.cl, 2, "deleted sentinel has even CL");
}

#[test]
fn two_device_sync_propagates_insert_and_update() {
    let a = Device::new();
    let b = Device::new();

    a.insert_paper("p1", "Shared Paper");
    a.set_favorite("p1", true);

    sync(&a, &b);

    assert_eq!(b.title("p1").as_deref(), Some("Shared Paper"));
    let fav = b.rows(
        "SELECT is_favorite FROM papers WHERE id = ?1",
        vec![text("p1")],
    );
    assert_eq!(fav[0].get(0).as_integer(), Some(1));
}

#[test]
fn lww_tie_break_higher_value_wins() {
    let a = Device::new();
    let b = Device::new();

    // Same row on both, same starting title.
    a.insert_paper("p1", "Original");
    b.insert_paper("p1", "Original");

    // Concurrent edits: both bump title to col_ver 2.
    a.set_title("p1", "Title from A");
    b.set_title("p1", "Title from B");

    // Apply A into B. Equal col_ver -> higher value wins. "B" > "A".
    sync(&a, &b);
    assert_eq!(b.title("p1").as_deref(), Some("Title from B"));

    // Symmetric: apply B into A -> A also converges to "Title from B".
    sync(&b, &a);
    assert_eq!(a.title("p1").as_deref(), Some("Title from B"));
}

#[test]
fn delete_beats_concurrent_edit() {
    let a = Device::new();
    let b = Device::new();

    a.insert_paper("p1", "X");
    sync(&a, &b);

    // A deletes; B edits concurrently.
    a.delete_paper("p1");
    b.set_title("p1", "edited on B");

    // Cross-sync both ways -> both converge to deleted.
    sync(&a, &b);
    sync(&b, &a);

    assert!(!a.paper_exists("p1"), "A: deleted");
    assert!(!b.paper_exists("p1"), "B: delete wins over concurrent edit");
}

#[test]
fn apply_is_idempotent() {
    let a = Device::new();
    let b = Device::new();

    a.insert_paper("p1", "Once");
    a.set_title("p1", "Twice");
    let changes = a.changes();

    let r1 = b.apply(&changes);
    assert!(r1.applied > 0);
    let r2 = b.apply(&changes);
    assert_eq!(
        r2.applied, 0,
        "re-applying the same changes applies nothing"
    );
    assert_eq!(b.title("p1").as_deref(), Some("Twice"));
}

#[test]
fn resurrect_after_delete() {
    let a = Device::new();
    let b = Device::new();

    a.insert_paper("p1", "Alive");
    sync(&a, &b);

    // A deletes (sentinel CL=2), B applies -> deleted on B.
    a.delete_paper("p1");
    sync(&a, &b);
    assert!(!b.paper_exists("p1"), "B sees delete");

    // Resurrect: a peer re-creates the row after seeing the delete, emitting a higher odd CL
    // (3 = alive).
    let site = vec![9u8; 16];
    let resurrect = vec![
        ChangeRow {
            table_name: "papers".into(),
            pk: "p1".into(),
            col_name: "__sentinel".into(),
            col_val: Json::Null,
            col_ver: 3,
            db_ver: 999,
            site_id: site.clone(),
            seq: 0,
            cl: 3,
        },
        ChangeRow {
            table_name: "papers".into(),
            pk: "p1".into(),
            col_name: "title".into(),
            col_val: Json::Text("Reborn".into()),
            col_ver: 3,
            db_ver: 999,
            site_id: site,
            seq: 1,
            cl: 3,
        },
    ];
    let result = b.apply(&resurrect);
    assert!(result.applied > 0, "resurrect applied");
    assert_eq!(
        b.title("p1").as_deref(),
        Some("Reborn"),
        "resurrect brings the row back with new value"
    );
}

#[test]
fn column_before_sentinel_out_of_order() {
    let a = Device::new();
    let b = Device::new();

    a.insert_paper("p1", "Ordered");
    a.set_title("p1", "New Title");

    // Feed B only the non-sentinel column changes first, then the rest.
    let all = a.changes();
    let (cols, sentinels): (Vec<_>, Vec<_>) =
        all.into_iter().partition(|c| c.col_name != "__sentinel");
    b.apply(&cols); // columns arrive with no local sentinel yet
    b.apply(&sentinels);

    assert_eq!(b.title("p1").as_deref(), Some("New Title"));
}

#[test]
fn composite_key_junction_syncs() {
    let a = Device::new();
    let b = Device::new();

    // Link paper p1 to collection c1 in the junction table.
    a.run(
        "INSERT INTO paper_collections (paper_id, collection_id) VALUES ('p1','c1')",
        vec![],
    );
    a.track_insert("paper_collections", "p1:c1", &[]);

    sync(&a, &b);

    let rows = b.rows(
        "SELECT paper_id, collection_id FROM paper_collections",
        vec![],
    );
    assert_eq!(rows.len(), 1);
    assert_eq!(rows[0].get(0).as_text(), Some("p1"));
    assert_eq!(rows[0].get(1).as_text(), Some("c1"));
}

#[test]
fn blob_column_round_trips() {
    let a = Device::new();
    let b = Device::new();

    a.insert_paper("p1", "With Cover");
    let cover = vec![0u8, 1, 2, 255, 128, 0, 42];
    a.set_cover("p1", &cover);

    sync(&a, &b);

    assert_eq!(
        b.cover("p1"),
        Some(cover),
        "blob survives the JSON changeset round-trip byte-for-byte"
    );
}

#[test]
fn three_device_convergence() {
    let a = Device::new();
    let b = Device::new();
    let c = Device::new();

    a.insert_paper("p1", "Start");
    a.set_title("p1", "aaa");
    b.insert_paper("p1", "Start");
    b.set_title("p1", "bbb");
    c.insert_paper("p1", "Start");
    c.set_title("p1", "ccc");

    // Gossip every pair both directions, twice, to settle.
    for _ in 0..2 {
        sync(&a, &b);
        sync(&b, &c);
        sync(&c, &a);
        sync(&a, &c);
        sync(&c, &b);
        sync(&b, &a);
    }

    let ta = a.title("p1");
    let tb = b.title("p1");
    let tc = c.title("p1");
    assert_eq!(ta, tb);
    assert_eq!(tb, tc);
    assert_eq!(
        ta.as_deref(),
        Some("ccc"),
        "highest value wins across all three"
    );
}

/// A row that is inserted and then deleted before its first sync must not resurrect as a blank
/// skeleton on a peer.
#[test]
fn insert_then_delete_before_sync_does_not_resurrect() {
    let a = Device::new();
    let b = Device::new();

    // A creates a paper and deletes it, all before ever syncing.
    a.insert_paper("p1", "Ephemeral");
    a.delete_paper("p1");

    // A's whole history is one changeset. B applies it.
    sync(&a, &b);

    assert!(
        !b.paper_exists("p1"),
        "peer must not resurrect a row that was deleted before its first sync"
    );
}

// --- adoption ------------------------------------------------------------------

/// The plain case: a row that was never tracked at all becomes syncable.
#[test]
fn an_untracked_row_reaches_a_peer_after_adoption() {
    let a = Device::new();
    let b = Device::new();

    a.insert_paper("p1", "Paper");
    a.insert_collection("c1", "Collection");
    a.link_untracked("p1", "c1");

    // Before adoption the link is real locally but invisible to the clock.
    assert!(a.link_exists("p1", "c1"));
    assert_eq!(a.link_sentinel("p1", "c1"), 0);

    a.adopt_link("p1", "c1");
    sync(&a, &b);

    assert!(
        b.link_exists("p1", "c1"),
        "an adopted row must materialize on the peer"
    );
}

/// A deleted row's sentinel stays in place, so a row that is re-created has a clock entry that
/// still reads as deleted.
#[test]
fn a_re_added_row_is_adopted_rather_than_read_as_deleted() {
    let a = Device::new();
    let b = Device::new();

    a.insert_paper("p1", "Paper");
    a.insert_collection("c1", "Collection");

    // Attach, then detach: the sentinel is now even (deleted).
    a.link("p1", "c1");
    a.unlink("p1", "c1");
    let after_delete = a.link_sentinel("p1", "c1");
    assert_eq!(after_delete % 2, 0, "a deleted row's sentinel must be even");

    // Re-attached without tracking: the row commits, the clock does not move.
    a.link_untracked("p1", "c1");

    a.adopt_link("p1", "c1");

    let after_adopt = a.link_sentinel("p1", "c1");
    assert_eq!(
        after_adopt % 2,
        1,
        "adoption must leave the row alive, got sentinel {after_adopt}"
    );
    assert!(
        after_adopt > after_delete,
        "the sentinel must advance past the delete ({after_delete}), got {after_adopt}"
    );

    sync(&a, &b);
    assert!(
        b.link_exists("p1", "c1"),
        "the re-added row must reach the peer alive, not as a delete"
    );
}

/// Adoption must not disturb a row that is already tracked and alive.
#[test]
fn adopting_a_live_row_preserves_its_versions() {
    let a = Device::new();

    a.insert_paper("p1", "First");
    a.set_title("p1", "Second");

    let before = a.paper_col_ver("p1", "title");
    assert!(before >= 2, "an edited column must be past 1, got {before}");

    a.track_adopt("papers", "p1", &["title"]);

    assert_eq!(
        a.paper_col_ver("p1", "title"),
        before,
        "adopting a live row must not rewind its column versions"
    );
}

/// A newer edit on a peer must still win after the local row was adopted.
#[test]
fn a_peer_edit_beats_an_adopted_value() {
    let a = Device::new();
    let b = Device::new();

    a.insert_paper("p1", "Original");
    sync(&a, &b);

    // B makes a genuine edit.
    b.set_title("p1", "Edited on B");

    // A adopts the same row (as the repair pass would).
    a.track_adopt("papers", "p1", &["title"]);

    sync(&b, &a);

    assert_eq!(
        a.title("p1").as_deref(),
        Some("Edited on B"),
        "a real later edit must survive the repair"
    );
}

/// Adoption is idempotent, so a repair pass that runs twice cannot corrupt.
#[test]
fn adopting_twice_is_the_same_as_adopting_once() {
    let a = Device::new();
    let b = Device::new();

    a.insert_paper("p1", "Paper");
    a.insert_collection("c1", "Collection");
    a.link_untracked("p1", "c1");

    a.adopt_link("p1", "c1");
    let once = a.link_sentinel("p1", "c1");

    a.adopt_link("p1", "c1");
    assert_eq!(
        a.link_sentinel("p1", "c1"),
        once,
        "a second adoption must not move the sentinel"
    );

    sync(&a, &b);
    assert!(b.link_exists("p1", "c1"));
}

/// A row deleted on a peer must stay deleted: adoption repairs untracked rows, it must not
/// resurrect ones that were legitimately removed elsewhere.
#[test]
fn adoption_does_not_resurrect_a_peer_delete() {
    let a = Device::new();
    let b = Device::new();

    a.insert_paper("p1", "Paper");
    a.insert_collection("c1", "Collection");
    a.link("p1", "c1");
    sync(&a, &b);
    assert!(b.link_exists("p1", "c1"));

    // B removes the link and A learns about it.
    b.unlink("p1", "c1");
    sync(&b, &a);
    assert!(!a.link_exists("p1", "c1"));

    // The row is gone from the table; adopting it explicitly must not bring it back, locally or
    // for the peer.
    a.adopt_link("p1", "c1");

    let sentinel = a.link_sentinel("p1", "c1");
    assert_eq!(
        sentinel % 2,
        0,
        "an absent row's sentinel must stay even (deleted), got {sentinel}"
    );

    sync(&a, &b);

    assert!(
        !b.link_exists("p1", "c1"),
        "a legitimately deleted row must not be resurrected by the repair"
    );
    assert!(
        !a.link_exists("p1", "c1"),
        "the row must stay deleted locally too"
    );
}

// --- audit ---------------------------------------------------------------------

const GHOST: &str =
    "INSERT INTO papers (id, title, authors, is_favorite, is_read, date_added, date_modified) \
     VALUES ('ghost', 'X', '[]', 0, 0, '2026-01-01T00:00:00Z', '2026-01-01T00:00:00Z')";

#[test]
fn tracked_rows_are_not_reported() {
    let dev = Device::new();
    dev.insert_paper("p1", "A"); // insert + track_insert
    let untracked = dev.untracked_rows("papers");
    assert!(untracked.is_empty(), "a properly tracked row is clean");
    dev.debug_assert_all_tracked("papers");
}

#[test]
fn a_row_inserted_without_tracking_is_reported() {
    let dev = Device::new();
    // Raw INSERT with no track_insert.
    dev.run(GHOST, vec![]);

    let untracked = dev.untracked_rows("papers");
    assert_eq!(untracked, vec!["ghost".to_string()]);
}

#[test]
#[should_panic(expected = "untracked row")]
fn debug_assert_panics_on_untracked_row() {
    let dev = Device::new();
    dev.run(GHOST, vec![]);
    dev.debug_assert_all_tracked("papers");
}

#[test]
fn the_complaint_lists_the_untracked_keys() {
    let dev = Device::new();
    dev.link_untracked("p1", "c1");
    dev.link_untracked("p\"2", "c2");
    let complaint = succeed(&dev.crr, |j| {
        dev.crr.debug_assert_all_tracked(j, "paper_collections")
    });
    assert_eq!(
        complaint.as_deref(),
        Some(
            "recrr: 2 untracked row(s) in `paper_collections` (missing a track_* call): \
             [\"p1:c1\", \"p\\\"2:c2\"]"
        )
    );
}

#[test]
fn deleted_rows_do_not_count_as_untracked() {
    let dev = Device::new();
    dev.insert_paper("p1", "A");
    dev.delete_paper("p1"); // real row gone, sentinel even (dead)
    let untracked = dev.untracked_rows("papers");
    assert!(
        untracked.is_empty(),
        "a deleted row is absent from the real table, so nothing is untracked"
    );
}

#[test]
fn composite_pk_rows_are_audited() {
    let dev = Device::new();
    // Tracked link.
    dev.link("p1", "c1");
    assert!(dev.untracked_rows("paper_collections").is_empty());

    // Untracked raw insert into the junction table.
    dev.run(
        "INSERT INTO paper_collections (paper_id, collection_id) VALUES ('p2', 'c2')",
        vec![],
    );
    let untracked = dev.untracked_rows("paper_collections");
    assert_eq!(untracked, vec!["p2:c2".to_string()]);
}

#[test]
fn an_unknown_table_has_nothing_untracked() {
    let dev = Device::new();
    assert!(dev.untracked_rows("nowhere").is_empty());
    dev.debug_assert_all_tracked("nowhere");
}

// --- state ---------------------------------------------------------------------

#[test]
fn the_site_has_one_identity() {
    let a = Device::new();
    let b = Device::new();
    let site = succeed(&a.crr, |j| a.crr.site_id(j));
    assert_eq!(site.len(), 16);
    assert_eq!(succeed(&a.crr, |j| a.crr.site_id(j)), site);
    succeed(&a.crr, |j| a.crr.init(j));
    assert_eq!(succeed(&a.crr, |j| a.crr.site_id(j)), site);
    assert_ne!(succeed(&b.crr, |j| b.crr.site_id(j)), site);
}

/// The rows of all bookkeeping tables.
fn bookkeeping(d: &Device) -> Vec<Vec<Vec<Value>>> {
    let tables = d.rows(
        "SELECT name FROM sqlite_master WHERE type = 'table' \
         AND (name LIKE 'crr!_%' ESCAPE '!' OR name LIKE '%!_!_crr!_clock' ESCAPE '!') \
         ORDER BY name",
        vec![],
    );
    tables
        .iter()
        .map(|row| whole_rows(d, &row.get(0).text_or_empty()))
        .collect()
}

#[test]
fn a_new_database_is_set_up() {
    let d = Device::new();
    assert_eq!(succeed(&d.crr, |j| d.crr.site_id(j)).len(), 16);
    assert_eq!(d.current_db_version(), 0);
    for table in ["papers", "collections", "paper_collections"] {
        assert!(whole_rows(&d, &format!("{table}__crr_clock")).is_empty());
        assert!(whole_rows(&d, table).is_empty());
    }
    assert!(d.changes().is_empty());
}

#[test]
fn setting_up_again_changes_nothing() {
    let d = Device::new();
    d.insert_paper("p1", "T");
    d.set_title("p1", "U");
    d.link("p1", "c1");
    d.delete_paper("p1");
    d.migrate_add_notes();
    d.apply(&[change("papers", "p2", "title", Json::Text("V".into()), 1, 1)]);
    let before = bookkeeping(&d);
    assert!(before.len() >= 6, "the bookkeeping tables are there");
    let papers = whole_rows(&d, "papers");
    succeed(&d.crr, |j| d.crr.init(j));
    assert_eq!(bookkeeping(&d), before);
    assert_eq!(whole_rows(&d, "papers"), papers);
}

#[test]
fn adopting_again_changes_nothing_whatever_is_listed() {
    let d = Device::new();
    d.insert_collection("c1", "one");
    d.delete_collection("c1");
    // Clock entries are kept by the text of a table's name alone.
    d.run(
        "CREATE TABLE stray__crr_clock AS SELECT * FROM papers__crr_clock WHERE 0",
        vec![],
    );
    d.run("CREATE UNIQUE INDEX stray_keys ON stray__crr_clock (pk, col_name)", vec![]);
    for (table, pk, columns) in [
        ("collections", "c1", vec!["name", SENTINEL]),
        ("collections", "c1", vec![SENTINEL, "name", "name"]),
        ("collections", "c7", vec!["unheard_of"]),
        ("paper_collections", "no separator", vec![]),
        ("stray", "s1", vec!["a"]),
    ] {
        d.track_adopt(table, pk, &columns);
        let once = bookkeeping(&d);
        d.track_adopt(table, pk, &columns);
        assert_eq!(bookkeeping(&d), once, "{table} {pk} {columns:?}");
    }
}

#[test]
fn a_table_that_is_listed_twice_tells_each_time() {
    let d = Device::new();
    d.insert_collection("c1", "one");
    let first = d.current_db_version();
    d.set_collection_name("c1", "uno");
    let twice = Crr::new(
        d.crr.db(),
        Schema::new(vec![
            TableSpec::new("collections", COLLECTION_COLS),
            TableSpec::new("collections", COLLECTION_COLS),
        ]),
    );
    let told = |since: i64| {
        let mut j = Journal::new();
        loop {
            match twice.changes_since(&mut j, since) {
                Ok(changes) => return changes.unwrap(),
                Err(halt) => j.answer(answer(d.crr.db(), halt)),
            }
        }
    };
    let key = |c: &ChangeRow| (c.col_name.clone(), c.db_ver);
    let mut rest: Vec<_> = told(0).iter().map(key).filter(|c| c.1 > first).collect();
    let mut later: Vec<_> = told(first).iter().map(key).collect();
    rest.sort();
    later.sort();
    assert_eq!(rest, later);
    assert_eq!(later, vec![("name".to_string(), first + 1); 2]);
}

#[test]
fn adding_a_column_raises_the_version_only_for_living_rows() {
    let d = Device::new();
    d.migrate_add_notes();
    assert_eq!(d.current_db_version(), 0);
    d.insert_paper("p1", "T");
    d.delete_paper("p1");
    let version = d.current_db_version();
    d.migrate_add_notes();
    assert_eq!(d.current_db_version(), version);
    d.insert_paper("p2", "U");
    d.migrate_add_notes();
    assert_eq!(d.current_db_version(), version + 2);
    assert_eq!(d.paper_col_ver("p1", "notes"), 0);
    assert_eq!(d.paper_col_ver("p2", "notes"), 1);
}

#[test]
fn versions_count_up() {
    let d = Device::new();
    assert_eq!(d.current_db_version(), 0);
    assert_eq!(succeed(&d.crr, |j| d.crr.next_db_version(j)), 1);
    assert_eq!(succeed(&d.crr, |j| d.crr.next_db_version(j)), 2);
    assert_eq!(d.current_db_version(), 2);
    succeed(&d.crr, |j| d.crr.init(j));
    assert_eq!(d.current_db_version(), 2);
}

#[test]
fn sync_state_reads_back() {
    let d = Device::new();
    assert_eq!(drive(&d.crr, |j| d.crr.get_sync_state(j, "k")), None);
    let (first, second) = (vec![1u8, 2, 3], vec![]);
    succeed(&d.crr, |j| d.crr.set_sync_state(j, "k", &first));
    assert_eq!(drive(&d.crr, |j| d.crr.get_sync_state(j, "k")), Some(first));
    succeed(&d.crr, |j| d.crr.set_sync_state(j, "k", &second));
    assert_eq!(
        drive(&d.crr, |j| d.crr.get_sync_state(j, "k")),
        Some(second)
    );
    assert_eq!(drive(&d.crr, |j| d.crr.get_sync_state(j, "l")), None);
}

#[test]
fn the_schema_is_stored_and_versioned() {
    let d = Device::new();
    assert_eq!(drive(&d.crr, |j| d.crr.schema_version(j)), 1);
    assert_eq!(
        drive(&d.crr, |j| d.crr.schema_fingerprint(j)),
        Some(test_schema().fingerprint())
    );
    assert_eq!(succeed(&d.crr, |j| d.crr.bump_schema_version(j)), 2);
    assert_eq!(succeed(&d.crr, |j| d.crr.bump_schema_version(j)), 3);
    assert_eq!(drive(&d.crr, |j| d.crr.schema_version(j)), 3);
    succeed(&d.crr, |j| d.crr.init(j));
    assert_eq!(drive(&d.crr, |j| d.crr.schema_version(j)), 3);
}

#[test]
fn failures_of_the_database_are_passed_on() {
    let crr = Crr::new(SqliteDb::in_memory().unwrap(), test_schema());
    // Without the bookkeeping tables nothing can be tracked.
    let outcome = drive(&crr, |j| crr.track_insert(j, "papers", "p1", &["title"]));
    assert!(matches!(outcome, Err(Error::Backend(_))));
    let outcome = drive(&crr, |j| crr.changes_since(j, 0));
    assert!(matches!(outcome, Err(Error::Backend(_))));
    // A missing row is an error of its own.
    execute(crr.db(), "CREATE TABLE crr_db_version (version INTEGER)", vec![]).unwrap();
    let outcome = drive(&crr, |j| crr.current_db_version(j));
    assert!(matches!(outcome, Ok(0) | Err(Error::NoRows)));
    let outcome = drive(&crr, |j| crr.next_db_version(j));
    assert!(matches!(outcome, Err(Error::NoRows)));
}

// --- merging -------------------------------------------------------------------

fn change(table: &str, pk: &str, col: &str, val: Json, col_ver: i64, cl: i64) -> ChangeRow {
    ChangeRow {
        table_name: table.to_string(),
        pk: pk.to_string(),
        col_name: col.to_string(),
        col_val: val,
        col_ver,
        db_ver: 1,
        site_id: vec![7; 16],
        seq: 0,
        cl,
    }
}

#[test]
fn every_change_is_counted_once() {
    let d = Device::new();
    let changes = [
        change("papers", "p1", SENTINEL, Json::Null, 1, 1),
        change("papers", "p1", "title", Json::Text("T".into()), 1, 1),
        change("papers", "p1", "title", Json::Text("S".into()), 1, 1),
        change("papers", "p1", "nonsense", Json::Null, 1, 1),
        change("nowhere", "p1", SENTINEL, Json::Null, 1, 1),
    ];
    let result = d.apply(&changes);
    assert_eq!(
        result,
        MergeResult {
            applied: 2,
            skipped: 1,
            skipped_unknown: 2,
            peer_schema: None,
        }
    );
    assert_eq!(d.title("p1").as_deref(), Some("T"));
    assert_eq!(MergeResult::default().applied, 0);
}

#[test]
fn the_larger_site_wins_a_tie_of_equal_values() {
    let d = Device::new();
    let mut first = change("papers", "p1", "title", Json::Text("T".into()), 2, 1);
    d.apply(&[change("papers", "p1", SENTINEL, Json::Null, 1, 1), first.copy()]);
    first.site_id = vec![8; 16];
    assert_eq!(d.apply(&[first.copy()]).applied, 1);
    first.site_id = vec![6; 16];
    assert_eq!(d.apply(&[first.copy()]).skipped, 1);
}

#[test]
fn edits_of_different_columns_both_survive() {
    let a = Device::new();
    let b = Device::new();
    a.insert_paper("p1", "Start");
    sync(&a, &b);
    a.set_title("p1", "New");
    b.set_favorite("p1", true);
    sync(&a, &b);
    sync(&b, &a);
    for d in [&a, &b] {
        let rows = d.rows("SELECT title, is_favorite FROM papers", vec![]);
        assert_eq!(rows[0].get(0), text("New"));
        assert_eq!(rows[0].get(1), Value::Integer(1));
    }
}

#[test]
fn machines_do_what_the_plain_operations_do() {
    let a = Device::new();
    a.insert_paper("p1", "One");
    a.insert_paper("p2", "Two");
    a.link("p1", "c1");
    a.delete_paper("p2");
    let plain = succeed(&a.crr, |j| a.crr.changes_since(j, 0));
    let stepwise = a.changes();
    assert_eq!(format!("{plain:?}"), format!("{stepwise:?}"));

    let b = Device::new();
    let c = Device::new();
    let plain_result = succeed(&b.crr, |j| b.crr.apply_changes(j, &plain));
    let stepwise_result = c.apply(&plain);
    assert_eq!(plain_result, stepwise_result);
    assert_eq!(observable_state(&b), observable_state(&c));
    assert_eq!(clock_state(&b), clock_state(&c));

    // The envelope holds the same rows, and merges as they do.
    let envelope = succeed(&a.crr, |j| a.crr.changeset_since(j, 0));
    assert_eq!(format!("{:?}", envelope.rows), format!("{plain:?}"));
    assert_eq!(envelope.fingerprint, test_schema().fingerprint());
    let e = Device::new();
    assert_eq!(
        succeed(&e.crr, |j| e.crr.apply_changeset(j, &envelope)),
        plain_result
    );
    assert_eq!(observable_state(&e), observable_state(&b));
}

#[test]
fn only_news_are_exported() {
    let a = Device::new();
    a.insert_paper("p1", "One");
    let watermark = a.current_db_version();
    assert!(a.changes_since(watermark).is_empty());
    a.set_title("p1", "Two");
    let news = a.changes_since(watermark);
    assert_eq!(news.len(), 1);
    assert_eq!(news[0].col_name, "title");
    assert_eq!(news[0].col_val, Json::Text("Two".into()));
    assert_eq!(news[0].col_ver, 2);
    assert_eq!(news[0].cl, 1);
}

#[test]
fn only_news_need_to_be_sent() {
    let a = Device::new();
    a.insert_paper("p1", "One");
    a.insert_paper("p2", "Two");
    a.link("p1", "c1");
    let (b, c) = (Device::new(), Device::new());
    sync(&a, &b);
    sync(&a, &c);
    let watermark = a.current_db_version();
    a.set_title("p1", "Uno");
    a.delete_paper("p2");
    a.unlink("p1", "c1");
    a.insert_paper("p3", "Three");
    b.apply(&a.changes_since(watermark));
    c.apply(&a.changes());
    assert_eq!(observable_state(&b), observable_state(&a));
    assert_eq!(observable_state(&b), observable_state(&c));
    assert_eq!(clock_state(&b), clock_state(&c));
}

/// All orders of a few things.
fn orders<T: Clone>(items: &[T]) -> Vec<Vec<T>> {
    if items.is_empty() {
        return vec![Vec::new()];
    }
    let mut all = Vec::new();
    for i in 0..items.len() {
        let mut rest = items.to_vec();
        let first = rest.remove(i);
        for mut order in orders(&rest) {
            order.insert(0, first.clone());
            all.push(order);
        }
    }
    all
}

#[test]
fn the_causal_length_decides_before_the_column_version() {
    let changes = [
        change("papers", "p1", "title", Json::Text("old".into()), 5, 1),
        change("papers", "p1", SENTINEL, Json::Null, 2, 2),
        change("papers", "p1", "title", Json::Text("new".into()), 1, 3),
    ];
    let d = Device::new();
    assert_eq!(d.apply(&changes).applied, 3);
    assert_eq!(d.title("p1").as_deref(), Some("new"));
    let again = d.apply(&changes);
    assert_eq!(again.applied, 0);
    assert_eq!(again.skipped, 3);
    assert_eq!(d.title("p1").as_deref(), Some("new"));
}

#[test]
fn changes_of_several_lives_come_to_the_same_in_any_order() {
    let changes = [
        change("papers", "p1", "title", Json::Text("first".into()), 9, 1),
        change("papers", "p1", "authors", Json::Text("nobody".into()), 4, 1),
        change("papers", "p1", SENTINEL, Json::Null, 2, 2),
        change("papers", "p1", "title", Json::Text("second".into()), 1, 3),
        change("papers", "p1", SENTINEL, Json::Null, 3, 3),
    ];
    for order in orders(&changes) {
        let d = Device::new();
        d.apply(&order);
        assert_eq!(d.title("p1").as_deref(), Some("second"));
        let rows = d.rows("SELECT authors FROM papers WHERE id = 'p1'", vec![]);
        assert_eq!(rows[0].get(0), text("[]"), "nothing of the first life is left");
        assert_eq!(d.paper_col_ver("p1", SENTINEL), 3);
        assert_eq!(d.paper_col_ver("p1", "title"), 1);
        let version = d.current_db_version();
        assert_eq!(d.apply(&order).applied, 0);
        assert_eq!(d.current_db_version(), version);
    }

    // With one more deletion the row is gone, in any order.
    let mut more = changes.to_vec();
    more.remove(1);
    more.push(change("papers", "p1", "cover", Json::Null, 1, 4));
    for order in orders(&more) {
        let d = Device::new();
        d.apply(&order);
        assert!(!d.paper_exists("p1"));
        assert_eq!(d.paper_col_ver("p1", SENTINEL), 4);
        assert_eq!(d.apply(&order).applied, 0);
    }
}

/// All columns of all rows of a table, tracked and untracked ones.
fn whole_rows(d: &Device, table: &str) -> Vec<Vec<Value>> {
    let width = d.rows(&format!("SELECT name FROM pragma_table_info('{table}')"), vec![]).len();
    d.rows(&format!("SELECT * FROM {table} ORDER BY 1"), vec![])
        .iter()
        .map(|row| (0..width).map(|i| row.get(i)).collect())
        .collect()
}

#[test]
fn changes_come_to_the_same_whole_rows_in_any_order() {
    let changes = [
        change("collections", "c1", "name", Json::Text("old".into()), 2, 1),
        change("collections", "c1", "parent_id", Json::Text("c0".into()), 1, 1),
        change("collections", "c1", SENTINEL, Json::Null, 3, 3),
        change("collections", "c1", "position", Json::Integer(4), 0, 3),
        change("collections", "c1", "position", Json::Integer(2), 0, 3),
    ];
    // The row is new, or it is there in its first life.
    for known in [false, true] {
        for order in orders(&changes) {
            let d = Device::new();
            if known {
                d.insert_collection("c1", "mine");
                d.run("UPDATE collections SET parent_id = 'c9', position = 9", vec![]);
                d.track_update("collections", "c1", &["parent_id", "position"]);
            }
            d.apply(&order);
            // Nothing is left of the first life. Changes of version zero tie with what was not
            // written in the second, so the greatest value stays.
            assert_eq!(
                whole_rows(&d, "collections"),
                vec![vec![text("c1"), text(""), Value::Null, Value::Integer(4)]],
            );
        }
    }
}

#[test]
fn replicas_at_rest_agree_on_whole_rows() {
    let world = World::new(3);
    let (a, b, c) = (world.dev(0), world.dev(1), world.dev(2));
    a.insert_collection("c1", "one");
    a.insert_collection("c2", "two");
    sync(a, b);
    sync(a, c);
    // A row that was deleted once is inserted again, and one that comes back later is adopted.
    b.delete_collection("c1");
    b.insert_collection("c1", "again");
    b.delete_collection("c2");
    sync(b, c);
    c.run(
        "INSERT INTO collections (id, name, parent_id, position) VALUES ('c2', 'back', 'c1', 5)",
        vec![],
    );
    c.track_adopt("collections", "c2", COLLECTION_COLS);
    // Only some of what a replica tells arrives.
    sync_lossy(c, a, |i| i % 2 == 0);
    a.set_collection_name("c1", "uno");
    world.gossip_to_fixpoint();

    let rows = whole_rows(a, "collections");
    assert_eq!(
        rows.last(),
        Some(&vec![text("c2"), text("back"), text("c1"), Value::Integer(5)])
    );
    assert_eq!(whole_rows(b, "collections"), rows);
    assert_eq!(whole_rows(c, "collections"), rows);
    assert_eq!(clock_state(b), clock_state(a));
    assert_eq!(clock_state(c), clock_state(a));
}

#[test]
fn values_are_compared_as_columns_store_them() {
    // As JSON texts `true` is past `5`; stored, it is 1.
    let changes = [
        change("papers", "p1", SENTINEL, Json::Null, 1, 1),
        change("papers", "p1", "is_read", Json::Bool(true), 1, 1),
        change("papers", "p1", "is_read", Json::Integer(5), 1, 1),
    ];
    for order in orders(&changes) {
        let d = Device::new();
        d.apply(&order);
        let rows = d.rows("SELECT is_read FROM papers WHERE id = 'p1'", vec![]);
        assert_eq!(rows[0].get(0), Value::Integer(5));
        assert_eq!(d.apply(&order).applied, 0);
    }
}

#[test]
fn a_merge_lowers_neither_causal_lengths_nor_the_version() {
    let d = Device::new();
    d.insert_paper("p1", "T");
    d.delete_paper("p1");
    let version = d.current_db_version();
    for cl in [-2, -1, 0, 1, 2] {
        for column in [SENTINEL, "title"] {
            let stale = change("papers", "p1", column, Json::Text("S".into()), 7, cl);
            assert_eq!(d.apply(&[stale]).skipped, 1);
        }
    }
    assert_eq!(d.paper_col_ver("p1", SENTINEL), 2);
    assert_eq!(d.current_db_version(), version);
    d.apply(&[change("papers", "p1", SENTINEL, Json::Null, 5, 5)]);
    assert_eq!(d.paper_col_ver("p1", SENTINEL), 5);
    assert!(d.current_db_version() > version);
}

#[test]
fn a_negative_causal_length_is_not_stored() {
    let d = Device::new();
    d.link_untracked("p1", "c1");
    let stale = [
        change("paper_collections", "p1:c1", SENTINEL, Json::Null, -2, -2),
        change("papers", "p1", "title", Json::Text("T".into()), 1, -2),
    ];
    assert_eq!(d.apply(&stale).skipped, 2);
    assert_eq!(d.current_db_version(), 0);
    d.adopt_link("p1", "c1");
    assert_eq!(d.link_sentinel("p1", "c1"), 1);
    let version = d.current_db_version();
    d.adopt_link("p1", "c1");
    assert_eq!(d.link_sentinel("p1", "c1"), 1);
    assert_eq!(d.current_db_version(), version);
}

#[test]
fn a_later_export_is_the_rest_of_an_earlier_one() {
    let d = Device::new();
    d.insert_paper("p1", "One");
    d.link("p1", "c1");
    d.set_title("p1", "Uno");
    d.insert_paper("p2", "Two");
    d.delete_paper("p1");
    let version = d.current_db_version();
    let key = |c: &ChangeRow| (c.table_name.clone(), c.pk.clone(), c.col_name.clone());
    for since in 0..=version {
        for later in since..=version + 1 {
            let mut rest: Vec<_> = d
                .changes_since(since)
                .iter()
                .filter(|c| c.db_ver > later)
                .map(key)
                .collect();
            let mut told: Vec<_> = d.changes_since(later).iter().map(key).collect();
            rest.sort();
            told.sort();
            assert_eq!(rest, told);
            told.dedup();
            assert_eq!(rest.len(), told.len(), "an entry is told once");
        }
    }
    assert!(d.changes_since(version).is_empty());
    assert_eq!(d.current_db_version(), version, "reading changes nothing");
}

#[test]
fn malformed_composite_keys_stand_for_no_row() {
    let d = Device::new();
    d.link_untracked("p1", "");
    let exists = |table: &str, pk: &str| drive(&d.crr, |j| d.crr.row_exists(j, table, pk));
    assert!(exists("paper_collections", "p1:"));
    assert!(!exists("paper_collections", "p1"));
    assert!(!exists("nowhere", "p1"));
    // So there is nothing to adopt under such a key either.
    let version = d.current_db_version();
    d.track_adopt("paper_collections", "p1", &[]);
    assert_eq!(d.current_db_version(), version);
}

#[test]
fn changes_with_malformed_keys_touch_no_rows() {
    let db = SqliteDb::in_memory().unwrap();
    execute(&db, "CREATE TABLE t (a TEXT, b TEXT, v TEXT, PRIMARY KEY (a, b))", vec![]).unwrap();
    let crr = Crr::new(
        db,
        Schema::new(vec![
            TableSpec::new("t", &["v"]).with_pk(PkSpec::composite("a", "b", ':'))
        ]),
    );
    succeed(&crr, |j| crr.init(j));
    let complete = change("t", "x:", "v", Json::Text("whole".into()), 1, 1);
    let malformed = change("t", "x", "v", Json::Text("torn".into()), 9, 1);
    let later = change("t", "x", "v", Json::Document("{}".into()), 1, 3);
    let gone = change("t", "x", SENTINEL, Json::Null, 2, 2);
    let all = [complete, malformed, gone, later];
    for order in orders(&all) {
        succeed(&crr, |j| crr.apply_changes(j, &order));
        let again = succeed(&crr, |j| crr.apply_changes(j, &order));
        assert_eq!(again.applied, 0);
        let rows = query(crr.db(), "SELECT a, b, v FROM t", vec![]).unwrap();
        assert_eq!(rows.len(), 1);
        assert_eq!(rows[0].get(2), text("whole"));
    }
    assert_eq!(
        drive(&crr, |j| crr.read_column_value(j, "t", "x", "v")),
        Json::Null
    );
    assert_eq!(
        drive(&crr, |j| crr.read_column_value(j, "t", "x:", "v")),
        Json::Text("whole".into())
    );
}

#[test]
fn changes_that_were_applied_are_spent() {
    let a = Device::new();
    a.insert_paper("p1", "One");
    a.set_title("p1", "Uno");
    a.insert_paper("p2", "Two");
    a.delete_paper("p2");
    let changes = a.changes();
    let b = Device::new();
    b.apply(&changes);
    let version = b.current_db_version();
    let again = b.apply(&changes);
    assert_eq!(again.applied, 0);
    assert_eq!(again.skipped, changes.len());
    // Not even the version has moved.
    assert_eq!(b.current_db_version(), version);
}

// --- random programs -----------------------------------------------------------

const N_DEVICES: u8 = 5;
const N_PKS: u8 = 3;
const N_VALS: u8 = 4;

#[derive(Debug, Clone)]
enum Op {
    InsertPaper { device: u8, pk: u8 },
    SetTitle { device: u8, pk: u8, val: u8 },
    SetAuthors { device: u8, pk: u8, val: u8 },
    SetFav { device: u8, pk: u8, val: bool },
    SetCitationCount { device: u8, pk: u8, val: Option<u8> },
    SetCover { device: u8, pk: u8, val: u8 },
    SetNotes { device: u8, pk: u8, val: u8 },
    MigrateAddNotes { device: u8 },
    DeletePaper { device: u8, pk: u8 },
    InsertCollection { device: u8, pk: u8 },
    SetCollectionName { device: u8, pk: u8, val: u8 },
    DeleteCollection { device: u8, pk: u8 },
    Link { device: u8, paper: u8, collection: u8 },
    Unlink { device: u8, paper: u8, collection: u8 },
    Sync { from: u8, to: u8 },
    LossySync { from: u8, to: u8, drop_seed: u32 },
}

/// A xorshift generator.
struct Dice(u64);

impl Dice {
    fn next(&mut self) -> u64 {
        self.0 ^= self.0 << 13;
        self.0 ^= self.0 >> 7;
        self.0 ^= self.0 << 17;
        self.0
    }

    fn below(&mut self, n: u8) -> u8 {
        ((self.next() >> 11) % n as u64) as u8
    }

    fn op(&mut self) -> Op {
        let device = self.below(N_DEVICES);
        let pk = self.below(N_PKS);
        let val = self.below(N_VALS);
        match self.below(16) {
            0 => Op::InsertPaper { device, pk },
            1 => Op::SetTitle { device, pk, val },
            2 => Op::SetAuthors { device, pk, val },
            3 => Op::SetFav {
                device,
                pk,
                val: self.below(2) == 1,
            },
            4 => Op::SetCitationCount {
                device,
                pk,
                val: if self.below(2) == 1 { Some(val) } else { None },
            },
            5 => Op::SetCover { device, pk, val },
            6 => Op::SetNotes { device, pk, val },
            7 => Op::MigrateAddNotes { device },
            8 => Op::DeletePaper { device, pk },
            9 => Op::InsertCollection { device, pk },
            10 => Op::SetCollectionName { device, pk, val },
            11 => Op::DeleteCollection { device, pk },
            12 => Op::Link {
                device,
                paper: pk,
                collection: self.below(N_PKS),
            },
            13 => Op::Unlink {
                device,
                paper: pk,
                collection: self.below(N_PKS),
            },
            14 => Op::Sync {
                from: device,
                to: self.below(N_DEVICES),
            },
            _ => Op::LossySync {
                from: device,
                to: self.below(N_DEVICES),
                drop_seed: self.next() as u32,
            },
        }
    }

    fn program(&mut self) -> Vec<Op> {
        let len = 1 + self.below(49);
        (0..len).map(|_| self.op()).collect()
    }
}

/// The programs that a property is tried on.
fn programs(seed: u64, count: usize) -> Vec<Vec<Op>> {
    let mut dice = Dice(seed);
    (0..count).map(|_| dice.program()).collect()
}

fn paper_id(pk: u8) -> String {
    format!("p{pk}")
}

fn coll_id(pk: u8) -> String {
    format!("c{pk}")
}

fn text_val(val: u8) -> String {
    format!("v{val}")
}

/// A small distinct blob per value, so a wrong blob merge is visible.
fn blob_val(val: u8) -> Vec<u8> {
    vec![val, val.wrapping_add(1), 0xAB]
}

/// A set of independent replicas.
struct World {
    devices: Vec<Device>,
}

impl World {
    fn new(n: u8) -> Self {
        Self {
            devices: (0..n).map(|_| Device::new()).collect(),
        }
    }

    fn dev(&self, i: u8) -> &Device {
        &self.devices[i as usize]
    }

    fn set(&self, device: u8, pk: u8, column: &str, value: Value) {
        let d = self.dev(device);
        let id = paper_id(pk);
        if d.paper_exists(&id) {
            d.set_paper(&id, column, value);
        }
    }

    /// Applies one op. Ops that make no sense (editing an absent row, a sync with oneself) do
    /// nothing.
    fn apply_op(&self, op: &Op) {
        match op {
            Op::InsertPaper { device, pk } => {
                let d = self.dev(*device);
                let id = paper_id(*pk);
                if !d.paper_exists(&id) {
                    d.insert_paper(&id, &text_val(0));
                }
            }
            Op::SetTitle { device, pk, val } => {
                self.set(*device, *pk, "title", Value::Text(text_val(*val)))
            }
            Op::SetAuthors { device, pk, val } => {
                self.set(*device, *pk, "authors", Value::Text(text_val(*val)))
            }
            Op::SetFav { device, pk, val } => {
                self.set(*device, *pk, "is_favorite", Value::Integer(*val as i64))
            }
            Op::SetCitationCount { device, pk, val } => {
                let value = match val {
                    Some(n) => Value::Integer(*n as i64),
                    None => Value::Null,
                };
                self.set(*device, *pk, "citation_count", value)
            }
            Op::SetCover { device, pk, val } => {
                self.set(*device, *pk, "cover", Value::Blob(blob_val(*val)))
            }
            Op::SetNotes { device, pk, val } => {
                self.set(*device, *pk, "notes", Value::Text(text_val(*val)))
            }
            Op::MigrateAddNotes { device } => self.dev(*device).migrate_add_notes(),
            Op::DeletePaper { device, pk } => {
                let d = self.dev(*device);
                let id = paper_id(*pk);
                if d.paper_exists(&id) {
                    d.delete_paper(&id);
                }
            }
            Op::InsertCollection { device, pk } => {
                let d = self.dev(*device);
                let id = coll_id(*pk);
                if !d.collection_exists(&id) {
                    d.insert_collection(&id, &text_val(0));
                }
            }
            Op::SetCollectionName { device, pk, val } => {
                let d = self.dev(*device);
                let id = coll_id(*pk);
                if d.collection_exists(&id) {
                    d.set_collection_name(&id, &text_val(*val));
                }
            }
            Op::DeleteCollection { device, pk } => {
                let d = self.dev(*device);
                let id = coll_id(*pk);
                if d.collection_exists(&id) {
                    d.delete_collection(&id);
                }
            }
            Op::Link {
                device,
                paper,
                collection,
            } => {
                let d = self.dev(*device);
                let (p, c) = (paper_id(*paper), coll_id(*collection));
                if !d.link_exists(&p, &c) {
                    d.link(&p, &c);
                }
            }
            Op::Unlink {
                device,
                paper,
                collection,
            } => {
                let d = self.dev(*device);
                let (p, c) = (paper_id(*paper), coll_id(*collection));
                if d.link_exists(&p, &c) {
                    d.unlink(&p, &c);
                }
            }
            Op::Sync { from, to } => {
                if from != to {
                    sync(self.dev(*from), self.dev(*to));
                }
            }
            Op::LossySync {
                from,
                to,
                drop_seed,
            } => {
                if from != to {
                    let seed = *drop_seed;
                    // Each change is kept with a chance of about one half.
                    sync_lossy(self.dev(*from), self.dev(*to), move |i| {
                        let mut h = seed ^ (i as u32).wrapping_mul(0x9E3779B1);
                        h ^= h >> 15;
                        h = h.wrapping_mul(0x85EBCA77);
                        h ^= h >> 13;
                        h & 1 == 0
                    });
                }
            }
        }
    }

    fn replay(ops: &[Op]) -> Self {
        let world = World::new(N_DEVICES);
        for op in ops {
            world.apply_op(op);
        }
        world
    }

    /// Gossips every ordered pair repeatedly until no replica's change count grows.
    fn gossip_to_fixpoint(&self) {
        let n = self.devices.len();
        for _ in 0..(n * n + 4) {
            let before = self.total_changes();
            for from in 0..n {
                for to in 0..n {
                    if from != to {
                        sync(&self.devices[from], &self.devices[to]);
                    }
                }
            }
            if self.total_changes() == before {
                break;
            }
        }
    }

    fn total_changes(&self) -> usize {
        self.devices.iter().map(|d| d.changes().len()).sum()
    }
}

/// Title, authors, favorite, citation count, cover, notes.
type PaperRow = (String, String, i64, Option<i64>, Option<Vec<u8>>, String);

/// What every replica must agree on.
#[derive(Debug, PartialEq, Eq)]
struct State {
    papers: BTreeMap<String, PaperRow>,
    collections: BTreeMap<String, String>,
    links: Vec<(String, String)>,
}

fn observable_state(d: &Device) -> State {
    let mut papers = BTreeMap::new();
    for r in d.rows(
        "SELECT id, title, authors, is_favorite, citation_count, cover, notes FROM papers",
        vec![],
    ) {
        papers.insert(
            r.get(0).text_or_empty(),
            (
                r.get(1).text_or_empty(),
                r.get(2).text_or_empty(),
                r.get(3).integer_or(0),
                r.get(4).as_integer(),
                r.get(5).as_blob().map(|b| b.to_vec()),
                r.get(6).text_or_empty(),
            ),
        );
    }
    let mut collections = BTreeMap::new();
    for r in d.rows("SELECT id, name FROM collections", vec![]) {
        collections.insert(r.get(0).text_or_empty(), r.get(1).text_or_empty());
    }
    let mut links = Vec::new();
    for r in d.rows(
        "SELECT paper_id, collection_id FROM paper_collections",
        vec![],
    ) {
        links.push((r.get(0).text_or_empty(), r.get(1).text_or_empty()));
    }
    links.sort();
    State {
        papers,
        collections,
        links,
    }
}

/// The clocks that later merges read: each row's causal length, and the versions and sites of the
/// columns of living rows.
fn clock_state(d: &Device) -> BTreeMap<(String, String, String), (i64, Option<Vec<u8>>)> {
    let mut map = BTreeMap::new();
    for table in ["papers", "collections", "paper_collections"] {
        let clock_table = format!("{table}__crr_clock");
        let rows = d.rows(
            &format!("SELECT pk, col_name, col_ver, site_id FROM {clock_table}"),
            vec![],
        );
        let mut alive: BTreeMap<String, bool> = BTreeMap::new();
        for r in &rows {
            if r.get(1).text_or_empty() == SENTINEL {
                alive.insert(r.get(0).text_or_empty(), r.get(2).integer_or(0) % 2 == 1);
            }
        }
        for r in rows {
            let pk = r.get(0).text_or_empty();
            let col = r.get(1).text_or_empty();
            let ver = r.get(2).integer_or(0);
            if col == SENTINEL {
                map.insert((clock_table.clone(), pk, col), (ver, None));
            } else if *alive.get(&pk).unwrap_or(&false) {
                let site = r.get(3).bytes_or_empty();
                map.insert((clock_table.clone(), pk, col), (ver, Some(site)));
            }
        }
    }
    map
}

/// Replays a program, gossips to a fixed point, and gives one replica's changes.
fn changeset_from_program(ops: &[Op]) -> Vec<ChangeRow> {
    let world = World::replay(ops);
    world.gossip_to_fixpoint();
    world.dev(0).changes()
}

/// An in-place shuffle that depends only on the seed.
fn deterministic_shuffle<T>(items: &mut [T], seed: u64) {
    let mut dice = Dice(seed | 1);
    for i in (1..items.len()).rev() {
        let j = (dice.next() % (i as u64 + 1)) as usize;
        items.swap(i, j);
    }
}

/// Every replica holds the same rows and clocks once all have seen all changes.
#[test]
fn prop_converges() {
    for ops in programs(0x1234_5678_9abc_def1, 24) {
        let world = World::replay(&ops);
        world.gossip_to_fixpoint();

        let ref_state = observable_state(world.dev(0));
        let ref_clocks = clock_state(world.dev(0));
        for i in 1..N_DEVICES {
            assert_eq!(
                ref_state,
                observable_state(world.dev(i)),
                "replica 0 and replica {i} diverged on observable state: {ops:?}"
            );
            assert_eq!(
                ref_clocks,
                clock_state(world.dev(i)),
                "replica 0 and replica {i} diverged on clock metadata: {ops:?}"
            );
        }
    }
}

/// Applying a converged changeset a second time applies nothing and leaves the state unchanged.
#[test]
fn prop_idempotent() {
    for ops in programs(0x2345_6789_abcd_ef12, 24) {
        let changes = changeset_from_program(&ops);

        let target = Device::new();
        target.apply(&changes);
        let after_first = observable_state(&target);

        let second = target.apply(&changes);
        let after_second = observable_state(&target);

        assert_eq!(
            second.applied, 0,
            "re-apply applied {} changes: {ops:?}",
            second.applied
        );
        assert_eq!(after_first, after_second, "state changed on re-apply: {ops:?}");
    }
}

/// The same changes in another order come to the same state.
#[test]
fn prop_order_independent() {
    let mut dice = Dice(0x3456_789a_bcde_f123);
    for ops in programs(0x4567_89ab_cdef_1234, 24) {
        let changes = changeset_from_program(&ops);

        let a = Device::new();
        a.apply(&changes);

        let mut shuffled = changes.clone();
        deterministic_shuffle(&mut shuffled, dice.next());
        let b = Device::new();
        b.apply(&shuffled);

        assert_eq!(
            observable_state(&a),
            observable_state(&b),
            "apply order changed the converged state: {ops:?}"
        );
    }
}

/// To migrate and then sync comes to the same as to sync, migrate and sync again.
#[test]
fn prop_migration_commutes() {
    for ops in programs(0x5678_9abc_def1_2345, 12) {
        // Run the program, migrate every device, then gossip.
        let a = World::replay(&ops);
        for i in 0..N_DEVICES {
            a.dev(i).migrate_add_notes();
        }
        a.gossip_to_fixpoint();

        // Run the program, gossip, then migrate every device, gossip again.
        let b = World::replay(&ops);
        b.gossip_to_fixpoint();
        for i in 0..N_DEVICES {
            b.dev(i).migrate_add_notes();
        }
        b.gossip_to_fixpoint();

        let a0 = observable_state(a.dev(0));
        let b0 = observable_state(b.dev(0));
        assert_eq!(
            a0, b0,
            "migrate-then-sync diverged from sync-then-migrate: {ops:?}"
        );

        let a0c = clock_state(a.dev(0));
        for i in 1..N_DEVICES {
            assert_eq!(a0, observable_state(a.dev(i)), "path A replica {i} diverged");
            assert_eq!(a0c, clock_state(a.dev(i)), "path A clock {i} diverged");
        }
        for i in 0..N_DEVICES {
            assert_eq!(b0, observable_state(b.dev(i)), "path B replica {i} diverged");
        }
    }
}
