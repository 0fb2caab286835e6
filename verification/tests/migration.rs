//! Schema migrations, and the envelope that tells peers of them, over in-memory SQLite.
#![allow(dead_code)]

use recrr::backends::SqliteDb;
use recrr::derive::{expand, Attribute, Body, Declaration, Field, Form, Token};
use recrr::flow::{Halt, Journal, Reply, Step};
use recrr::migrate::Recoding;
use recrr::value::Real;
use recrr::{
    Changeset, Crr, Error, MergeResult, PkSpec, Row, Schema, SkeletonValue, TableSpec, Value,
};

// --- the driver ----------------------------------------------------------------

fn to_sqlite(v: &Value) -> rusqlite::types::Value {
    match v {
        Value::Null => rusqlite::types::Value::Null,
        Value::Integer(i) => rusqlite::types::Value::Integer(*i),
        Value::Real(r) => rusqlite::types::Value::Real(f64::from_bits(r.bits)),
        Value::Text(s) => rusqlite::types::Value::Text(s.clone()),
        Value::Blob(b) => rusqlite::types::Value::Blob(b.clone()),
    }
}

fn from_sqlite(v: rusqlite::types::Value) -> Value {
    match v {
        rusqlite::types::Value::Null => Value::Null,
        rusqlite::types::Value::Integer(i) => Value::Integer(i),
        rusqlite::types::Value::Real(f) => Value::Real(Real {
            bits: f.to_bits(),
            json: serde_json::Number::from_f64(f).map(|n| n.to_string()),
        }),
        rusqlite::types::Value::Text(s) => Value::Text(s),
        rusqlite::types::Value::Blob(b) => Value::Blob(b),
    }
}

fn execute(db: &SqliteDb, sql: &str, params: Vec<Value>) -> Result<u64, Error> {
    let bound: Vec<rusqlite::types::Value> = params.iter().map(to_sqlite).collect();
    match db
        .connection()
        .execute(sql, rusqlite::params_from_iter(bound.iter()))
    {
        Ok(n) => Ok(n as u64),
        Err(e) => Err(Error::Backend(e.to_string())),
    }
}

fn read_rows(
    db: &SqliteDb,
    sql: &str,
    params: Vec<Value>,
) -> Result<Vec<Row>, rusqlite::Error> {
    let bound: Vec<rusqlite::types::Value> = params.iter().map(to_sqlite).collect();
    let mut stmt = db.connection().prepare_cached(sql)?;
    let count = stmt.column_count();
    let mut rows = stmt.query(rusqlite::params_from_iter(bound.iter()))?;
    let mut out = Vec::new();
    while let Some(row) = rows.next()? {
        let mut values = Vec::new();
        for i in 0..count {
            values.push(from_sqlite(row.get(i)?));
        }
        out.push(Row(values));
    }
    Ok(out)
}

fn query(db: &SqliteDb, sql: &str, params: Vec<Value>) -> Result<Vec<Row>, Error> {
    read_rows(db, sql, params).map_err(|e| Error::Backend(e.to_string()))
}

fn answer(db: &SqliteDb, halt: Halt) -> Reply {
    match halt {
        Halt::Ask(statement) => {
            let (sql, params) = (statement.sql(), statement.params());
            let outcome = if statement.is_query() {
                query(db, &sql, params)
            } else {
                execute(db, &sql, params).map(|_| Vec::new())
            };
            match outcome {
                Ok(rows) => Reply::Rows(rows),
                Err(error) => Reply::Failed(error),
            }
        }
        Halt::Fault => panic!("a counter left its range"),
    }
}

fn drive<T>(
    crr: &Crr<SqliteDb>,
    mut operation: impl FnMut(&mut Journal) -> Result<T, Halt>,
) -> T {
    let mut j = Journal::new();
    loop {
        match operation(&mut j) {
            Ok(value) => return value,
            Err(halt) => j.answer(answer(crr.db(), halt)),
        }
    }
}

fn succeed<T>(crr: &Crr<SqliteDb>, operation: impl FnMut(&mut Journal) -> Step<T>) -> T {
    drive(crr, operation).unwrap()
}

// --- schemas: a "papers" table, with and without a `notes` column ----------------

fn text(s: &str) -> Value {
    Value::Text(s.to_string())
}

fn empty() -> SkeletonValue {
    SkeletonValue::Literal(Value::Text(String::new()))
}

fn schema_v1() -> Schema {
    Schema::new(vec![
        TableSpec::new("papers", &["title"]).with_skeleton(vec![("title", empty())])
    ])
}

fn schema_v2_with_notes() -> Schema {
    Schema::new(vec![TableSpec::new("papers", &["title", "notes"])
        .with_skeleton(vec![("title", empty()), ("notes", empty())])])
}

/// A fresh database with a `papers` table that already has the `notes` column, so that both
/// schemas run against the same table.
fn new_db_with_notes() -> SqliteDb {
    let db = SqliteDb::in_memory().unwrap();
    execute(
        &db,
        "CREATE TABLE papers (id TEXT PRIMARY KEY, title TEXT NOT NULL, notes TEXT NOT NULL DEFAULT '')",
        vec![],
    )
    .unwrap();
    db
}

fn open(db: SqliteDb, schema: Schema) -> Crr<SqliteDb> {
    let crr = Crr::new(db, schema);
    succeed(&crr, |j| crr.init(j));
    crr
}

fn run(crr: &Crr<SqliteDb>, sql: &str) {
    execute(crr.db(), sql, vec![]).unwrap();
}

fn insert_paper(crr: &Crr<SqliteDb>, id: &str, title: &str, cols: &[&str]) {
    execute(
        crr.db(),
        "INSERT INTO papers (id, title) VALUES (?1, ?2)",
        vec![text(id), text(title)],
    )
    .unwrap();
    succeed(crr, |j| crr.track_insert(j, "papers", id, cols));
}

/// The key, `col_ver` and `db_ver` of the clock entries of a column.
fn clock_rows(crr: &Crr<SqliteDb>, col: &str) -> Vec<(String, i64, i64)> {
    query(
        crr.db(),
        "SELECT pk, col_ver, db_ver FROM papers__crr_clock WHERE col_name = ?1 ORDER BY pk",
        vec![text(col)],
    )
    .unwrap()
    .into_iter()
    .map(|r| {
        (
            r.get(0).text_or_empty(),
            r.get(1).integer_or(0),
            r.get(2).integer_or(0),
        )
    })
    .collect()
}

fn notes_of(crr: &Crr<SqliteDb>, id: &str) -> Option<String> {
    query(
        crr.db(),
        "SELECT notes FROM papers WHERE id = ?1",
        vec![text(id)],
    )
    .unwrap()
    .first()
    .map(|r| r.get(0).text_or_empty())
}

fn schema_version(crr: &Crr<SqliteDb>) -> i64 {
    drive(crr, |j| crr.schema_version(j))
}

fn changeset(crr: &Crr<SqliteDb>) -> Changeset {
    succeed(crr, |j| crr.changeset_since(j, 0))
}

fn apply(crr: &Crr<SqliteDb>, changeset: &Changeset) -> MergeResult {
    succeed(crr, |j| crr.apply_changeset(j, changeset))
}

/// Gives every stored key the new encoding that `re_encode` makes of it.
fn change_pk(
    crr: &Crr<SqliteDb>,
    table: &str,
    new_pk: &PkSpec,
    re_encode: impl Fn(&str) -> Option<String>,
) -> Result<(), Error> {
    let mapping: Vec<Recoding> = succeed(crr, |j| crr.stored_pks(j, table))
        .into_iter()
        .map(|old_pk| {
            let new_pk = re_encode(&old_pk);
            Recoding { old_pk, new_pk }
        })
        .collect();
    drive(crr, |j| crr.migrate_change_pk(j, table, new_pk, &mapping))
}

// --- add column + backfill -------------------------------------------------------

#[test]
fn add_column_backfills_live_rows_and_syncs() {
    // A device starts on v1 (no notes), inserts two live papers and one deleted.
    let crr = open(new_db_with_notes(), schema_v1());
    insert_paper(&crr, "p1", "A", &["title"]);
    insert_paper(&crr, "p2", "B", &["title"]);
    insert_paper(&crr, "p3", "C", &["title"]);
    // Delete p3 so it is a dead row at backfill time.
    run(&crr, "DELETE FROM papers WHERE id = 'p3'");
    succeed(&crr, |j| crr.track_delete(j, "papers", "p3"));

    // Migrate to v2: real column already exists; rebind schema and backfill.
    let crr = crr.with_schema(schema_v2_with_notes());
    let ver_before = schema_version(&crr);
    succeed(&crr, |j| crr.migrate_add_column(j, "papers", "notes"));

    // Live rows p1, p2 get a notes clock entry; dead p3 does not.
    let notes = clock_rows(&crr, "notes");
    let pks: Vec<&str> = notes.iter().map(|(pk, _, _)| pk.as_str()).collect();
    assert_eq!(pks, vec!["p1", "p2"], "only live rows backfilled");
    assert!(
        notes.iter().all(|(_, ver, _)| *ver == 1),
        "backfill at col_ver=1"
    );
    // One shared db_ver across the batch.
    assert_eq!(notes[0].2, notes[1].2, "backfill shares one db_ver");
    // Schema version bumped.
    assert_eq!(schema_version(&crr), ver_before + 1);

    // A fresh v2 peer converges on the backfilled notes column.
    let peer = open(new_db_with_notes(), schema_v2_with_notes());
    apply(&peer, &changeset(&crr));
    // Set a real notes value on the source and re-sync so the peer sees content.
    run(&crr, "UPDATE papers SET notes = 'hi' WHERE id = 'p1'");
    succeed(&crr, |j| crr.track_update(j, "papers", "p1", &["notes"]));
    apply(&peer, &changeset(&crr));
    assert_eq!(notes_of(&peer, "p1").as_deref(), Some("hi"));
}

#[test]
fn add_column_is_idempotent() {
    let crr = open(new_db_with_notes(), schema_v2_with_notes());
    insert_paper(&crr, "p1", "A", &["title"]);

    succeed(&crr, |j| crr.migrate_add_column(j, "papers", "notes"));
    let after_first = clock_rows(&crr, "notes");
    let ver_first = schema_version(&crr);

    succeed(&crr, |j| crr.migrate_add_column(j, "papers", "notes"));
    let after_second = clock_rows(&crr, "notes");

    assert_eq!(
        after_first, after_second,
        "re-running backfill changes nothing"
    );
    // Version still advances (each call is a recorded migration step).
    assert_eq!(schema_version(&crr), ver_first + 1);
}

// --- drop column -----------------------------------------------------------------

#[test]
fn drop_column_removes_clocks_and_incoming_is_reported_not_silent() {
    // Source still on v2 (tracks notes); target migrates to drop notes.
    let src = open(new_db_with_notes(), schema_v2_with_notes());
    insert_paper(&src, "p1", "A", &["title", "notes"]);
    run(&src, "UPDATE papers SET notes = 'keep' WHERE id = 'p1'");
    succeed(&src, |j| src.track_update(j, "papers", "p1", &["notes"]));

    let tgt = open(new_db_with_notes(), schema_v2_with_notes());
    insert_paper(&tgt, "p1", "A", &["title", "notes"]);
    succeed(&tgt, |j| tgt.migrate_drop_column(j, "papers", "notes"));
    assert!(
        clock_rows(&tgt, "notes").is_empty(),
        "notes clocks removed"
    );

    // Now rebind tgt to a schema that no longer tracks notes, and apply src's changeset: the
    // notes change must be reported as skipped_unknown.
    let tgt = tgt.with_schema(schema_v1());
    let res = apply(&tgt, &changeset(&src));
    assert!(
        res.skipped_unknown > 0,
        "unknown notes column reported, not silent"
    );
    assert!(res.peer_schema.is_some(), "schema mismatch surfaced");
    assert_eq!(
        res.peer_schema,
        Some((1, schema_v2_with_notes().fingerprint()))
    );
    // Title (a known column) still merged.
    let rows = query(
        tgt.db(),
        "SELECT title FROM papers WHERE id = 'p1'",
        vec![],
    )
    .unwrap();
    assert_eq!(rows[0].get(0).as_text(), Some("A"));
}

// --- rename table ----------------------------------------------------------------

fn new_db_without_notes() -> SqliteDb {
    let db = SqliteDb::in_memory().unwrap();
    execute(
        &db,
        "CREATE TABLE papers (id TEXT PRIMARY KEY, title TEXT NOT NULL)",
        vec![],
    )
    .unwrap();
    db
}

#[test]
fn rename_table_preserves_history() {
    let crr = open(new_db_without_notes(), schema_v1());
    insert_paper(&crr, "p1", "Original", &["title"]);

    // Rename the real table, then the clock table.
    run(&crr, "ALTER TABLE papers RENAME TO articles");
    let renamed_schema = Schema::new(vec![
        TableSpec::new("articles", &["title"]).with_skeleton(vec![("title", empty())])
    ]);
    let crr = crr.with_schema(renamed_schema);
    succeed(&crr, |j| crr.migrate_rename_table(j, "papers", "articles"));

    // History preserved: the pre-rename edit still emits under the new table name.
    let changes = succeed(&crr, |j| crr.changes_since(j, 0));
    assert!(
        changes
            .iter()
            .any(|c| c.table_name == "articles" && c.col_name == "title"),
        "pre-rename title change survived the rename"
    );
    // The (pk, col_name) key survived: a duplicate insert conflicts.
    let dup = execute(
        crr.db(),
        "INSERT INTO articles__crr_clock (pk, col_name, col_ver, db_ver, site_id, seq) \
         VALUES ('p1', 'title', 9, 9, X'00', 0)",
        vec![],
    );
    assert!(
        dup.is_err(),
        "primary key (pk,col_name) preserved across rename"
    );
}

#[test]
fn rename_table_rejects_preexisting_clock() {
    // The destination clock table is there from the start.
    let crr = open(
        new_db_without_notes(),
        Schema::new(vec![
            TableSpec::new("papers", &["title"]),
            TableSpec::new("articles", &["title"]),
        ]),
    );
    let err = drive(&crr, |j| crr.migrate_rename_table(j, "papers", "articles"));
    assert!(
        err.is_err(),
        "refuses to clobber an existing destination clock table"
    );
    assert_eq!(schema_version(&crr), 1);
    assert!(succeed(&crr, |j| crr.table_exists(j, "papers")));
    assert!(!succeed(&crr, |j| crr.table_exists(j, "nowhere")));
}

// --- change the shape of a key ---------------------------------------------------

fn new_keyed(keys: &[(&str, &str)]) -> Crr<SqliteDb> {
    let db = SqliteDb::in_memory().unwrap();
    execute(
        &db,
        "CREATE TABLE t (k TEXT PRIMARY KEY, v TEXT NOT NULL DEFAULT '')",
        vec![],
    )
    .unwrap();
    let crr = open(
        db,
        Schema::new(vec![
            TableSpec::new("t", &["v"]).with_pk(PkSpec::single("k"))
        ]),
    );
    for (k, v) in keys {
        execute(
            crr.db(),
            "INSERT INTO t (k, v) VALUES (?1, ?2)",
            vec![text(k), text(v)],
        )
        .unwrap();
        succeed(&crr, |j| crr.track_insert(j, "t", k, &["v"]));
    }
    crr
}

fn stored(crr: &Crr<SqliteDb>) -> Vec<String> {
    query(
        crr.db(),
        "SELECT DISTINCT pk FROM t__crr_clock",
        vec![],
    )
    .unwrap()
    .into_iter()
    .map(|r| r.get(0).text_or_empty())
    .collect()
}

#[test]
fn dropping_a_column_again_drops_nothing_more() {
    let crr = open(new_db_with_notes(), schema_v2_with_notes());
    insert_paper(&crr, "p1", "A", &["title", "notes"]);
    succeed(&crr, |j| crr.migrate_drop_column(j, "papers", "notes"));
    assert!(clock_rows(&crr, "notes").is_empty());
    let titles = clock_rows(&crr, "title");
    assert_eq!(titles.len(), 1);
    succeed(&crr, |j| crr.migrate_drop_column(j, "papers", "notes"));
    assert!(clock_rows(&crr, "notes").is_empty());
    assert_eq!(clock_rows(&crr, "title"), titles);
    assert_eq!(schema_version(&crr), 3);
}

#[test]
fn change_pk_reencodes_and_converges() {
    // A single-key table whose keys we re-encode to composite "a:b".
    let crr = new_keyed(&[("a", "x")]);

    // Re-encode "a" -> "a:1".
    let new_pk = PkSpec::composite("k1", "k2", ':');
    change_pk(&crr, "t", &new_pk, |old| Some(format!("{old}:1"))).unwrap();

    assert_eq!(
        stored(&crr),
        vec!["a:1".to_string()],
        "clock pk re-encoded"
    );
    assert_eq!(schema_version(&crr), 2);
}

#[test]
fn change_pk_rejects_collisions_and_ambiguity() {
    let crr = new_keyed(&[("a", ""), ("b", "")]);
    let comp = PkSpec::composite("k1", "k2", ':');

    // Collision: both map to the same new pk.
    let collide = change_pk(&crr, "t", &comp, |_| Some("same:1".to_string()));
    assert!(collide.is_err(), "collision rejected");
    assert_eq!(
        collide.unwrap_err().message(),
        "database backend error: pk re-encode collision: two old keys map to \"same:1\""
    );

    // Malformed composite: a produced key with no separator cannot decode into the two-component
    // key the target shape requires.
    let malformed = change_pk(&crr, "t", &comp, |old| Some(old.to_string()));
    assert!(
        malformed.is_err(),
        "separator-less composite encoding rejected"
    );
    assert_eq!(
        malformed.unwrap_err().message(),
        "database backend error: re-encoded pk \"a\" does not decode into two components under \
         separator ':'"
    );

    // Nothing was written.
    assert_eq!(stored(&crr), vec!["a".to_string(), "b".to_string()]);
    assert_eq!(schema_version(&crr), 1);
}

#[test]
fn change_pk_drops_the_keys_that_get_none() {
    let crr = new_keyed(&[("a", "x"), ("b", "y")]);
    change_pk(&crr, "t", &PkSpec::single("n"), |old| {
        if old == "a" {
            Some("1".to_string())
        } else {
            None
        }
    })
    .unwrap();
    assert_eq!(stored(&crr), vec!["1".to_string()]);
}

/// The key and `col_ver` of the clock entries of the column `v`.
fn versions_of_v(crr: &Crr<SqliteDb>) -> Vec<(String, i64)> {
    query(
        crr.db(),
        "SELECT pk, col_ver FROM t__crr_clock WHERE col_name = 'v' ORDER BY pk",
        vec![],
    )
    .unwrap()
    .into_iter()
    .map(|r| (r.get(0).text_or_empty(), r.get(1).integer_or(0)))
    .collect()
}

#[test]
fn rows_can_trade_keys() {
    let crr = new_keyed(&[("a", "x"), ("b", "y")]);
    succeed(&crr, |j| crr.track_update(j, "t", "a", &["v"]));
    change_pk(&crr, "t", &PkSpec::single("k"), |old| {
        Some(if old == "a" { "b" } else { "a" }.to_string())
    })
    .unwrap();
    assert_eq!(
        versions_of_v(&crr),
        vec![("a".to_string(), 1), ("b".to_string(), 2)]
    );
    assert_eq!(stored(&crr).len(), 2, "no other key is left");
    assert_eq!(schema_version(&crr), 2);
}

#[test]
fn keys_can_move_up_one_place() {
    // Three rows in a ring, a chain that ends in a new key, one that is dropped, one that stays.
    let crr = new_keyed(&[
        ("a", ""),
        ("b", ""),
        ("c", ""),
        ("m", ""),
        ("n", ""),
        ("x", ""),
        ("~~~~~~~~0", ""),
    ]);
    for (key, times) in [("a", 1), ("b", 2), ("c", 3), ("m", 4), ("n", 5), ("~~~~~~~~0", 6)] {
        for _ in 0..times {
            succeed(&crr, |j| crr.track_update(j, "t", key, &["v"]));
        }
    }
    change_pk(&crr, "t", &PkSpec::single("k"), |old| match old {
        "a" => Some("b".to_string()),
        "b" => Some("c".to_string()),
        "c" => Some("a".to_string()),
        "m" => Some("n".to_string()),
        "n" => Some("o".to_string()),
        "x" => None,
        other => Some(other.to_string()),
    })
    .unwrap();
    assert_eq!(
        versions_of_v(&crr),
        vec![
            ("a".to_string(), 4),
            ("b".to_string(), 2),
            ("c".to_string(), 3),
            ("n".to_string(), 5),
            ("o".to_string(), 6),
            ("~~~~~~~~0".to_string(), 7),
        ]
    );
    assert_eq!(stored(&crr).len(), 6, "no spare key is left");
}

// --- fingerprint + envelope ------------------------------------------------------

#[test]
fn fingerprint_is_stable_and_order_insensitive() {
    // Same tables/cols in different declaration order -> same fingerprint.
    let a = Schema::new(vec![
        TableSpec::new("papers", &["title", "notes"]),
        TableSpec::new("tags", &["label"]),
    ]);
    let b = Schema::new(vec![
        TableSpec::new("tags", &["label"]),
        TableSpec::new("papers", &["notes", "title"]),
    ]);
    assert_eq!(a.fingerprint(), b.fingerprint(), "order-insensitive");

    // A real structural change -> different fingerprint.
    let c = Schema::new(vec![
        TableSpec::new("papers", &["title"]),
        TableSpec::new("tags", &["label"]),
    ]);
    assert_ne!(a.fingerprint(), c.fingerprint(), "column change detected");
}

#[test]
fn matching_schemas_report_no_peer_mismatch() {
    let src = open(new_db_with_notes(), schema_v2_with_notes());
    insert_paper(&src, "p1", "A", &["title", "notes"]);

    let tgt = open(new_db_with_notes(), schema_v2_with_notes());

    let res = apply(&tgt, &changeset(&src));
    assert_eq!(res.peer_schema, None, "identical schemas -> no mismatch");
    assert_eq!(res.skipped_unknown, 0);
}

// --- a derived schema ------------------------------------------------------------

const PAPER_ALL: &[&str] = &[
    "title",
    "authors",
    "is_favorite",
    "is_read",
    "date_added",
    "date_modified",
    "citation_count",
    "cover",
    "notes",
];

fn derived_paper() -> TableSpec {
    let crdt = |tokens: Vec<Token>| {
        vec![Attribute {
            path: "crdt".to_string(),
            form: Form::List(tokens),
        }]
    };
    let word = |s: &str| Token::Word {
        text: s.to_string(),
        keyword: false,
    };
    let mut fields = vec![Field {
        ident: "id".to_string(),
        attrs: crdt(vec![word("pk")]),
    }];
    for (column, default) in PAPER_ALL.iter().zip([
        Some("\"\""),
        Some("\"[]\""),
        Some("0"),
        Some("0"),
        Some("now_rfc3339"),
        Some("now_rfc3339"),
        None,
        None,
        None,
    ]) {
        fields.push(Field {
            ident: column.to_string(),
            attrs: match default {
                Some(default) => crdt(vec![
                    word("skeleton"),
                    Token::Punct('='),
                    Token::Str(default.to_string()),
                ]),
                None => vec![],
            },
        });
    }
    fields.push(Field {
        ident: "local_only".to_string(),
        attrs: crdt(vec![word("skip")]),
    });
    expand(Declaration {
        generic: false,
        attrs: crdt(vec![
            word("table"),
            Token::Punct('='),
            Token::Str("papers".to_string()),
        ]),
        body: Body::Named(fields),
    })
    .unwrap()
    .table
}

/// A replica with a derived schema syncs a change to one with a hand-written schema.
#[test]
fn derive_built_device_round_trips_with_hand_schema_device() {
    let new_papers_db = || {
        let db = SqliteDb::in_memory().unwrap();
        execute(
            &db,
            "CREATE TABLE papers (
                id TEXT PRIMARY KEY, title TEXT NOT NULL DEFAULT '',
                authors TEXT NOT NULL DEFAULT '[]',
                is_favorite INTEGER NOT NULL DEFAULT 0,
                is_read INTEGER NOT NULL DEFAULT 0,
                date_added TEXT NOT NULL DEFAULT '',
                date_modified TEXT NOT NULL DEFAULT '',
                citation_count INTEGER, cover BLOB,
                notes TEXT NOT NULL DEFAULT ''
            )",
            vec![],
        )
        .unwrap();
        db
    };

    // Source uses the derived schema; target uses a hand-written equivalent.
    let src = open(new_papers_db(), Schema::new(vec![derived_paper()]));
    let tgt = open(
        new_papers_db(),
        Schema::new(vec![
            TableSpec::new("papers", PAPER_ALL).with_skeleton(vec![("title", empty())])
        ]),
    );

    run(
        &src,
        "INSERT INTO papers (id, title) VALUES ('p1', 'Hello')",
    );
    succeed(&src, |j| src.track_insert(j, "papers", "p1", PAPER_ALL));

    let res = apply(&tgt, &changeset(&src));
    assert_eq!(res.peer_schema, None, "same fingerprint => no mismatch");

    let rows = query(
        tgt.db(),
        "SELECT title FROM papers WHERE id = 'p1'",
        vec![],
    )
    .unwrap();
    assert_eq!(rows[0].get(0).as_text(), Some("Hello"));
}
