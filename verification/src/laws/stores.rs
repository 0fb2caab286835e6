//! How a database is kept in tables.
use vstd::prelude::*;

use crate::database::Clock;
use crate::database::Database;
use crate::database::key_value;
use crate::sql::Column;
use crate::sql::Kind;
use crate::sql::Layout;
use crate::sql::Record;
use crate::sql::Sql;
use crate::sql::Store;
use crate::sql::Term;
use crate::sql::Test;
use crate::sql::catalogue;
use crate::sql::finds;
use crate::sql::gives;
use crate::sql::is_name;
use crate::sql::is_name_char;
use crate::sql::lists;
use crate::sql::shown_row;
use crate::sql::shown_rows;
use crate::statement::Key;
use crate::statement::clock_name;
use crate::value::SqlValue;

verus! {

/// The key columns of the application's tables.
pub type Shapes = spec_fn(Seq<char>) -> Seq<Seq<char>>;

/// Whether a name is that of a clock table.
pub open spec fn is_clock(name: Seq<char>) -> bool {
    name.len() >= 11 && name.skip(name.len() - 11) == "__crr_clock"@
}

/// The table that a clock table is of.
pub open spec fn table_under(name: Seq<char>) -> Seq<char> {
    name.take(name.len() - 11)
}

/// Whether a name is that of a table of the bookkeeping other than the clock tables.
pub open spec fn is_own(name: Seq<char>) -> bool {
    name == "crr_site_id"@ || name == "crr_db_version"@ || name == "crr_sync_state"@
}

/// Whether a name is free for a table of the application.
pub open spec fn is_free(name: Seq<char>) -> bool {
    is_name(name) && !is_clock(name) && !is_own(name) && name != catalogue()
}

/// The text that a value holds.
pub open spec fn text_in(value: SqlValue) -> Seq<char> {
    value->Text_0
}

/// A clock entry as a row.
pub open spec fn entry_record(pk: Seq<char>, column: Seq<char>, clock: Clock) -> Record {
    Map::empty().insert("pk"@, SqlValue::Text(pk)).insert(
        "col_name"@,
        SqlValue::Text(column),
    ).insert("col_ver"@, SqlValue::Integer(clock.col_ver)).insert(
        "db_ver"@,
        SqlValue::Integer(clock.db_ver),
    ).insert("site_id"@, SqlValue::Blob(clock.site_id)).insert(
        "seq"@,
        SqlValue::Integer(clock.seq),
    )
}

/// Whether a row is a clock entry of a table.
pub open spec fn is_entry(db: Database, table: Seq<char>, record: Record) -> bool {
    let pk = text_in(record["pk"@]);
    let column = text_in(record["col_name"@]);
    db.clocks.dom().contains((table, pk, column)) && record == entry_record(
        pk,
        column,
        db.clocks[(table, pk, column)],
    )
}

/// A row of the application.
pub open spec fn row_record(db: Database, table: Seq<char>, key: Key) -> Record {
    Map::new(
        |column: Seq<char>| true,
        |column: Seq<char>|
            match key_value(key, column) {
                Some(value) => value,
                None => (db.cells)(table, key, column),
            },
    )
}

/// The key of a row.
pub open spec fn key_in(shape: Seq<Seq<char>>, record: Record) -> Key {
    Seq::new(shape.len(), |i: int| (shape[i], text_in(record[shape[i]])))
}

/// The columns of a key.
pub open spec fn columns_of(key: Key) -> Seq<Seq<char>> {
    Seq::new(key.len(), |i: int| key[i].0)
}

/// A row of the sync state.
pub open spec fn state_record(key: Seq<char>, value: Seq<u8>) -> Record {
    Map::empty().insert("key"@, SqlValue::Text(key)).insert("value"@, SqlValue::Blob(value))
}

/// A row of one column.
pub open spec fn single(column: Seq<char>, value: SqlValue) -> Record {
    Map::empty().insert(column, value)
}

/// Whether a table of a database holds a row.
pub open spec fn is_row(db: Database, shapes: Shapes, name: Seq<char>, record: Record) -> bool {
    if name == "crr_site_id"@ {
        db.site is Some && record == single("site_id"@, SqlValue::Blob(db.site->0))
    } else if name == "crr_db_version"@ {
        db.version is Some && record == single("version"@, db.version->0)
    } else if name == "crr_sync_state"@ {
        let key = text_in(record["key"@]);
        db.state.dom().contains(key) && record == state_record(key, db.state[key])
    } else if is_clock(name) {
        is_entry(db, table_under(name), record)
    } else {
        let key = key_in(shapes(name), record);
        db.rows.contains((name, key)) && record == row_record(db, name, key)
    }
}

/// Whether a table is there.
pub open spec fn is_table(db: Database, name: Seq<char>) -> bool {
    is_own(name) || if is_clock(name) {
        db.clock_tables.contains(table_under(name))
    } else {
        db.tables.contains(name)
    }
}

/// A column that cannot be null.
pub open spec fn required(kind: Kind) -> Option<Column> {
    Some(Column { kind, required: true, default: SqlValue::Null })
}

/// A column that can be null.
pub open spec fn optional(kind: Kind) -> Option<Column> {
    Some(Column { kind, required: false, default: SqlValue::Null })
}

/// What is declared of a column of a clock table.
pub open spec fn clock_column(name: Seq<char>) -> Option<Column> {
    if name == "pk"@ || name == "col_name"@ {
        required(Kind::Text)
    } else if name == "col_ver"@ || name == "db_ver"@ || name == "seq"@ {
        required(Kind::Integer)
    } else if name == "site_id"@ {
        required(Kind::Blob)
    } else {
        None
    }
}

/// What is declared of a clock table: its rows are told apart by key text and column.
pub open spec fn clock_layout() -> Layout {
    Layout {
        columns: |name: Seq<char>| clock_column(name),
        key: seq!["pk"@, "col_name"@],
    }
}

/// What is declared of the table of the site's identity.
pub open spec fn site_layout() -> Layout {
    Layout {
        columns: |name: Seq<char>|
            if name == "site_id"@ {
                optional(Kind::Blob)
            } else {
                None
            },
        key: seq!["site_id"@],
    }
}

/// What is declared of the table of the database version.
pub open spec fn version_layout() -> Layout {
    Layout {
        columns: |name: Seq<char>|
            if name == "version"@ {
                required(Kind::Integer)
            } else {
                None
            },
        key: Seq::empty(),
    }
}

/// What is declared of the table of the sync state: there is one value under a key.
pub open spec fn state_layout() -> Layout {
    Layout {
        columns: |name: Seq<char>|
            if name == "key"@ {
                optional(Kind::Text)
            } else if name == "value"@ {
                optional(Kind::Blob)
            } else {
                None
            },
        key: seq!["key"@],
    }
}

/// What is declared of a table of the application, as far as the bookkeeping goes.
pub open spec fn row_layout(
    defaults: spec_fn(Seq<char>, Seq<char>) -> SqlValue,
    shape: Seq<Seq<char>>,
    name: Seq<char>,
) -> Layout {
    Layout {
        columns: |column: Seq<char>|
            Some(Column { kind: Kind::Any, required: false, default: defaults(name, column) }),
        key: shape,
    }
}

/// What is declared of a table.
pub open spec fn layout_in(db: Database, shapes: Shapes, name: Seq<char>) -> Layout {
    if name == "crr_site_id"@ {
        site_layout()
    } else if name == "crr_db_version"@ {
        version_layout()
    } else if name == "crr_sync_state"@ {
        state_layout()
    } else if is_clock(name) {
        clock_layout()
    } else {
        row_layout(db.defaults, shapes(name), name)
    }
}

/// The tables that a database is kept in.
pub open spec fn store_of(db: Database, shapes: Shapes) -> Store {
    Store {
        layouts: Map::new(
            |name: Seq<char>| is_table(db, name),
            |name: Seq<char>| layout_in(db, shapes, name),
        ),
        rows: |name: Seq<char>, record: Record| is_row(db, shapes, name, record),
        draw: db.draw,
    }
}

/// Whether two stores have the same tables with the same rows.
pub open spec fn same_store(a: Store, b: Store) -> bool {
    &&& a.layouts == b.layouts
    &&& a.draw == b.draw
    &&& forall|name: Seq<char>, record: Record| #[trigger]
        (a.rows)(name, record) == (b.rows)(name, record)
}

/// Whether a database can be kept in tables: those of the application have names of their own, and
/// their rows are told apart by key columns that differ; clock entries are in clock tables; and the
/// database version is not null.
pub open spec fn storable_in(db: Database, shapes: Shapes) -> bool {
    &&& forall|name: Seq<char>| #[trigger]
        db.tables.contains(name) ==> is_free(name) && shapes(name).len() > 0 && shapes(
            name,
        ).no_duplicates()
    &&& db.version != Some(SqlValue::Null)
    &&& forall|t: Seq<char>, p: Seq<char>, c: Seq<char>| #[trigger]
        db.clocks.dom().contains((t, p, c)) ==> db.clock_tables.contains(t)
    &&& forall|t: Seq<char>, key: Key| #[trigger]
        db.rows.contains((t, key)) ==> db.tables.contains(t) && columns_of(key) == shapes(t)
}

/// The names of the columns of the bookkeeping differ.
pub proof fn lemma_column_names()
    ensures
        "pk"@ != "col_name"@,
        "pk"@ != "col_ver"@,
        "pk"@ != "db_ver"@,
        "pk"@ != "site_id"@,
        "pk"@ != "seq"@,
        "col_name"@ != "col_ver"@,
        "col_name"@ != "db_ver"@,
        "col_name"@ != "site_id"@,
        "col_name"@ != "seq"@,
        "col_ver"@ != "db_ver"@,
        "col_ver"@ != "site_id"@,
        "col_ver"@ != "seq"@,
        "db_ver"@ != "site_id"@,
        "db_ver"@ != "seq"@,
        "site_id"@ != "seq"@,
        "key"@ != "value"@,
        "type"@ != "name"@,
{
    reveal_strlit("pk");
    reveal_strlit("col_name");
    reveal_strlit("col_ver");
    reveal_strlit("db_ver");
    reveal_strlit("site_id");
    reveal_strlit("seq");
    reveal_strlit("key");
    reveal_strlit("value");
    reveal_strlit("type");
    reveal_strlit("name");
    assert("pk"@.len() == 2 && "col_name"@.len() == 8 && "col_ver"@.len() == 7);
    assert("db_ver"@.len() == 6 && "site_id"@.len() == 7 && "seq"@.len() == 3);
    assert("key"@.len() == 3 && "value"@.len() == 5);
    assert("col_ver"@[0] != "site_id"@[0]);
    assert("type"@[0] != "name"@[0]);
}

/// The names of the tables of the bookkeeping differ from each other and from those of clock
/// tables.
pub proof fn lemma_table_names()
    ensures
        "crr_site_id"@ != "crr_db_version"@,
        "crr_site_id"@ != "crr_sync_state"@,
        "crr_db_version"@ != "crr_sync_state"@,
        "crr_site_id"@ != catalogue(),
        "crr_db_version"@ != catalogue(),
        "crr_sync_state"@ != catalogue(),
        !is_clock("crr_site_id"@),
        !is_clock("crr_db_version"@),
        !is_clock("crr_sync_state"@),
        !is_clock(catalogue()),
{
    reveal_strlit("crr_site_id");
    reveal_strlit("crr_db_version");
    reveal_strlit("crr_sync_state");
    reveal_strlit("sqlite_master");
    reveal_strlit("__crr_clock");
    assert("crr_db_version"@[4] != "crr_sync_state"@[4]);
    assert("crr_site_id"@.skip(0)[10] != "__crr_clock"@[10]);
    assert("crr_db_version"@.skip(3)[10] != "__crr_clock"@[10]);
    assert("crr_sync_state"@.skip(3)[10] != "__crr_clock"@[10]);
    assert("sqlite_master"@.skip(2)[10] != "__crr_clock"@[10]);
}

pub proof fn lemma_clock_name(table: Seq<char>)
    ensures
        is_clock(clock_name(table)),
        table_under(clock_name(table)) == table,
        !is_own(clock_name(table)),
        clock_name(table) != catalogue(),
        is_name(table) ==> is_name(clock_name(table)),
{
    let name = clock_name(table);
    reveal_strlit("__crr_clock");
    assert(name.skip(name.len() - 11) =~= "__crr_clock"@);
    assert(table_under(name) =~= table);
    lemma_table_names();
    if is_name(table) {
        assert forall|i: int| 0 <= i < name.len() implies is_name_char(#[trigger] name[i]) by {
            if i < table.len() {
                assert(is_name_char(table[i]));
            }
        }
    }
}

/// A name of a clock table is that of the table it is of.
pub proof fn lemma_under(name: Seq<char>)
    requires
        is_clock(name),
    ensures
        clock_name(table_under(name)) == name,
{
    assert(clock_name(table_under(name)) =~= name);
}

pub proof fn lemma_no_test(store: Store, table: Seq<char>, params: Seq<SqlValue>, record: Record)
    ensures
        store.picks(table, Seq::empty(), params, record) == store.holds(table, record),
{
}

pub proof fn lemma_one_test(
    store: Store,
    table: Seq<char>,
    test: Test,
    params: Seq<SqlValue>,
    record: Record,
)
    ensures
        store.picks(table, seq![test], params, record) == (store.holds(table, record)
            && store.passes(test, params, record)),
{
    let tests = seq![test];
    assert(tests[0] == test);
}

pub proof fn lemma_two_tests(
    store: Store,
    table: Seq<char>,
    a: Test,
    b: Test,
    params: Seq<SqlValue>,
    record: Record,
)
    ensures
        store.picks(table, seq![a, b], params, record) == (store.holds(table, record)
            && store.passes(a, params, record) && store.passes(b, params, record)),
{
    let tests = seq![a, b];
    assert(tests[0] == a);
    assert(tests[1] == b);
}

/// What a query can list.
pub proof fn lemma_lists(
    store: Store,
    sql: Sql,
    params: Seq<SqlValue>,
    found: Seq<Record>,
    rows: Seq<Seq<SqlValue>>,
)
    requires
        sql is Select,
        finds(store, sql->Select_table, sql->Select_tests, sql->order, params, found),
        gives(
            sql->distinct,
            shown_rows(store, sql->terms, params, found, sql->limit),
            rows,
        ),
    ensures
        lists(store, sql, params, rows),
{
}

/// A query that one row meets lists what it shows of that row.
pub proof fn lemma_lists_one(
    store: Store,
    terms: Seq<Term>,
    table: Seq<char>,
    tests: Seq<Test>,
    limit: Option<nat>,
    params: Seq<SqlValue>,
    record: Record,
)
    requires
        forall|other: Record| #[trigger]
            store.picks(table, tests, params, other) <==> other == record,
        limit is None || limit == Some(1nat),
    ensures
        forall|rows: Seq<Seq<SqlValue>>| #[trigger]
            lists(
                store,
                Sql::Select {
                    distinct: false,
                    terms,
                    table,
                    tests,
                    order: Seq::empty(),
                    limit,
                },
                params,
                rows,
            ) <==> rows == seq![shown_row(store, terms, params, record)],
{
    let sql = Sql::Select {
        distinct: false,
        terms,
        table,
        tests,
        order: Seq::empty(),
        limit,
    };
    let want = seq![shown_row(store, terms, params, record)];
    let only = seq![record];
    assert(store.picks(table, tests, params, record));
    assert(shown_rows(store, terms, params, only, limit) =~= want);
    assert(finds(store, table, tests, Seq::empty(), params, only)) by {
        assert forall|other: Record| #[trigger] only.contains(other) <==> store.picks(
            table,
            tests,
            params,
            other,
        ) by {
            assert(only[0] == record);
        }
    }
    assert forall|rows: Seq<Seq<SqlValue>>| #[trigger]
        lists(store, sql, params, rows) <==> rows == want by {
        if lists(store, sql, params, rows) {
            let found = choose|found: Seq<Record>| #[trigger]
                finds(store, table, tests, Seq::empty(), params, found) && gives(
                    false,
                    shown_rows(store, terms, params, found, limit),
                    rows,
                );
            assert(found.contains(record));
            let i = choose|i: int| 0 <= i < found.len() && found[i] == record;
            assert forall|k: int| 0 <= k < found.len() implies #[trigger] found[k] == record by {
                assert(found.contains(found[k]));
            }
            assert(found.len() == 1) by {
                if found.len() > 1 {
                    assert(found[0] == found[1]);
                }
            }
            assert(found =~= only);
        }
        if rows == want {
            lemma_lists(store, sql, params, only, rows);
        }
    }
}

/// A query that no row meets lists nothing.
pub proof fn lemma_lists_none(
    store: Store,
    terms: Seq<Term>,
    table: Seq<char>,
    tests: Seq<Test>,
    limit: Option<nat>,
    params: Seq<SqlValue>,
)
    requires
        forall|other: Record| !#[trigger] store.picks(table, tests, params, other),
    ensures
        forall|rows: Seq<Seq<SqlValue>>| #[trigger]
            lists(
                store,
                Sql::Select {
                    distinct: false,
                    terms,
                    table,
                    tests,
                    order: Seq::empty(),
                    limit,
                },
                params,
                rows,
            ) <==> rows == Seq::<Seq<SqlValue>>::empty(),
{
    let sql = Sql::Select {
        distinct: false,
        terms,
        table,
        tests,
        order: Seq::empty(),
        limit,
    };
    let none = Seq::<Record>::empty();
    assert(shown_rows(store, terms, params, none, limit) =~= Seq::empty());
    assert(finds(store, table, tests, Seq::empty(), params, none));
    assert forall|rows: Seq<Seq<SqlValue>>| #[trigger]
        lists(store, sql, params, rows) <==> rows == Seq::<Seq<SqlValue>>::empty() by {
        if lists(store, sql, params, rows) {
            let found = choose|found: Seq<Record>| #[trigger]
                finds(store, table, tests, Seq::empty(), params, found) && gives(
                    false,
                    shown_rows(store, terms, params, found, limit),
                    rows,
                );
            if found.len() > 0 {
                assert(found.contains(found[0]));
            }
            assert(found =~= none);
        }
        if rows == Seq::<Seq<SqlValue>>::empty() {
            lemma_lists(store, sql, params, none, rows);
        }
    }
}

} // verus!
