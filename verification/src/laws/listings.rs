//! What the queries that list many rows list, by their texts.
use vstd::prelude::*;

use crate::ChangeView;
use crate::alive;
use crate::audit::encoded_pk;
use crate::audit::key_columns;
use crate::audit::untracked_script;
use crate::database::Database;
use crate::database::Order;
use crate::database::converse;
use crate::flow::Rows;
use crate::helpers::decodes;
use crate::helpers::key_of;
use crate::laws::audit::law_audit_finds_untracked_rows;
use crate::laws::audit::law_key_texts_read_back;
use crate::laws::effects::lemma_clock_store;
use crate::laws::effects::lemma_entry_fields;
use crate::laws::effects::lemma_is_entry;
use crate::laws::migration::is_sentinel_row;
use crate::laws::migration::lists_pks;
use crate::laws::migration::lists_sentinels;
use crate::laws::replica::length_of;
use crate::laws::replica::sound;
use crate::laws::row_effects::lemma_row_key;
use crate::laws::row_effects::lemma_row_store;
use crate::laws::running::fits;
use crate::laws::running::lemma_named;
use crate::laws::running::lemma_written;
use crate::laws::stores::Shapes;
use crate::laws::stores::columns_of;
use crate::laws::stores::entry_record;
use crate::laws::stores::is_entry;
use crate::laws::stores::is_free;
use crate::laws::stores::key_in;
use crate::laws::stores::lemma_column_names;
use crate::laws::stores::lemma_no_test;
use crate::laws::stores::lemma_one_test;
use crate::laws::stores::row_record;
use crate::laws::stores::storable_in;
use crate::laws::stores::store_of;
use crate::laws::stores::text_in;
use crate::laws::sync::entry_row;
use crate::laws::sync::is_news;
use crate::laws::sync::is_news_row;
use crate::laws::sync::law_changes_since_tells_news;
use crate::laws::sync::lemma_outgoing;
use crate::laws::sync::lemma_table_found;
use crate::laws::sync::listed_stamps;
use crate::laws::sync::lists_news;
use crate::laws::sync::outgoing;
use crate::laws::sync::tells_news;
use crate::laws::sync::told_all;
use crate::laws::sync::told_from;
use crate::laws::texts::entry_columns;
use crate::laws::texts::fields;
use crate::laws::texts::reading;
use crate::laws::texts::test_of;
use crate::schema::PkView;
use crate::schema::SENTINEL;
use crate::schema::TableView;
use crate::schema::table_of;
use crate::sql::Record;
use crate::sql::Relation;
use crate::sql::Sql;
use crate::sql::Term;
use crate::sql::Test;
use crate::sql::finds;
use crate::sql::gives;
use crate::sql::is_name;
use crate::sql::lists;
use crate::sql::precedes;
use crate::sql::reads;
use crate::sql::shown_rows;
use crate::statement::Key;
use crate::statement::StatementView;
use crate::statement::clock_name;
use crate::statement::key_values;
use crate::text::lemma_halves_join;
use crate::text::lemma_join_halves;
use crate::tracking::changes_script;
use crate::tracking::listed_stamp;
use crate::value::SqlValue;

verus! {

/// Whether a database lists what the text of a query asks for.
pub open spec fn honest(
    db: Database,
    shapes: Shapes,
    order: Order,
    st: StatementView,
) -> bool {
    forall|sql: Sql| #[trigger]
        reads(st.sql(), sql) ==> lists(store_of(db, shapes), sql, st.params(), order(db, st))
}

/// What an honest database lists are the rows of its reading.
proof fn lemma_honest(db: Database, shapes: Shapes, order: Order, st: StatementView) -> (found:
    Seq<Record>)
    requires
        honest(db, shapes, order, st),
        fits(db, shapes, st),
        reading(st) is Select,
        reading(st)->limit is None,
    ensures
        ({
            let sql = reading(st);
            let store = store_of(db, shapes);
            &&& finds(
                store,
                sql->Select_table,
                sql->Select_tests,
                sql->order,
                st.params(),
                found,
            )
            &&& gives(
                sql->distinct,
                shown_rows(store, sql->terms, st.params(), found, None),
                order(db, st),
            )
        }),
{
    lemma_written(db, shapes, st);
    lemma_named(db, shapes, st);
    assert(reads(st.sql(), reading(st)));
    let sql = reading(st);
    let store = store_of(db, shapes);
    choose|found: Seq<Record>| #[trigger]
        finds(
            store,
            sql->Select_table,
            sql->Select_tests,
            sql->order,
            st.params(),
            found,
        ) && gives(
            sql->distinct,
            shown_rows(store, sql->terms, st.params(), found, sql->limit),
            order(db, st),
        )
}

/// The query for changes, by its text and parameters, lists every clock entry above the version
/// that
/// is asked for, however many there are, each once, and nothing else; and it lists them by their
/// versions, those of one version by their numbers.
pub proof fn law_changes_are_listed(
    db: Database,
    shapes: Shapes,
    order: Order,
    table: Seq<char>,
    since: i64,
)
    requires
        is_name(table),
        honest(db, shapes, order, StatementView::SelectChanges { table, since }),
    ensures
        lists_news(db, order, table, since),
        ({
            let rows = order(db, StatementView::SelectChanges { table, since });
            forall|i: int, j: int|
                0 <= i < j < rows.len() ==> {
                    let (a, b) = (#[trigger] rows[i], #[trigger] rows[j]);
                    a[3]->Integer_0 < b[3]->Integer_0 || a[3] == b[3] && a[5]->Integer_0
                        <= b[5]->Integer_0
                }
        }),
{
    let st = StatementView::SelectChanges { table, since };
    let rows = order(db, st);
    let store = store_of(db, shapes);
    let name = clock_name(table);
    let params = st.params();
    let test = test_of("db_ver"@, Relation::Above, 1);
    let tests = seq![test];
    let by = seq!["db_ver"@, "seq"@];
    let found = lemma_honest(db, shapes, order, st);
    lemma_clock_store(db, shapes, table);
    lemma_column_names();
    let terms = fields(entry_columns());
    assert forall|record: Record| #[trigger] store.picks(name, tests, params, record) <==> (
    is_entry(db, table, record) && is_news(
        db,
        table,
        text_in(record["pk"@]),
        text_in(record["col_name"@]),
        since,
    )) by {
        lemma_one_test(store, name, test, params, record);
        let pk = text_in(record["pk"@]);
        let column = text_in(record["col_name"@]);
        lemma_entry_fields(pk, column, db.clocks[(table, pk, column)]);
    }
    assert forall|i: int| 0 <= i < found.len() implies {
        let pk = text_in((#[trigger] found[i])["pk"@]);
        let column = text_in(found[i]["col_name"@]);
        let clock = db.clocks[(table, pk, column)];
        is_news(db, table, pk, column, since) && rows[i] == entry_row(pk, column, clock)
            && found[i] == entry_record(pk, column, clock)
    } by {
        assert(found.contains(found[i]));
        let pk = text_in(found[i]["pk"@]);
        let column = text_in(found[i]["col_name"@]);
        let clock = db.clocks[(table, pk, column)];
        lemma_entry_fields(pk, column, clock);
        assert(rows[i] =~= entry_row(pk, column, clock)) by {
            let columns = entry_columns();
            assert(columns[0] == "pk"@ && columns[1] == "col_name"@ && columns[2] == "col_ver"@);
            assert(columns[3] == "db_ver"@ && columns[4] == "site_id"@ && columns[5] == "seq"@);
        }
    }
    assert(rows.len() == found.len());
    assert forall|i: int, j: int| 0 <= i < j < rows.len() implies rows[i] != rows[j] by {
        assert(found[i] != found[j]);
        if rows[i] == rows[j] {
            let (pi, ci) = (text_in(found[i]["pk"@]), text_in(found[i]["col_name"@]));
            let (pj, cj) = (text_in(found[j]["pk"@]), text_in(found[j]["col_name"@]));
            assert(rows[i][0] == SqlValue::Text(pi) && rows[j][0] == SqlValue::Text(pj));
            assert(rows[i][1] == SqlValue::Text(ci) && rows[j][1] == SqlValue::Text(cj));
        }
    }
    assert(rows.no_duplicates());
    assert forall|pk: Seq<char>, column: Seq<char>| #[trigger]
        is_news(db, table, pk, column, since) implies rows.contains(
        entry_row(pk, column, db.clocks[(table, pk, column)]),
    ) by {
        let clock = db.clocks[(table, pk, column)];
        let record = entry_record(pk, column, clock);
        lemma_entry_fields(pk, column, clock);
        lemma_is_entry(db, table, pk, column);
        assert(store.picks(name, tests, params, record));
        assert(found.contains(record));
        let i = choose|i: int| 0 <= i < found.len() && found[i] == record;
        assert(rows[i] == entry_row(pk, column, clock));
    }
    assert forall|i: int| #![trigger rows[i]] 0 <= i < rows.len() implies is_news_row(
        db,
        table,
        since,
        rows[i],
    ) by {
        let pk = text_in(found[i]["pk"@]);
        let column = text_in(found[i]["col_name"@]);
        assert(is_news(db, table, pk, column, since));
    }
    assert forall|i: int, j: int| 0 <= i < j < rows.len() implies {
        let (a, b) = (#[trigger] rows[i], #[trigger] rows[j]);
        a[3]->Integer_0 < b[3]->Integer_0 || a[3] == b[3] && a[5]->Integer_0 <= b[5]->Integer_0
    } by {
        let (pi, ci) = (text_in(found[i]["pk"@]), text_in(found[i]["col_name"@]));
        let (pj, cj) = (text_in(found[j]["pk"@]), text_in(found[j]["col_name"@]));
        lemma_entry_fields(pi, ci, db.clocks[(table, pi, ci)]);
        lemma_entry_fields(pj, cj, db.clocks[(table, pj, cj)]);
        assert(!precedes(found[j], found[i], by, 0));
        assert(by[0] == "db_ver"@ && by[1] == "seq"@);
        reveal_with_fuel(precedes, 3);
    }
}

/// The query for sentinels, by its text and parameters, lists the key and causal length of every
/// row
/// that has a sentinel, and nothing else.
pub proof fn law_sentinels_are_listed(
    db: Database,
    shapes: Shapes,
    order: Order,
    table: Seq<char>,
)
    requires
        is_name(table),
        honest(db, shapes, order, StatementView::SelectSentinels { table }),
    ensures
        lists_sentinels(db, order, table),
{
    let st = StatementView::SelectSentinels { table };
    let rows = order(db, st);
    let store = store_of(db, shapes);
    let name = clock_name(table);
    let params = st.params();
    let test = test_of("col_name"@, Relation::Same, 1);
    let tests = seq![test];
    let found = lemma_honest(db, shapes, order, st);
    lemma_clock_store(db, shapes, table);
    lemma_column_names();
    assert forall|record: Record| #[trigger] store.picks(name, tests, params, record) <==> (
    is_entry(db, table, record) && text_in(record["col_name"@]) == SENTINEL@) by {
        lemma_one_test(store, name, test, params, record);
        let pk = text_in(record["pk"@]);
        let column = text_in(record["col_name"@]);
        lemma_entry_fields(pk, column, db.clocks[(table, pk, column)]);
    }
    assert(rows.len() == found.len());
    assert forall|i: int| 0 <= i < found.len() implies {
        let pk = text_in((#[trigger] found[i])["pk"@]);
        db.clocks.dom().contains((table, pk, SENTINEL@)) && rows[i] == seq![
            SqlValue::Text(pk),
            SqlValue::Integer(length_of(db, table, pk)),
        ]
    } by {
        assert(found.contains(found[i]));
        let pk = text_in(found[i]["pk"@]);
        lemma_entry_fields(pk, SENTINEL@, db.clocks[(table, pk, SENTINEL@)]);
        assert(rows[i] =~= seq![
            SqlValue::Text(pk),
            SqlValue::Integer(length_of(db, table, pk)),
        ]);
    }
    assert forall|pk: Seq<char>| #[trigger]
        db.clocks.dom().contains((table, pk, SENTINEL@)) implies rows.contains(
        seq![SqlValue::Text(pk), SqlValue::Integer(length_of(db, table, pk))],
    ) by {
        let clock = db.clocks[(table, pk, SENTINEL@)];
        let record = entry_record(pk, SENTINEL@, clock);
        lemma_entry_fields(pk, SENTINEL@, clock);
        lemma_is_entry(db, table, pk, SENTINEL@);
        assert(store.picks(name, tests, params, record));
        assert(found.contains(record));
        let i = choose|i: int| 0 <= i < found.len() && found[i] == record;
        assert(rows[i] == seq![SqlValue::Text(pk), SqlValue::Integer(length_of(db, table, pk))]);
    }
    assert forall|i: int| #![trigger rows[i]] 0 <= i < rows.len() implies is_sentinel_row(
        db,
        table,
        rows[i],
    ) by {
        let pk = text_in(found[i]["pk"@]);
        assert(db.clocks.dom().contains((table, pk, SENTINEL@)));
    }
}

/// Whether a row is a key that the clock table of a table holds.
pub open spec fn is_pk_row(db: Database, table: Seq<char>, row: Seq<SqlValue>) -> bool {
    exists|pk: Seq<char>, column: Seq<char>| #[trigger]
        db.clocks.dom().contains((table, pk, column)) && row == seq![SqlValue::Text(pk)]
}

/// Whether a row is the key of a row of a table.
pub open spec fn is_key_row(db: Database, table: Seq<char>, row: Seq<SqlValue>) -> bool {
    exists|key: Key| #[trigger] db.rows.contains((table, key)) && row == key_values(key)
}

/// Whether rows are keys that the clock table of a table holds.
pub open spec fn only_pks(db: Database, table: Seq<char>, rows: Rows) -> bool {
    forall|i: int| 0 <= i < rows.len() ==> is_pk_row(db, table, #[trigger] rows[i])
}

/// Whether rows are the keys of a table's rows, each once.
pub open spec fn just_keys(db: Database, table: Seq<char>, rows: Rows) -> bool {
    &&& rows.no_duplicates()
    &&& forall|key: Key| #[trigger]
        db.rows.contains((table, key)) ==> rows.contains(key_values(key))
    &&& forall|i: int| 0 <= i < rows.len() ==> is_key_row(db, table, #[trigger] rows[i])
}

/// The query for keys, by its text, lists every key that the clock table holds, each once, and
/// nothing else.
pub proof fn law_pks_are_listed(db: Database, shapes: Shapes, order: Order, table: Seq<char>)
    requires
        is_name(table),
        honest(db, shapes, order, StatementView::SelectPks { table }),
    ensures
        lists_pks(db, order, table),
        order(db, StatementView::SelectPks { table }).no_duplicates(),
        only_pks(db, table, order(db, StatementView::SelectPks { table })),
{
    let st = StatementView::SelectPks { table };
    let rows = order(db, st);
    let store = store_of(db, shapes);
    let name = clock_name(table);
    let params = st.params();
    let tests = Seq::<Test>::empty();
    let terms = seq![Term::Field("pk"@)];
    let found = lemma_honest(db, shapes, order, st);
    let shown = shown_rows(store, terms, params, found, None);
    lemma_clock_store(db, shapes, table);
    assert forall|record: Record| #[trigger] store.picks(name, tests, params, record) <==> is_entry(
        db,
        table,
        record,
    ) by {
        lemma_no_test(store, name, params, record);
    }
    assert forall|i: int| 0 <= i < found.len() implies {
        let pk = text_in((#[trigger] found[i])["pk"@]);
        is_entry(db, table, found[i]) && shown[i] == seq![SqlValue::Text(pk)]
    } by {
        assert(found.contains(found[i]));
        let pk = text_in(found[i]["pk"@]);
        let column = text_in(found[i]["col_name"@]);
        lemma_entry_fields(pk, column, db.clocks[(table, pk, column)]);
        assert(shown[i] =~= seq![SqlValue::Text(pk)]);
    }
    assert forall|pk: Seq<char>, column: Seq<char>| #[trigger]
        db.clocks.dom().contains((table, pk, column)) implies rows.contains(
        seq![SqlValue::Text(pk)],
    ) by {
        let clock = db.clocks[(table, pk, column)];
        let record = entry_record(pk, column, clock);
        lemma_entry_fields(pk, column, clock);
        lemma_is_entry(db, table, pk, column);
        assert(store.picks(name, tests, params, record));
        assert(found.contains(record));
        let i = choose|i: int| 0 <= i < found.len() && found[i] == record;
        assert(shown[i] == seq![SqlValue::Text(pk)]);
        assert(shown.contains(shown[i]));
    }
    assert forall|i: int| #![trigger rows[i]] 0 <= i < rows.len() implies is_pk_row(
        db,
        table,
        rows[i],
    ) by {
        assert(rows.contains(rows[i]));
        assert(shown.contains(rows[i]));
        let k = choose|k: int| 0 <= k < shown.len() && shown[k] == rows[i];
        let pk = text_in(found[k]["pk"@]);
        let column = text_in(found[k]["col_name"@]);
        assert(is_entry(db, table, found[k]));
        assert(db.clocks.dom().contains((table, pk, column)));
    }
}

/// The query for the keys of a table's rows, by its text, lists the key of every row once, and
/// nothing else.
pub proof fn law_row_keys_are_listed(db: Database, shapes: Shapes, order: Order, table: Seq<char>)
    requires
        storable_in(db, shapes),
        db.tables.contains(table),
        fits(db, shapes, StatementView::SelectKeys { table, columns: shapes(table) }),
        honest(
            db,
            shapes,
            order,
            StatementView::SelectKeys { table, columns: shapes(table) },
        ),
    ensures
        just_keys(
            db,
            table,
            order(db, StatementView::SelectKeys { table, columns: shapes(table) }),
        ),
{
    let shape = shapes(table);
    let st = StatementView::SelectKeys { table, columns: shape };
    let rows = order(db, st);
    let store = store_of(db, shapes);
    let params = st.params();
    let tests = Seq::<Test>::empty();
    let found = lemma_honest(db, shapes, order, st);
    lemma_row_store(db, shapes, table);
    assert(is_free(table));
    assert(rows.len() == found.len());
    assert forall|record: Record| #[trigger] store.picks(table, tests, params, record)
        <==> store.holds(table, record) by {
        lemma_no_test(store, table, params, record);
    }
    assert forall|i: int| 0 <= i < found.len() implies {
        let key = key_in(shape, #[trigger] found[i]);
        db.rows.contains((table, key)) && found[i] == row_record(db, table, key) && rows[i]
            == key_values(key)
    } by {
        assert(found.contains(found[i]));
        assert(store.holds(table, found[i]));
        let key = key_in(shape, found[i]);
        lemma_row_key(db, table, key);
        assert forall|k: int| 0 <= k < key.len() implies rows[i][k] == key_values(key)[k] by {
            assert(key[k].0 == shape[k]);
            assert(found[i][key[k].0] == SqlValue::Text(key[k].1));
        }
        assert(rows[i] =~= key_values(key));
    }
    assert forall|i: int, j: int| 0 <= i < j < rows.len() implies rows[i] != rows[j] by {
        assert(found[i] != found[j]);
        if rows[i] == rows[j] {
            let (a, b) = (key_in(shape, found[i]), key_in(shape, found[j]));
            assert forall|k: int| 0 <= k < a.len() implies a[k] == b[k] by {
                assert(rows[i][k] == SqlValue::Text(a[k].1));
                assert(rows[j][k] == SqlValue::Text(b[k].1));
            }
            assert(a =~= b);
        }
    }
    assert(rows.no_duplicates());
    assert forall|key: Key| #[trigger]
        db.rows.contains((table, key)) implies rows.contains(key_values(key)) by {
        lemma_row_key(db, table, key);
        let record = row_record(db, table, key);
        assert(store.holds(table, record));
        assert(store.picks(table, tests, params, record));
        assert(found.contains(record));
        let i = choose|i: int| 0 <= i < found.len() && found[i] == record;
        assert(rows[i] == key_values(key));
    }
    assert forall|i: int| #![trigger rows[i]] 0 <= i < rows.len() implies is_key_row(
        db,
        table,
        rows[i],
    ) by {
        let key = key_in(shape, found[i]);
        assert(db.rows.contains((table, key)));
    }
}

/// An export from a database that lists what the texts of the queries ask for tells of every clock
/// entry above the version that is asked for, and of nothing else.
pub proof fn law_export_is_complete(
    tables: Seq<TableView>,
    db: Database,
    shapes: Shapes,
    order: Order,
    since: i64,
)
    requires
        sound(db, tables),
        forall|name: Seq<char>| #[trigger]
            table_of(tables, name) is Some ==> is_name(name) && honest(
                db,
                shapes,
                order,
                StatementView::SelectChanges { table: name, since },
            ),
    ensures
        ({
            let (outcome, after) = converse(
                changes_script(tables, since, 0, Seq::empty()),
                db,
                order,
            );
            &&& after == db
            &&& outcome is Some
            &&& outcome->0 is Ok
            &&& forall|x: ChangeView| #[trigger]
                outcome->0->Ok_0.contains(x) <==> tells_news(tables, db, since, x)
        }),
{
    assert forall|name: Seq<char>| #[trigger] table_of(tables, name) is Some implies lists_news(
        db,
        order,
        name,
        since,
    ) by {
        law_changes_are_listed(db, shapes, order, name, since);
    }
    law_changes_since_tells_news(tables, db, order, since);
}

/// Whether one table of a list comes before another.
pub open spec fn comes_before(
    tables: Seq<TableView>,
    a: Seq<char>,
    b: Seq<char>,
    from: int,
) -> bool {
    exists|i: int, j: int|
        from <= i < j < tables.len() && (#[trigger] tables[i]).name == a && (
        #[trigger] tables[j]).name == b
}

/// Whether a change is told before another of the same table: it is of a lower version, or of the
/// same and of no higher number.
pub open spec fn told_before(a: ChangeView, b: ChangeView) -> bool {
    a.db_ver < b.db_ver || a.db_ver == b.db_ver && a.seq <= b.seq
}

proof fn lemma_in_order(
    tables: Seq<TableView>,
    db: Database,
    shapes: Shapes,
    order: Order,
    since: i64,
    from: int,
)
    requires
        0 <= from <= tables.len(),
        forall|name: Seq<char>| #[trigger]
            table_of(tables, name) is Some ==> is_name(name) && honest(
                db,
                shapes,
                order,
                StatementView::SelectChanges { table: name, since },
            ),
    ensures
        ({
            let out = told_from(tables, db, order, since, from);
            &&& forall|i: int|
                0 <= i < out.len() ==> exists|k: int|
                    from <= k < tables.len() && (#[trigger] tables[k]).name == (
                    #[trigger] out[i]).table_name
            &&& forall|i: int, j: int|
                0 <= i < j < out.len() ==> {
                    let (a, b) = (#[trigger] out[i], #[trigger] out[j]);
                    (a.table_name == b.table_name && told_before(a, b)) || comes_before(
                        tables,
                        a.table_name,
                        b.table_name,
                        from,
                    )
                }
        }),
    decreases tables.len() - from,
{
    if from < tables.len() {
        let name = tables[from].name;
        lemma_in_order(tables, db, shapes, order, since, from + 1);
        lemma_table_found(tables, from, 0);
        assert(table_of(tables, name) is Some);
        law_changes_are_listed(db, shapes, order, name, since);
        let rows = order(db, StatementView::SelectChanges { table: name, since });
        let stamps = listed_stamps(db, order, name, since);
        let own = told_all(tables, db, name, stamps);
        let rest = told_from(tables, db, order, since, from + 1);
        let out = told_from(tables, db, order, since, from);
        assert(out == own + rest);
        assert forall|i: int| 0 <= i < out.len() implies exists|k: int|
            from <= k < tables.len() && (#[trigger] tables[k]).name == (
            #[trigger] out[i]).table_name by {
            if i < own.len() {
                assert(tables[from].name == out[i].table_name);
            } else {
                assert(out[i] == rest[i - own.len()]);
                let k = choose|k: int|
                    from + 1 <= k < tables.len() && (#[trigger] tables[k]).name == rest[i
                        - own.len()].table_name;
                assert(tables[k].name == out[i].table_name);
            }
        }
        assert forall|i: int, j: int| 0 <= i < j < out.len() implies {
            let (a, b) = (#[trigger] out[i], #[trigger] out[j]);
            (a.table_name == b.table_name && told_before(a, b)) || comes_before(
                tables,
                a.table_name,
                b.table_name,
                from,
            )
        } by {
            if j < own.len() {
                assert(is_news_row(db, name, since, rows[i]));
                assert(is_news_row(db, name, since, rows[j]));
                assert(stamps[i] == listed_stamp(rows[i]));
                assert(stamps[j] == listed_stamp(rows[j]));
            } else if i < own.len() {
                assert(out[j] == rest[j - own.len()]);
                let k = choose|k: int|
                    from + 1 <= k < tables.len() && (#[trigger] tables[k]).name == rest[j
                        - own.len()].table_name;
                assert(tables[from].name == out[i].table_name);
                assert(tables[k].name == out[j].table_name);
            } else {
                assert(out[i] == rest[i - own.len()]);
                assert(out[j] == rest[j - own.len()]);
                let (a, b) = (out[i], out[j]);
                if comes_before(tables, a.table_name, b.table_name, from + 1) {
                    let (k, m) = choose|k: int, m: int|
                        from + 1 <= k < m < tables.len() && (#[trigger] tables[k]).name
                            == a.table_name && (#[trigger] tables[m]).name == b.table_name;
                    assert(tables[k].name == a.table_name && tables[m].name == b.table_name);
                }
            }
        }
    }
}

/// An export tells the changes table by table, in the order in which the tables are declared, and
/// those of one table by their versions, those of one version by their numbers.
pub proof fn law_exports_are_in_order(
    tables: Seq<TableView>,
    db: Database,
    shapes: Shapes,
    order: Order,
    since: i64,
)
    requires
        sound(db, tables),
        forall|name: Seq<char>| #[trigger]
            table_of(tables, name) is Some ==> is_name(name) && honest(
                db,
                shapes,
                order,
                StatementView::SelectChanges { table: name, since },
            ),
    ensures
        ({
            let out = outgoing(tables, db, order, since);
            forall|i: int, j: int|
                0 <= i < j < out.len() ==> {
                    let (a, b) = (#[trigger] out[i], #[trigger] out[j]);
                    (a.table_name == b.table_name && told_before(a, b)) || comes_before(
                        tables,
                        a.table_name,
                        b.table_name,
                        0,
                    )
                }
        }),
{
    lemma_outgoing(tables, db, order, since);
    lemma_in_order(tables, db, shapes, order, since, 0);
}

/// The key text that the audit gives of a row is the one that stands for its key.
proof fn lemma_key_text(shape: PkView, key: Key)
    requires
        match shape {
            PkView::Single { column } => columns_of(key) == seq![column],
            PkView::Composite { columns, sep } => columns_of(key) == seq![columns.0, columns.1]
                && !key[0].1.contains(sep),
        },
    ensures
        decodes(shape, encoded_pk(shape, key_values(key))),
        key_of(shape, encoded_pk(shape, key_values(key))) == key,
{
    let row = key_values(key);
    assert(columns_of(key).len() == key.len());
    match shape {
        PkView::Single { column } => {
            let a = key[0].1;
            assert(columns_of(key)[0] == column);
            assert(row =~= seq![SqlValue::Text(a)]);
            assert(key =~= seq![(column, a)]);
        },
        PkView::Composite { columns, sep } => {
            let (a, b) = (key[0].1, key[1].1);
            assert(columns_of(key)[0] == columns.0 && columns_of(key)[1] == columns.1);
            assert(row =~= seq![SqlValue::Text(a), SqlValue::Text(b)]);
            law_key_texts_read_back(shape, a, b);
            lemma_join_halves(a, sep, b);
            assert(key =~= seq![(columns.0, a), (columns.1, b)]);
        },
    }
}

/// The audit of a database that lists what the texts of the queries ask for finds the row of a key
/// text exactly if it is in its table and not tracked as alive. Of two key columns, the first must
/// be
/// free of the separator.
pub proof fn law_audit_finds_the_rows(
    tables: Seq<TableView>,
    db: Database,
    shapes: Shapes,
    order: Order,
    table: TableView,
)
    requires
        storable_in(db, shapes),
        is_name(table.name),
        table_of(tables, table.name) == Some(table),
        db.clock_tables.contains(table.name),
        db.tables.contains(table.name),
        shapes(table.name) == (match table.pk {
            PkView::Single { column } => seq![column],
            PkView::Composite { columns, sep } => seq![columns.0, columns.1],
        }),
        fits(
            db,
            shapes,
            StatementView::SelectKeys { table: table.name, columns: shapes(table.name) },
        ),
        honest(
            db,
            shapes,
            order,
            StatementView::SelectKeys { table: table.name, columns: shapes(table.name) },
        ),
        honest(db, shapes, order, StatementView::SelectSentinels { table: table.name }),
        forall|key: Key| #[trigger]
            db.rows.contains((table.name, key)) ==> (table.pk matches PkView::Composite {
                columns,
                sep,
            } ==> !key[0].1.contains(sep)),
    ensures
        ({
            let (outcome, after) = converse(untracked_script(tables, table.name), db, order);
            &&& after == db
            &&& outcome is Some
            &&& outcome->0 is Ok
            &&& forall|pk: Seq<char>| #[trigger]
                outcome->0->Ok_0.contains(pk) <==> !alive(length_of(db, table.name, pk)) && decodes(
                    table.pk,
                    pk,
                ) && db.rows.contains((table.name, key_of(table.pk, pk)))
        }),
{
    let columns = shapes(table.name);
    assert(key_columns(table.pk) =~= columns);
    let rows = order(db, StatementView::SelectKeys { table: table.name, columns });
    law_row_keys_are_listed(db, shapes, order, table.name);
    law_sentinels_are_listed(db, shapes, order, table.name);
    law_audit_finds_untracked_rows(tables, db, order, table);
    let found = converse(untracked_script(tables, table.name), db, order).0->0->Ok_0;
    assert forall|pk: Seq<char>| #[trigger] found.contains(pk) <==> !alive(
        length_of(db, table.name, pk),
    ) && decodes(table.pk, pk) && db.rows.contains((table.name, key_of(table.pk, pk))) by {
        if found.contains(pk) {
            let i = choose|i: int|
                #![trigger rows[i]]
                0 <= i < rows.len() && encoded_pk(table.pk, rows[i]) == pk;
            assert(is_key_row(db, table.name, rows[i]));
            let key = choose|key: Key| #[trigger]
                db.rows.contains((table.name, key)) && rows[i] == key_values(key);
            lemma_key_text(table.pk, key);
        }
        if decodes(table.pk, pk) && db.rows.contains((table.name, key_of(table.pk, pk))) {
            let key = key_of(table.pk, pk);
            let row = key_values(key);
            assert(rows.contains(row));
            let i = choose|i: int| 0 <= i < rows.len() && rows[i] == row;
            assert(encoded_pk(table.pk, rows[i]) == pk) by {
                if let PkView::Composite { columns, sep } = table.pk {
                    lemma_halves_join(pk, sep);
                }
            }
        }
    }
}

} // verus!
