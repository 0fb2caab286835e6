//! What the statements do to the tables that a database is kept in.
use vstd::prelude::*;

use crate::database::Clock;
use crate::database::Database;
use crate::database::Order;
use crate::database::clock_of;
use crate::flow::ReplyView;
use crate::laws::stores::Shapes;
use crate::laws::stores::clock_column;
use crate::laws::stores::clock_layout;
use crate::laws::stores::entry_record;
use crate::laws::stores::is_clock;
use crate::laws::stores::is_entry;
use crate::laws::stores::is_row;
use crate::laws::stores::is_table;
use crate::laws::stores::lemma_clock_name;
use crate::laws::stores::lemma_column_names;
use crate::laws::stores::lemma_lists_none;
use crate::laws::stores::lemma_lists_one;
use crate::laws::stores::lemma_no_test;
use crate::laws::stores::lemma_one_test;
use crate::laws::stores::lemma_table_names;
use crate::laws::stores::lemma_two_tests;
use crate::laws::stores::lemma_under;
use crate::laws::stores::same_store;
use crate::laws::stores::single;
use crate::laws::stores::site_layout;
use crate::laws::stores::state_layout;
use crate::laws::stores::state_record;
use crate::laws::stores::store_of;
use crate::laws::stores::table_under;
use crate::laws::stores::text_in;
use crate::laws::stores::version_layout;
use crate::laws::texts::entry_columns;
use crate::laws::texts::params_to;
use crate::laws::texts::reading;
use crate::laws::texts::test_of;
use crate::sql::Record;
use crate::sql::Relation;
use crate::sql::Sql;
use crate::sql::Store;
use crate::sql::Term;
use crate::sql::Test;
use crate::sql::catalogue;
use crate::sql::catalogue_record;
use crate::sql::column_from;
use crate::sql::effect;
use crate::sql::incomplete;
use crate::sql::key_from;
use crate::sql::lists;
use crate::sql::made_layout;
use crate::sql::made_row;
use crate::sql::same_key;
use crate::sql::shown_row;
use crate::statement::StampView;
use crate::statement::StatementView;
use crate::statement::clock_name;
use crate::value::SqlValue;

verus! {

/// Whether running a statement comes to what the model says.
pub open spec fn agrees(
    db: Database,
    shapes: Shapes,
    st: StatementView,
    sql: Sql,
    order: Order,
) -> bool {
    let (reply, after) = db.perform(st, order);
    match effect(store_of(db, shapes), sql, st.params()) {
        None => reply is Failed && after == db,
        Some(store) => reply is Rows && same_store(store, store_of(after, shapes)),
    }
}

/// Whether a query lists just what the model says.
pub open spec fn answers(
    db: Database,
    shapes: Shapes,
    st: StatementView,
    sql: Sql,
    order: Order,
) -> bool {
    forall|rows: Seq<Seq<SqlValue>>| #[trigger]
        lists(store_of(db, shapes), sql, st.params(), rows) <==> db.perform(st, order).0
            == ReplyView::Rows(rows)
}

pub proof fn lemma_entry_fields(pk: Seq<char>, column: Seq<char>, clock: Clock)
    ensures
        ({
            let record = entry_record(pk, column, clock);
            &&& record["pk"@] == SqlValue::Text(pk)
            &&& record["col_name"@] == SqlValue::Text(column)
            &&& record["col_ver"@] == SqlValue::Integer(clock.col_ver)
            &&& record["db_ver"@] == SqlValue::Integer(clock.db_ver)
            &&& record["site_id"@] == SqlValue::Blob(clock.site_id)
            &&& record["seq"@] == SqlValue::Integer(clock.seq)
            &&& !incomplete(clock_layout(), record)
        }),
{
    lemma_column_names();
}

/// What is an entry is a row with these fields.
pub proof fn lemma_is_entry(db: Database, table: Seq<char>, pk: Seq<char>, column: Seq<char>)
    ensures
        is_entry(db, table, entry_record(pk, column, db.clocks[(table, pk, column)]))
            == db.clocks.dom().contains((table, pk, column)),
{
    lemma_entry_fields(pk, column, db.clocks[(table, pk, column)]);
}

pub proof fn lemma_clock_store(db: Database, shapes: Shapes, table: Seq<char>)
    ensures
        ({
            let store = store_of(db, shapes);
            let name = clock_name(table);
            &&& store.layouts.dom().contains(name) == db.clock_tables.contains(table)
            &&& store.has(name) == db.clock_tables.contains(table)
            &&& db.clock_tables.contains(table) ==> store.layouts[name] == clock_layout()
            &&& forall|record: Record| #[trigger]
                store.holds(name, record) == is_entry(db, table, record)
        }),
{
    lemma_clock_name(table);
}

/// A change of one clock table is a change of the clock entries of its table.
proof fn lemma_clock_frame(
    db: Database,
    after: Database,
    shapes: Shapes,
    table: Seq<char>,
    rows: spec_fn(Record) -> bool,
)
    requires
        after == (Database { clocks: after.clocks, ..db }),
        forall|t: Seq<char>, p: Seq<char>, c: Seq<char>|
            t != table ==> (#[trigger] after.clocks.dom().contains((t, p, c))
                == db.clocks.dom().contains((t, p, c)) && (db.clocks.dom().contains((t, p, c))
                ==> after.clocks[(t, p, c)] == db.clocks[(t, p, c)])),
        forall|record: Record| #[trigger] rows(record) == is_entry(after, table, record),
    ensures
        same_store(
            store_of(db, shapes).with_rows(clock_name(table), rows),
            store_of(after, shapes),
        ),
{
    let a = store_of(db, shapes).with_rows(clock_name(table), rows);
    let b = store_of(after, shapes);
    lemma_clock_name(table);
    assert(a.layouts =~= b.layouts);
    assert forall|name: Seq<char>, record: Record| #[trigger]
        (a.rows)(name, record) == (b.rows)(name, record) by {
        if name == clock_name(table) {
            assert(rows(record) == is_entry(after, table, record));
        } else if is_clock(name) {
            lemma_under(name);
            assert(after.clocks.dom().contains(
                (table_under(name), text_in(record["pk"@]), text_in(record["col_name"@])),
            ) == db.clocks.dom().contains(
                (table_under(name), text_in(record["pk"@]), text_in(record["col_name"@])),
            ));
        }
    }
}

proof fn lemma_same_entry_key(a: Record, b: Record)
    ensures
        same_key(clock_layout(), a, b) == (a["pk"@] == b["pk"@] && a["col_name"@]
            == b["col_name"@]),
{
    let key = clock_layout().key;
    assert(key[0] == "pk"@ && key[1] == "col_name"@);
}

pub proof fn lemma_drop_column(
    db: Database,
    shapes: Shapes,
    order: Order,
    table: Seq<char>,
    column: Seq<char>,
)
    ensures
        ({
            let st = StatementView::DropColumn { table, column };
            agrees(db, shapes, st, reading(st), order)
        }),
{
    let st = StatementView::DropColumn { table, column };
    let (reply, after) = db.perform(st, order);
    let store = store_of(db, shapes);
    let name = clock_name(table);
    let test = test_of("col_name"@, Relation::Same, 1);
    lemma_clock_store(db, shapes, table);
    if db.clock_tables.contains(table) {
        let rows = |record: Record|
            store.holds(name, record) && !store.picks(name, seq![test], st.params(), record);
        assert forall|record: Record| #[trigger] rows(record) == is_entry(
            after,
            table,
            record,
        ) by {
            lemma_one_test(store, name, test, st.params(), record);
            let pk = text_in(record["pk"@]);
            let own = text_in(record["col_name"@]);
            lemma_entry_fields(pk, own, db.clocks[(table, pk, own)]);
        }
        lemma_clock_frame(db, after, shapes, table, rows);
    }
}

pub proof fn lemma_drop_pk(
    db: Database,
    shapes: Shapes,
    order: Order,
    table: Seq<char>,
    pk: Seq<char>,
)
    ensures
        ({
            let st = StatementView::DropPk { table, pk };
            agrees(db, shapes, st, reading(st), order)
        }),
{
    let st = StatementView::DropPk { table, pk };
    let (reply, after) = db.perform(st, order);
    let store = store_of(db, shapes);
    let name = clock_name(table);
    let test = test_of("pk"@, Relation::Same, 1);
    lemma_clock_store(db, shapes, table);
    if db.clock_tables.contains(table) {
        let rows = |record: Record|
            store.holds(name, record) && !store.picks(name, seq![test], st.params(), record);
        assert forall|record: Record| #[trigger] rows(record) == is_entry(
            after,
            table,
            record,
        ) by {
            lemma_one_test(store, name, test, st.params(), record);
            let own = text_in(record["pk"@]);
            let column = text_in(record["col_name"@]);
            lemma_entry_fields(own, column, db.clocks[(table, own, column)]);
        }
        lemma_clock_frame(db, after, shapes, table, rows);
    }
}

/// The row that a stamp makes in a clock table.
proof fn lemma_stamp_row(store: Store, stamp: StampView)
    ensures
        entry_columns().no_duplicates(),
        entry_columns().len() == 6,
        forall|i: int|
            0 <= i < 6 ==> clock_column(#[trigger] entry_columns()[i]) is Some,
        made_row(store, clock_layout(), entry_columns(), params_to(6), stamp.params())
            == entry_record(stamp.pk, stamp.column, clock_of(stamp)),
{
    let columns = entry_columns();
    let made = made_row(store, clock_layout(), columns, params_to(6), stamp.params());
    let want = entry_record(stamp.pk, stamp.column, clock_of(stamp));
    lemma_column_names();
    assert(columns[0] == "pk"@ && columns[1] == "col_name"@ && columns[2] == "col_ver"@);
    assert(columns[3] == "db_ver"@ && columns[4] == "site_id"@ && columns[5] == "seq"@);
    assert(columns.no_duplicates());
    assert forall|column: Seq<char>| #[trigger] made.dom().contains(column) == want.dom().contains(
        column,
    ) && (made.dom().contains(column) ==> made[column] == want[column]) by {
        if made.dom().contains(column) {
            assert(columns.contains(column)) by {
                assert(columns.contains(columns[0]));
                assert(columns.contains(columns[1]));
                assert(columns.contains(columns[2]));
                assert(columns.contains(columns[3]));
                assert(columns.contains(columns[4]));
                assert(columns.contains(columns[5]));
            }
            let i = columns.index_of(column);
            assert(columns[i] == column);
        }
    }
    assert(made =~= want);
}

pub proof fn lemma_put_clock(
    db: Database,
    shapes: Shapes,
    order: Order,
    table: Seq<char>,
    stamp: StampView,
)
    ensures
        ({
            let st = StatementView::PutClock { table, stamp };
            agrees(db, shapes, st, reading(st), order)
        }),
        ({
            let st = StatementView::SeedClock { table, stamp };
            agrees(db, shapes, st, reading(st), order)
        }),
{
    let put = StatementView::PutClock { table, stamp };
    let seed = StatementView::SeedClock { table, stamp };
    let store = store_of(db, shapes);
    let name = clock_name(table);
    let row = entry_record(stamp.pk, stamp.column, clock_of(stamp));
    lemma_clock_store(db, shapes, table);
    lemma_stamp_row(store, stamp);
    lemma_entry_fields(stamp.pk, stamp.column, clock_of(stamp));
    if db.clock_tables.contains(table) {
        let after = db.with_clock(table, stamp);
        let at = (table, stamp.pk, stamp.column);
        let rows = |record: Record|
            record == row || store.holds(name, record) && !same_key(clock_layout(), record, row);
        assert forall|record: Record| #[trigger] rows(record) == is_entry(
            after,
            table,
            record,
        ) by {
            lemma_same_entry_key(record, row);
            let pk = text_in(record["pk"@]);
            let column = text_in(record["col_name"@]);
            lemma_entry_fields(pk, column, db.clocks[(table, pk, column)]);
            lemma_entry_fields(pk, column, after.clocks[(table, pk, column)]);
        }
        lemma_clock_frame(db, after, shapes, table, rows);
        let old = entry_record(stamp.pk, stamp.column, db.clocks[at]);
        lemma_is_entry(db, table, stamp.pk, stamp.column);
        lemma_entry_fields(stamp.pk, stamp.column, db.clocks[at]);
        if db.clocks.dom().contains(at) {
            lemma_same_entry_key(old, row);
            assert(store.holds(name, old) && same_key(clock_layout(), old, row));
        } else {
            assert forall|other: Record| #[trigger] store.holds(name, other) implies !same_key(
                clock_layout(),
                other,
                row,
            ) by {
                lemma_same_entry_key(other, row);
                let pk = text_in(other["pk"@]);
                let column = text_in(other["col_name"@]);
                lemma_entry_fields(pk, column, db.clocks[(table, pk, column)]);
            }
        }
        assert(db.perform(seed, order).1 == if db.clocks.dom().contains(at) {
            db
        } else {
            after
        });
    }
}

pub proof fn lemma_zero_columns(
    db: Database,
    shapes: Shapes,
    order: Order,
    table: Seq<char>,
    pk: Seq<char>,
)
    ensures
        ({
            let st = StatementView::ZeroColumns { table, pk };
            agrees(db, shapes, st, reading(st), order)
        }),
{
    let st = StatementView::ZeroColumns { table, pk };
    let params = st.params();
    let (reply, after) = db.perform(st, order);
    let store = store_of(db, shapes);
    let name = clock_name(table);
    let a = test_of("pk"@, Relation::Same, 1);
    let b = test_of("col_name"@, Relation::Differs, 2);
    lemma_clock_store(db, shapes, table);
    lemma_column_names();
    if db.clock_tables.contains(table) {
        let next = |record: Record|
            if store.picks(name, seq![a, b], params, record) {
                record.insert("col_ver"@, store.value(Term::Number(0), params, record))
            } else {
                record
            };
        assert forall|record: Record| #[trigger] is_entry(db, table, record) implies {
            let own = text_in(record["pk"@]);
            let column = text_in(record["col_name"@]);
            next(record) == entry_record(own, column, after.clocks[(table, own, column)])
                && after.clocks.dom().contains((table, own, column))
        } by {
            let own = text_in(record["pk"@]);
            let column = text_in(record["col_name"@]);
            lemma_entry_fields(own, column, db.clocks[(table, own, column)]);
            lemma_two_tests(store, name, a, b, params, record);
            assert(next(record) =~= entry_record(
                own,
                column,
                after.clocks[(table, own, column)],
            ));
        }
        let rows = |record: Record|
            exists|old: Record| #[trigger] store.holds(name, old) && record == next(old);
        assert forall|record: Record| #[trigger] rows(record) == is_entry(
            after,
            table,
            record,
        ) by {
            if rows(record) {
                let old = choose|old: Record| #[trigger]
                    store.holds(name, old) && record == next(old);
                let own = text_in(old["pk"@]);
                let column = text_in(old["col_name"@]);
                assert(is_entry(db, table, old));
                lemma_entry_fields(own, column, after.clocks[(table, own, column)]);
            }
            if is_entry(after, table, record) {
                let own = text_in(record["pk"@]);
                let column = text_in(record["col_name"@]);
                let old = entry_record(own, column, db.clocks[(table, own, column)]);
                lemma_is_entry(db, table, own, column);
                lemma_entry_fields(own, column, db.clocks[(table, own, column)]);
                assert(is_entry(db, table, old));
                assert(store.holds(name, old) && record == next(old));
            }
        }
        lemma_clock_frame(db, after, shapes, table, rows);
        assert forall|x: Record, y: Record|
            #![trigger store.holds(name, x), store.holds(name, y)]
            store.holds(name, x) && store.holds(name, y) && x != y implies !same_key(
            clock_layout(),
            next(x),
            next(y),
        ) by {
            assert(is_entry(db, table, x) && is_entry(db, table, y));
            lemma_entry_next(after, table, x, next(x));
            lemma_entry_next(after, table, y, next(y));
            lemma_same_entry_key(next(x), next(y));
        }
        assert forall|x: Record| #[trigger] store.holds(name, x) implies !incomplete(
            clock_layout(),
            next(x),
        ) by {
            assert(is_entry(db, table, x));
            lemma_entry_next(after, table, x, next(x));
        }
    }
}

proof fn lemma_entry_next(after: Database, table: Seq<char>, old: Record, next: Record)
    requires
        ({
            let pk = text_in(old["pk"@]);
            let column = text_in(old["col_name"@]);
            next == entry_record(pk, column, after.clocks[(table, pk, column)])
        }),
    ensures
        next["pk"@] == SqlValue::Text(text_in(old["pk"@])),
        next["col_name"@] == SqlValue::Text(text_in(old["col_name"@])),
        !incomplete(clock_layout(), next),
{
    let pk = text_in(old["pk"@]);
    let column = text_in(old["col_name"@]);
    lemma_entry_fields(pk, column, after.clocks[(table, pk, column)]);
}

pub proof fn lemma_rewrite_pk(
    db: Database,
    shapes: Shapes,
    order: Order,
    table: Seq<char>,
    old_pk: Seq<char>,
    new_pk: Seq<char>,
)
    ensures
        ({
            let st = StatementView::RewritePk { table, old_pk, new_pk };
            agrees(db, shapes, st, reading(st), order)
        }),
{
    let st = StatementView::RewritePk { table, old_pk, new_pk };
    let params = st.params();
    let store = store_of(db, shapes);
    let name = clock_name(table);
    let test = test_of("pk"@, Relation::Same, 2);
    lemma_clock_store(db, shapes, table);
    lemma_column_names();
    if db.clock_tables.contains(table) {
        let next = |record: Record|
            if store.picks(name, seq![test], params, record) {
                record.insert("pk"@, store.value(Term::Param(1), params, record))
            } else {
                record
            };
        assert forall|record: Record| #[trigger] is_entry(db, table, record) implies {
            let own = text_in(record["pk"@]);
            let column = text_in(record["col_name"@]);
            next(record) == entry_record(
                if own == old_pk {
                    new_pk
                } else {
                    own
                },
                column,
                db.clocks[(table, own, column)],
            )
        } by {
            let own = text_in(record["pk"@]);
            let column = text_in(record["col_name"@]);
            lemma_entry_fields(own, column, db.clocks[(table, own, column)]);
            lemma_one_test(store, name, test, params, record);
            assert(next(record) =~= entry_record(
                if own == old_pk {
                    new_pk
                } else {
                    own
                },
                column,
                db.clocks[(table, own, column)],
            ));
        }
        assert forall|x: Record| #[trigger] store.holds(name, x) implies !incomplete(
            clock_layout(),
            next(x),
        ) && next(x)["col_name"@] == x["col_name"@] && next(x)["pk"@] == (if x["pk"@]
            == SqlValue::Text(old_pk) {
            SqlValue::Text(new_pk)
        } else {
            x["pk"@]
        }) by {
            assert(is_entry(db, table, x));
            let own = text_in(x["pk"@]);
            let column = text_in(x["col_name"@]);
            lemma_entry_fields(own, column, db.clocks[(table, own, column)]);
            lemma_entry_fields(new_pk, column, db.clocks[(table, own, column)]);
        }
        if db.clashes(table, old_pk, new_pk) {
            let column = choose|column: Seq<char>|
                db.clocks.dom().contains((table, old_pk, column))
                    && #[trigger] db.clocks.dom().contains((table, new_pk, column));
            let x = entry_record(old_pk, column, db.clocks[(table, old_pk, column)]);
            let y = entry_record(new_pk, column, db.clocks[(table, new_pk, column)]);
            lemma_is_entry(db, table, old_pk, column);
            lemma_is_entry(db, table, new_pk, column);
            lemma_entry_fields(old_pk, column, db.clocks[(table, old_pk, column)]);
            lemma_entry_fields(new_pk, column, db.clocks[(table, new_pk, column)]);
            assert(store.holds(name, x) && store.holds(name, y));
            lemma_same_entry_key(next(x), next(y));
            assert(same_key(clock_layout(), next(x), next(y)));
            assert(x != y);
        } else {
            assert forall|x: Record, y: Record|
                #![trigger store.holds(name, x), store.holds(name, y)]
                store.holds(name, x) && store.holds(name, y) && x != y implies !same_key(
                clock_layout(),
                next(x),
                next(y),
            ) by {
                assert(is_entry(db, table, x) && is_entry(db, table, y));
                lemma_same_entry_key(next(x), next(y));
                let (px, cx) = (text_in(x["pk"@]), text_in(x["col_name"@]));
                let (py, cy) = (text_in(y["pk"@]), text_in(y["col_name"@]));
                lemma_entry_fields(px, cx, db.clocks[(table, px, cx)]);
                lemma_entry_fields(py, cy, db.clocks[(table, py, cy)]);
                if same_key(clock_layout(), next(x), next(y)) {
                    assert(db.clocks.dom().contains((table, px, cx)));
                    assert(db.clocks.dom().contains((table, py, cx)));
                }
            }
            let after = db.with_pk(table, old_pk, new_pk);
            let rows = |record: Record|
                exists|old: Record| #[trigger] store.holds(name, old) && record == next(old);
            assert forall|record: Record| #[trigger] rows(record) == is_entry(
                after,
                table,
                record,
            ) by {
                if rows(record) {
                    let old = choose|old: Record| #[trigger]
                        store.holds(name, old) && record == next(old);
                    let own = text_in(old["pk"@]);
                    let column = text_in(old["col_name"@]);
                    assert(is_entry(db, table, old));
                    lemma_entry_fields(own, column, db.clocks[(table, own, column)]);
                    lemma_entry_fields(new_pk, column, db.clocks[(table, own, column)]);
                    if own == new_pk && old_pk != new_pk {
                        assert(db.clocks.dom().contains((table, new_pk, column)));
                        assert(!db.clocks.dom().contains((table, old_pk, column)));
                    }
                }
                if is_entry(after, table, record) {
                    let own = text_in(record["pk"@]);
                    let column = text_in(record["col_name"@]);
                    let from = if own == new_pk && db.clocks.dom().contains(
                        (table, old_pk, column),
                    ) {
                        old_pk
                    } else {
                        own
                    };
                    let old = entry_record(from, column, db.clocks[(table, from, column)]);
                    lemma_is_entry(db, table, from, column);
                    lemma_entry_fields(from, column, db.clocks[(table, from, column)]);
                    assert(is_entry(db, table, old));
                    assert(store.holds(name, old) && record == next(old));
                }
            }
            lemma_clock_frame(db, after, shapes, table, rows);
        }
    }
}

pub proof fn lemma_select_clock(
    db: Database,
    shapes: Shapes,
    order: Order,
    table: Seq<char>,
    pk: Seq<char>,
    column: Seq<char>,
)
    ensures
        ({
            let st = StatementView::SelectColVer { table, pk, column };
            agrees(db, shapes, st, reading(st), order) && (db.clock_tables.contains(table)
                ==> answers(db, shapes, st, reading(st), order))
        }),
        ({
            let st = StatementView::SelectClock { table, pk, column };
            agrees(db, shapes, st, reading(st), order) && (db.clock_tables.contains(table)
                ==> answers(db, shapes, st, reading(st), order))
        }),
{
    let store = store_of(db, shapes);
    let name = clock_name(table);
    let params = seq![SqlValue::Text(pk), SqlValue::Text(column)];
    let a = test_of("pk"@, Relation::Same, 1);
    let b = test_of("col_name"@, Relation::Same, 2);
    let tests = seq![a, b];
    let clock = db.clocks[(table, pk, column)];
    let record = entry_record(pk, column, clock);
    let one = seq![Term::Field("col_ver"@)];
    let two = seq![Term::Field("col_ver"@), Term::Field("site_id"@)];
    lemma_clock_store(db, shapes, table);
    lemma_entry_fields(pk, column, clock);
    lemma_is_entry(db, table, pk, column);
    assert forall|other: Record| #[trigger] store.picks(name, tests, params, other) <==> (
    db.clocks.dom().contains((table, pk, column)) && other == record) by {
        lemma_two_tests(store, name, a, b, params, other);
        let own = text_in(other["pk"@]);
        let at = text_in(other["col_name"@]);
        lemma_entry_fields(own, at, db.clocks[(table, own, at)]);
    }
    assert(shown_row(store, one, params, record) =~= seq![SqlValue::Integer(clock.col_ver)]);
    assert(shown_row(store, two, params, record) =~= seq![
        SqlValue::Integer(clock.col_ver),
        SqlValue::Blob(clock.site_id),
    ]);
    if db.clocks.dom().contains((table, pk, column)) {
        lemma_lists_one(store, one, name, tests, None, params, record);
        lemma_lists_one(store, two, name, tests, None, params, record);
    } else {
        lemma_lists_none(store, one, name, tests, None, params);
        lemma_lists_none(store, two, name, tests, None, params);
    }
}

/// The tables of the bookkeeping other than the clock tables.
proof fn lemma_own_store(db: Database, shapes: Shapes)
    ensures
        ({
            let store = store_of(db, shapes);
            &&& store.layouts.dom().contains("crr_site_id"@)
            &&& store.layouts.dom().contains("crr_db_version"@)
            &&& store.layouts.dom().contains("crr_sync_state"@)
            &&& store.layouts["crr_site_id"@] == site_layout()
            &&& store.layouts["crr_db_version"@] == version_layout()
            &&& store.layouts["crr_sync_state"@] == state_layout()
            &&& forall|record: Record| #[trigger]
                store.holds("crr_site_id"@, record) == (db.site is Some && record == single(
                    "site_id"@,
                    SqlValue::Blob(db.site->0),
                ))
            &&& forall|record: Record| #[trigger]
                store.holds("crr_db_version"@, record) == (db.version is Some && record == single(
                    "version"@,
                    db.version->0,
                ))
            &&& forall|record: Record| #[trigger]
                store.holds("crr_sync_state"@, record) == is_row(
                    db,
                    shapes,
                    "crr_sync_state"@,
                    record,
                )
        }),
{
    lemma_table_names();
}

pub proof fn lemma_version_statements(db: Database, shapes: Shapes, order: Order)
    requires
        db.version != Some(SqlValue::Null),
    ensures
        agrees(
            db,
            shapes,
            StatementView::SelectVersion,
            reading(StatementView::SelectVersion),
            order,
        ),
        answers(
            db,
            shapes,
            StatementView::SelectVersion,
            reading(StatementView::SelectVersion),
            order,
        ),
        db.version is None ==> agrees(
            db,
            shapes,
            StatementView::InsertVersion,
            reading(StatementView::InsertVersion),
            order,
        ),
        agrees(
            db,
            shapes,
            StatementView::BumpVersion,
            reading(StatementView::BumpVersion),
            order,
        ),
{
    let store = store_of(db, shapes);
    let name = "crr_db_version"@;
    let none = Seq::<SqlValue>::empty();
    lemma_own_store(db, shapes);
    lemma_table_names();
    let terms = seq![Term::Field("version"@)];
    let record = single("version"@, db.version->0);
    assert forall|other: Record| #[trigger]
        store.picks(name, Seq::empty(), none, other) == store.holds(name, other) by {
        lemma_no_test(store, name, none, other);
    }
    assert(shown_row(store, terms, none, record) =~= seq![db.version->0]);
    if db.version is Some {
        lemma_lists_one(store, terms, name, Seq::empty(), Some(1), none, record);
        let next = |record: Record|
            if store.picks(name, Seq::empty(), none, record) {
                record.insert("version"@, store.value(Term::Next("version"@), none, record))
            } else {
                record
            };
        let after = db.perform(StatementView::BumpVersion, order).1;
        let raised = single("version"@, after.version->0);
        assert(store.holds(name, record));
        assert(next(record) =~= raised);
        assert(!incomplete(version_layout(), raised));
        let changed = effect(store, reading(StatementView::BumpVersion), none)->0;
        let rows = |record: Record|
            exists|old: Record| #[trigger] store.holds(name, old) && record == next(old);
        assert forall|other: Record| #[trigger] rows(other) == (other == raised) by {
            if other == raised {
                assert(store.holds(name, record) && other == next(record));
            }
        }
        assert(changed == store.with_rows(name, rows));
        assert(changed.layouts =~= store_of(after, shapes).layouts);
    } else {
        lemma_lists_none(store, terms, name, Seq::empty(), Some(1), none);
        let columns = seq!["version"@];
        let values = seq![Term::Number(0)];
        let row = made_row(store, version_layout(), columns, values, none);
        let after = db.perform(StatementView::InsertVersion, order).1;
        assert(columns[0] == "version"@);
        assert(columns.contains("version"@));
        assert(row =~= single("version"@, SqlValue::Integer(0)));
        let changed = effect(store, reading(StatementView::InsertVersion), none)->0;
        assert(changed.layouts =~= store_of(after, shapes).layouts);
        let still = db.perform(StatementView::BumpVersion, order).1;
        let same = effect(store, reading(StatementView::BumpVersion), none)->0;
        assert(still == db);
        assert(same.layouts =~= store.layouts);
    }
}

pub proof fn lemma_site_statements(db: Database, shapes: Shapes, order: Order, or_ignore: bool)
    ensures
        agrees(db, shapes, StatementView::SelectSite, reading(StatementView::SelectSite), order),
        answers(db, shapes, StatementView::SelectSite, reading(StatementView::SelectSite), order),
        db.site is None && db.draw.len() == 16 ==> agrees(
            db,
            shapes,
            StatementView::InsertSite { or_ignore },
            reading(StatementView::InsertSite { or_ignore }),
            order,
        ),
{
    let store = store_of(db, shapes);
    let name = "crr_site_id"@;
    let none = Seq::<SqlValue>::empty();
    lemma_own_store(db, shapes);
    lemma_table_names();
    let terms = seq![Term::Field("site_id"@)];
    let record = single("site_id"@, SqlValue::Blob(db.site->0));
    assert forall|other: Record| #[trigger]
        store.picks(name, Seq::empty(), none, other) == store.holds(name, other) by {
        lemma_no_test(store, name, none, other);
    }
    assert(shown_row(store, terms, none, record) =~= seq![SqlValue::Blob(db.site->0)]);
    if db.site is Some {
        lemma_lists_one(store, terms, name, Seq::empty(), Some(1), none, record);
    } else {
        lemma_lists_none(store, terms, name, Seq::empty(), Some(1), none);
        if db.draw.len() == 16 {
            let st = StatementView::InsertSite { or_ignore };
            let columns = seq!["site_id"@];
            let values = seq![Term::Random(16)];
            let row = made_row(store, site_layout(), columns, values, none);
            let after = db.perform(st, order).1;
            assert(columns[0] == "site_id"@);
            assert(columns.contains("site_id"@));
            assert(db.draw.take(16) =~= db.draw);
            assert(row =~= single("site_id"@, SqlValue::Blob(db.draw)));
            let changed = effect(store, reading(st), none)->0;
            assert(changed.layouts =~= store_of(after, shapes).layouts);
        }
    }
}

pub proof fn lemma_state_statements(
    db: Database,
    shapes: Shapes,
    order: Order,
    key: Seq<char>,
    value: Seq<u8>,
)
    ensures
        ({
            let st = StatementView::SelectState { key };
            agrees(db, shapes, st, reading(st), order) && answers(
                db,
                shapes,
                st,
                reading(st),
                order,
            )
        }),
        ({
            let st = StatementView::PutState { key, value };
            agrees(db, shapes, st, reading(st), order)
        }),
{
    let store = store_of(db, shapes);
    let name = "crr_sync_state"@;
    lemma_own_store(db, shapes);
    lemma_table_names();
    lemma_column_names();
    let params = seq![SqlValue::Text(key)];
    let test = test_of("key"@, Relation::Same, 1);
    let tests = seq![test];
    let terms = seq![Term::Field("value"@)];
    let record = state_record(key, db.state[key]);
    assert forall|other: Record| #[trigger] store.picks(name, tests, params, other) <==> (
    db.state.dom().contains(key) && other == record) by {
        lemma_one_test(store, name, test, params, other);
    }
    assert(shown_row(store, terms, params, record) =~= seq![SqlValue::Blob(db.state[key])]);
    if db.state.dom().contains(key) {
        lemma_lists_one(store, terms, name, tests, None, params, record);
    } else {
        lemma_lists_none(store, terms, name, tests, None, params);
    }
    let st = StatementView::PutState { key, value };
    let columns = seq!["key"@, "value"@];
    let values = seq![Term::Param(1), Term::Param(2)];
    let row = made_row(store, state_layout(), columns, values, st.params());
    let after = db.perform(st, order).1;
    assert(columns[0] == "key"@ && columns[1] == "value"@);
    assert(columns.contains("key"@) && columns.contains("value"@));
    assert(columns.index_of("key"@) == 0 && columns.index_of("value"@) == 1);
    assert(row =~= state_record(key, value));
    assert(state_layout().key[0] == "key"@);
    let changed = effect(store, reading(st), st.params())->0;
    assert(changed.layouts =~= store_of(after, shapes).layouts);
    assert forall|other: Seq<char>, record: Record| #[trigger]
        (changed.rows)(other, record) == (store_of(after, shapes).rows)(other, record) by {
        if other == name {
            assert(same_key(state_layout(), record, row) == (record["key"@] == row["key"@]));
        }
    }
}

/// The tables that the first statements make are those that a database is kept in.
pub proof fn lemma_made_layouts(table: Seq<char>)
    ensures
        ({
            let sql = reading(StatementView::CreateSiteTable);
            made_layout(sql->Create_columns, sql->key) == site_layout()
        }),
        ({
            let sql = reading(StatementView::CreateVersionTable);
            made_layout(sql->Create_columns, sql->key) == version_layout()
        }),
        ({
            let sql = reading(StatementView::CreateStateTable);
            made_layout(sql->Create_columns, sql->key) == state_layout()
        }),
        ({
            let sql = reading(StatementView::CreateClockTable { table });
            made_layout(sql->Create_columns, sql->key) == clock_layout()
        }),
{
    lemma_column_names();
    reveal_with_fuel(column_from, 7);
    reveal_with_fuel(key_from, 3);
    let a = reading(StatementView::CreateSiteTable);
    let b = reading(StatementView::CreateVersionTable);
    let c = reading(StatementView::CreateStateTable);
    let d = reading(StatementView::CreateClockTable { table });
    assert(made_layout(a->Create_columns, a->key).columns =~= site_layout().columns);
    assert(made_layout(a->Create_columns, a->key).key =~= site_layout().key);
    assert(made_layout(b->Create_columns, b->key).columns =~= version_layout().columns);
    assert(made_layout(b->Create_columns, b->key).key =~= version_layout().key);
    assert(made_layout(c->Create_columns, c->key).columns =~= state_layout().columns);
    assert(made_layout(c->Create_columns, c->key).key =~= state_layout().key);
    assert(made_layout(d->Create_columns, d->key).columns =~= clock_layout().columns);
}

pub proof fn lemma_create_statements(db: Database, shapes: Shapes, order: Order, table: Seq<char>)
    ensures
        ({
            let st = StatementView::CreateSiteTable;
            agrees(db, shapes, st, reading(st), order)
        }),
        ({
            let st = StatementView::CreateVersionTable;
            agrees(db, shapes, st, reading(st), order)
        }),
        ({
            let st = StatementView::CreateStateTable;
            agrees(db, shapes, st, reading(st), order)
        }),
        ({
            let st = StatementView::CreateClockTable { table };
            agrees(db, shapes, st, reading(st), order)
        }),
{
    let store = store_of(db, shapes);
    lemma_own_store(db, shapes);
    lemma_clock_store(db, shapes, table);
    lemma_clock_name(table);
    lemma_made_layouts(table);
    let st = StatementView::CreateClockTable { table };
    let after = db.perform(st, order).1;
    let changed = effect(store, reading(st), st.params())->0;
    assert forall|name: Seq<char>| #[trigger]
        is_table(after, name) == (is_table(db, name) || name == clock_name(table)) by {
        if is_clock(name) {
            lemma_under(name);
        }
    }
    assert(changed.layouts =~= store_of(after, shapes).layouts);
}

pub proof fn lemma_rename_clock(
    db: Database,
    shapes: Shapes,
    order: Order,
    old_table: Seq<char>,
    new_table: Seq<char>,
)
    ensures
        ({
            let st = StatementView::RenameClock { old_table, new_table };
            agrees(db, shapes, st, reading(st), order)
        }),
{
    let st = StatementView::RenameClock { old_table, new_table };
    let store = store_of(db, shapes);
    lemma_clock_store(db, shapes, old_table);
    lemma_clock_store(db, shapes, new_table);
    lemma_clock_name(old_table);
    lemma_clock_name(new_table);
    if db.clock_tables.contains(old_table) && !db.clock_tables.contains(new_table) {
        let after = db.perform(st, order).1;
        let changed = effect(store, reading(st), st.params())->0;
        assert forall|name: Seq<char>| #[trigger]
            is_table(after, name) == (name == clock_name(new_table) || is_table(db, name) && name
                != clock_name(old_table)) by {
            if is_clock(name) {
                lemma_under(name);
            }
        }
        assert(changed.layouts =~= store_of(after, shapes).layouts);
        assert forall|name: Seq<char>, record: Record| #[trigger]
            (changed.rows)(name, record) == (store_of(after, shapes).rows)(name, record) by {
            if is_clock(name) {
                lemma_under(name);
            }
        }
    }
}

pub proof fn lemma_clock_exists(db: Database, shapes: Shapes, order: Order, table: Seq<char>)
    ensures
        ({
            let st = StatementView::ClockExists { table };
            agrees(db, shapes, st, reading(st), order) && answers(
                db,
                shapes,
                st,
                reading(st),
                order,
            )
        }),
{
    let store = store_of(db, shapes);
    let name = clock_name(table);
    let params = seq![SqlValue::Text(name)];
    let a = Test { column: "type"@, relation: Relation::Same, term: Term::Quoted("table"@) };
    let b = test_of("name"@, Relation::Same, 1);
    let tests = seq![a, b];
    let terms = seq![Term::Number(1)];
    let record = catalogue_record(name);
    lemma_column_names();
    lemma_clock_store(db, shapes, table);
    assert forall|other: Record| #[trigger]
        store.picks(catalogue(), tests, params, other) <==> (db.clock_tables.contains(table)
            && other == record) by {
        lemma_two_tests(store, catalogue(), a, b, params, other);
        if store.holds(catalogue(), other) {
            let found = choose|found: Seq<char>| #[trigger]
                store.layouts.dom().contains(found) && other == catalogue_record(found);
        }
        if db.clock_tables.contains(table) && other == record {
            assert(store.layouts.dom().contains(name));
        }
    }
    assert(shown_row(store, terms, params, record) =~= seq![SqlValue::Integer(1)]);
    if db.clock_tables.contains(table) {
        lemma_lists_one(store, terms, catalogue(), tests, None, params, record);
    } else {
        lemma_lists_none(store, terms, catalogue(), tests, None, params);
    }
}

} // verus!
