//! What the statements on the application's rows do to its tables.
use vstd::prelude::*;

use crate::database::Database;
use crate::database::Order;
use crate::database::given_value;
use crate::database::key_value;
use crate::laws::effects::agrees;
use crate::laws::effects::answers;
use crate::laws::stores::Shapes;
use crate::laws::stores::columns_of;
use crate::laws::stores::is_free;
use crate::laws::stores::is_row;
use crate::laws::stores::key_in;
use crate::laws::stores::lemma_lists_none;
use crate::laws::stores::lemma_lists_one;
use crate::laws::stores::row_layout;
use crate::laws::stores::row_record;
use crate::laws::stores::same_store;
use crate::laws::stores::storable_in;
use crate::laws::stores::store_of;
use crate::laws::texts::key_tests;
use crate::laws::texts::params_to;
use crate::laws::texts::reading;
use crate::sql::Record;
use crate::sql::Term;
use crate::sql::incomplete;
use crate::sql::made_row;
use crate::sql::same_key;
use crate::sql::shown_row;
use crate::statement::Key;
use crate::statement::StatementView;
use crate::statement::inserted_columns;
use crate::value::SqlValue;

verus! {

/// Whether a key is one of a table of the application.
pub open spec fn fits_key(shapes: Shapes, table: Seq<char>, key: Key) -> bool {
    &&& is_free(table)
    &&& columns_of(key) == shapes(table)
    &&& shapes(table).len() > 0
    &&& shapes(table).no_duplicates()
}

/// What a key has in its columns.
proof fn lemma_key_value(key: Key, column: Seq<char>)
    requires
        columns_of(key).no_duplicates(),
    ensures
        forall|i: int|
            0 <= i < key.len() && (#[trigger] key[i]).0 == column ==> key_value(key, column)
                == Some(SqlValue::Text(key[i].1)),
        !columns_of(key).contains(column) ==> key_value(key, column) is None,
    decreases key.len(),
{
    if key.len() > 0 {
        let rest = key.drop_last();
        assert forall|i: int, j: int|
            0 <= i < j < columns_of(rest).len() implies columns_of(rest)[i] != columns_of(
            rest,
        )[j] by {
            assert(columns_of(key)[i] != columns_of(key)[j]);
        }
        lemma_key_value(rest, column);
        let last = key.len() - 1;
        assert(columns_of(key)[last] == key.last().0);
        assert forall|i: int|
            0 <= i < key.len() && (#[trigger] key[i]).0 == column implies key_value(key, column)
            == Some(SqlValue::Text(key[i].1)) by {
            assert(columns_of(key)[i] == key[i].0);
            if i < last {
                assert(rest[i] == key[i]);
                assert(columns_of(key)[i] != columns_of(key)[last]);
            }
        }
        if !columns_of(key).contains(column) {
            assert(columns_of(key).contains(columns_of(key)[last]));
            assert forall|i: int| 0 <= i < columns_of(rest).len() implies columns_of(rest)[i]
                != column by {
                assert(columns_of(key).contains(columns_of(key)[i]));
            }
        }
    }
}

/// A row has the values of its key in the key columns, and its key is read off them.
pub proof fn lemma_row_key(db: Database, table: Seq<char>, key: Key)
    requires
        columns_of(key).no_duplicates(),
    ensures
        forall|i: int|
            0 <= i < key.len() ==> row_record(db, table, key)[(#[trigger] key[i]).0]
                == SqlValue::Text(key[i].1),
        key_in(columns_of(key), row_record(db, table, key)) == key,
        forall|column: Seq<char>|
            !columns_of(key).contains(column) ==> #[trigger] row_record(db, table, key)[column]
                == (db.cells)(table, key, column),
{
    let record = row_record(db, table, key);
    assert forall|i: int| 0 <= i < key.len() implies record[(#[trigger] key[i]).0]
        == SqlValue::Text(key[i].1) by {
        lemma_key_value(key, key[i].0);
    }
    assert(key_in(columns_of(key), record) =~= key) by {
        assert forall|i: int| 0 <= i < key.len() implies key_in(columns_of(key), record)[i]
            == key[i] by {
            assert(record[key[i].0] == SqlValue::Text(key[i].1));
        }
    }
    assert forall|column: Seq<char>| !columns_of(key).contains(column) implies #[trigger]
        record[column] == (db.cells)(table, key, column) by {
        lemma_key_value(key, column);
    }
}

pub proof fn lemma_row_store(db: Database, shapes: Shapes, table: Seq<char>)
    requires
        is_free(table),
    ensures
        ({
            let store = store_of(db, shapes);
            &&& store.layouts.dom().contains(table) == db.tables.contains(table)
            &&& store.has(table) == db.tables.contains(table)
            &&& db.tables.contains(table) ==> store.layouts[table] == row_layout(
                db.defaults,
                shapes(table),
                table,
            )
            &&& forall|record: Record| #[trigger]
                store.holds(table, record) == ({
                    let key = key_in(shapes(table), record);
                    db.rows.contains((table, key)) && record == row_record(db, table, key)
                })
        }),
{
}

/// A condition on the key columns is met by the row of that key, and no other.
proof fn lemma_key_picks(
    db: Database,
    shapes: Shapes,
    table: Seq<char>,
    key: Key,
    first: nat,
    params: Seq<SqlValue>,
)
    requires
        storable_in(db, shapes),
        fits_key(shapes, table, key),
        first >= 1,
        params.len() == key.len() + first - 1,
        forall|i: int|
            0 <= i < key.len() ==> params[i + first - 1] == SqlValue::Text((#[trigger] key[i]).1),
    ensures
        forall|record: Record| #[trigger]
            store_of(db, shapes).picks(table, key_tests(key, first), params, record) <==> (
            db.rows.contains((table, key)) && record == row_record(db, table, key)),
{
    let store = store_of(db, shapes);
    let tests = key_tests(key, first);
    let shape = shapes(table);
    lemma_row_store(db, shapes, table);
    lemma_row_key(db, table, key);
    assert forall|record: Record| #[trigger]
        store.picks(table, tests, params, record) <==> (db.rows.contains((table, key)) && record
            == row_record(db, table, key)) by {
        if store.picks(table, tests, params, record) {
            let own = key_in(shape, record);
            lemma_row_key(db, table, own);
            assert(columns_of(own) =~= shape);
            assert forall|i: int| 0 <= i < key.len() implies own[i] == key[i] by {
                assert(store.passes(tests[i], params, record));
                assert(columns_of(key)[i] == key[i].0);
                assert(columns_of(own)[i] == own[i].0);
            }
            assert(own =~= key);
        }
        if db.rows.contains((table, key)) && record == row_record(db, table, key) {
            assert forall|i: int| 0 <= i < tests.len() implies store.passes(
                #[trigger] tests[i],
                params,
                record,
            ) by {
                assert(record[key[i].0] == SqlValue::Text(key[i].1));
            }
        }
    }
}

/// A change of one table of the application is a change of its rows.
proof fn lemma_row_frame(
    db: Database,
    after: Database,
    shapes: Shapes,
    table: Seq<char>,
    rows: spec_fn(Record) -> bool,
)
    requires
        is_free(table),
        after == (Database { rows: after.rows, cells: after.cells, ..db }),
        forall|t: Seq<char>, k: Key|
            t != table ==> #[trigger] after.rows.contains((t, k)) == db.rows.contains((t, k)),
        forall|t: Seq<char>, k: Key, c: Seq<char>|
            t != table ==> #[trigger] (after.cells)(t, k, c) == (db.cells)(t, k, c),
        forall|record: Record| #[trigger] rows(record) == is_row(after, shapes, table, record),
    ensures
        same_store(store_of(db, shapes).with_rows(table, rows), store_of(after, shapes)),
{
    let a = store_of(db, shapes).with_rows(table, rows);
    let b = store_of(after, shapes);
    assert(a.layouts =~= b.layouts);
    assert forall|name: Seq<char>, record: Record| #[trigger]
        (a.rows)(name, record) == (b.rows)(name, record) by {
        if name == table {
            assert(rows(record) == is_row(after, shapes, table, record));
        } else {
            let key = key_in(shapes(name), record);
            assert(row_record(after, name, key) =~= row_record(db, name, key));
        }
    }
}

pub proof fn lemma_read_row(
    db: Database,
    shapes: Shapes,
    order: Order,
    table: Seq<char>,
    column: Seq<char>,
    key: Key,
)
    requires
        storable_in(db, shapes),
        fits_key(shapes, table, key),
    ensures
        ({
            let st = StatementView::ReadCell { table, column, key };
            !shapes(table).contains(column) ==> agrees(db, shapes, st, reading(st), order) && (
            db.tables.contains(table) ==> answers(db, shapes, st, reading(st), order))
        }),
        ({
            let st = StatementView::ProbeRow { table, key };
            agrees(db, shapes, st, reading(st), order) && (db.tables.contains(table) ==> answers(
                db,
                shapes,
                st,
                reading(st),
                order,
            ))
        }),
{
    let store = store_of(db, shapes);
    let params = (StatementView::ProbeRow { table, key }).params();
    let tests = key_tests(key, 1);
    let record = row_record(db, table, key);
    let terms = seq![Term::Field(column)];
    let probe = seq![Term::Number(1)];
    lemma_row_store(db, shapes, table);
    lemma_row_key(db, table, key);
    lemma_key_picks(db, shapes, table, key, 1, params);
    assert(shown_row(store, terms, params, record) =~= seq![record[column]]);
    assert(shown_row(store, probe, params, record) =~= seq![SqlValue::Integer(1)]);
    if db.rows.contains((table, key)) {
        lemma_lists_one(store, terms, table, tests, None, params, record);
        lemma_lists_one(store, probe, table, tests, None, params, record);
    } else {
        lemma_lists_none(store, terms, table, tests, None, params);
        lemma_lists_none(store, probe, table, tests, None, params);
    }
}

pub proof fn lemma_delete_row(
    db: Database,
    shapes: Shapes,
    order: Order,
    table: Seq<char>,
    key: Key,
)
    requires
        storable_in(db, shapes),
        fits_key(shapes, table, key),
    ensures
        ({
            let st = StatementView::DeleteRow { table, key };
            agrees(db, shapes, st, reading(st), order)
        }),
{
    let st = StatementView::DeleteRow { table, key };
    let params = st.params();
    let store = store_of(db, shapes);
    let tests = key_tests(key, 1);
    lemma_row_store(db, shapes, table);
    lemma_key_picks(db, shapes, table, key, 1, params);
    lemma_row_key(db, table, key);
    if db.tables.contains(table) {
        let after = db.perform(st, order).1;
        let rows = |record: Record|
            store.holds(table, record) && !store.picks(table, tests, params, record);
        assert forall|record: Record| #[trigger] rows(record) == is_row(
            after,
            shapes,
            table,
            record,
        ) by {
            let own = key_in(shapes(table), record);
            assert(row_record(after, table, own) =~= row_record(db, table, own));
        }
        lemma_row_frame(db, after, shapes, table, rows);
    }
}

pub proof fn lemma_write_cell(
    db: Database,
    shapes: Shapes,
    order: Order,
    table: Seq<char>,
    column: Seq<char>,
    value: SqlValue,
    key: Key,
)
    requires
        storable_in(db, shapes),
        fits_key(shapes, table, key),
        !shapes(table).contains(column),
    ensures
        ({
            let st = StatementView::WriteCell { table, column, value, key };
            agrees(db, shapes, st, reading(st), order)
        }),
{
    let st = StatementView::WriteCell { table, column, value, key };
    let params = st.params();
    let store = store_of(db, shapes);
    let tests = key_tests(key, 2);
    let shape = shapes(table);
    let layout = row_layout(db.defaults, shape, table);
    lemma_row_store(db, shapes, table);
    lemma_key_picks(db, shapes, table, key, 2, params);
    lemma_row_key(db, table, key);
    if db.tables.contains(table) {
        let after = db.perform(st, order).1;
        let own_row = row_record(db, table, key);
        let next = |record: Record|
            if store.picks(table, tests, params, record) {
                record.insert(column, store.value(Term::Param(1), params, record))
            } else {
                record
            };
        assert forall|k: Key| #[trigger] db.rows.contains((table, k)) implies next(
            row_record(db, table, k),
        ) == row_record(after, table, k) && key_in(shape, row_record(db, table, k)) == k
            && key_in(shape, row_record(after, table, k)) == k by {
            lemma_row_key(db, table, k);
            lemma_row_key(after, table, k);
            lemma_key_value(k, column);
            assert(next(row_record(db, table, k)) =~= row_record(after, table, k));
        }
        let rows = |record: Record|
            exists|old: Record| #[trigger] store.holds(table, old) && record == next(old);
        assert forall|record: Record| #[trigger] rows(record) == is_row(
            after,
            shapes,
            table,
            record,
        ) by {
            if rows(record) {
                let old = choose|old: Record| #[trigger]
                    store.holds(table, old) && record == next(old);
                assert(db.rows.contains((table, key_in(shape, old))));
            }
            if is_row(after, shapes, table, record) {
                let k = key_in(shape, record);
                assert(db.rows.contains((table, k)));
                let old = row_record(db, table, k);
                assert(store.holds(table, old) && record == next(old));
            }
        }
        lemma_row_frame(db, after, shapes, table, rows);
        assert forall|x: Record, y: Record|
            #![trigger store.holds(table, x), store.holds(table, y)]
            store.holds(table, x) && store.holds(table, y) && x != y implies !same_key(
            layout,
            next(x),
            next(y),
        ) by {
            let (a, b) = (key_in(shape, x), key_in(shape, y));
            assert(db.rows.contains((table, a)) && db.rows.contains((table, b)));
            if same_key(layout, next(x), next(y)) {
                assert(key_in(shape, next(x)) =~= key_in(shape, next(y)));
            }
        }
    }
}

/// What the row that is inserted is given in its columns.
proof fn lemma_given(key: Key, given: Seq<(Seq<char>, SqlValue)>, column: Seq<char>)
    requires
        inserted_columns(key, given).no_duplicates(),
    ensures
        forall|i: int|
            0 <= i < given.len() && (#[trigger] given[i]).0 == column ==> given_value(
                given,
                column,
            ) == Some(given[i].1),
        (forall|i: int| 0 <= i < given.len() ==> (#[trigger] given[i]).0 != column)
            ==> given_value(given, column) is None,
    decreases given.len(),
{
    if given.len() > 0 {
        let rest = given.drop_last();
        let all = inserted_columns(key, given);
        let last = given.len() - 1;
        assert forall|i: int, j: int|
            0 <= i < j < inserted_columns(key, rest).len() implies inserted_columns(key, rest)[i]
            != inserted_columns(key, rest)[j] by {
            assert(all[i] != all[j]);
            assert(inserted_columns(key, rest)[i] == all[i]);
            assert(inserted_columns(key, rest)[j] == all[j]);
        }
        lemma_given(key, rest, column);
        assert forall|i: int| 0 <= i < given.len() && (#[trigger] given[i]).0 == column implies
            given_value(given, column) == Some(given[i].1) by {
            if i < last {
                assert(rest[i] == given[i]);
                assert(all[key.len() + i] != all[key.len() + last]);
            }
        }
        if forall|i: int| 0 <= i < given.len() ==> (#[trigger] given[i]).0 != column {
            assert(given[last].0 != column);
            assert forall|i: int| 0 <= i < rest.len() implies (#[trigger] rest[i]).0
                != column by {
                assert(given[i].0 != column);
            }
        }
    }
}

proof fn lemma_inserted_row(
    db: Database,
    shapes: Shapes,
    table: Seq<char>,
    key: Key,
    given: Seq<(Seq<char>, SqlValue)>,
)
    requires
        fits_key(shapes, table, key),
        inserted_columns(key, given).no_duplicates(),
        !db.rows.contains((table, key)),
    ensures
        made_row(
            store_of(db, shapes),
            row_layout(db.defaults, shapes(table), table),
            inserted_columns(key, given),
            params_to(key.len() + given.len()),
            (StatementView::InsertRow { table, key, defaults: given }).params(),
        ) == row_record(db.with_row(table, key, given), table, key),
{
    let store = store_of(db, shapes);
    let after = db.with_row(table, key, given);
    let columns = inserted_columns(key, given);
    let params = (StatementView::InsertRow { table, key, defaults: given }).params();
    let values = params_to(key.len() + given.len());
    let made = made_row(
        store,
        row_layout(db.defaults, shapes(table), table),
        columns,
        values,
        params,
    );
    let want = row_record(after, table, key);
    assert forall|column: Seq<char>| #[trigger] made[column] == want[column] by {
        lemma_given(key, given, column);
        lemma_key_value(key, column);
        if columns.contains(column) {
            let i = columns.index_of(column);
            assert(columns[i] == column);
            assert(store.value(values[i], params, Map::empty()) == params[i]);
            if i < key.len() {
                assert(key[i].0 == column);
            } else {
                let j = i - key.len();
                assert(given[j].0 == column);
                assert(!columns_of(key).contains(column)) by {
                    if columns_of(key).contains(column) {
                        let k = choose|k: int|
                            0 <= k < columns_of(key).len() && columns_of(key)[k] == column;
                        assert(columns[k] == column);
                    }
                }
            }
        } else {
            assert forall|i: int| 0 <= i < given.len() implies (#[trigger] given[i]).0
                != column by {
                assert(columns[key.len() + i] == given[i].0);
                assert(columns.contains(columns[key.len() + i]));
            }
            assert(!columns_of(key).contains(column)) by {
                if columns_of(key).contains(column) {
                    let k = choose|k: int|
                        0 <= k < columns_of(key).len() && columns_of(key)[k] == column;
                    assert(columns[k] == column);
                    assert(columns.contains(columns[k]));
                }
            }
        }
    }
    assert(made =~= want);
}

pub proof fn lemma_insert_row(
    db: Database,
    shapes: Shapes,
    order: Order,
    table: Seq<char>,
    key: Key,
    given: Seq<(Seq<char>, SqlValue)>,
)
    requires
        storable_in(db, shapes),
        fits_key(shapes, table, key),
        inserted_columns(key, given).no_duplicates(),
    ensures
        ({
            let st = StatementView::InsertRow { table, key, defaults: given };
            agrees(db, shapes, st, reading(st), order)
        }),
{
    let st = StatementView::InsertRow { table, key, defaults: given };
    let params = st.params();
    let store = store_of(db, shapes);
    let shape = shapes(table);
    let layout = row_layout(db.defaults, shape, table);
    let columns = inserted_columns(key, given);
    let values = params_to(key.len() + given.len());
    lemma_row_store(db, shapes, table);
    lemma_row_key(db, table, key);
    if db.tables.contains(table) {
        let row = made_row(store, layout, columns, values, params);
        assert(forall|i: int|
            0 <= i < columns.len() ==> (layout.columns)(#[trigger] columns[i]) is Some);
        assert(!incomplete(layout, row));
        assert forall|i: int| 0 <= i < key.len() implies row[shape[i]] == SqlValue::Text(
            (#[trigger] key[i]).1,
        ) by {
            assert(columns_of(key)[i] == key[i].0);
            assert(columns[i] == key[i].0);
            assert(columns.contains(columns[i]));
            assert(columns.index_of(columns[i]) == i);
        }
        assert forall|other: Record| #[trigger] store.holds(table, other) implies (same_key(
            layout,
            other,
            row,
        ) <==> key_in(shape, other) == key) by {
            let own = key_in(shape, other);
            lemma_row_key(db, table, own);
            assert(columns_of(own) =~= shape);
            if same_key(layout, other, row) {
                assert forall|i: int| 0 <= i < key.len() implies own[i] == key[i] by {
                    assert(other[layout.key[i]] == row[layout.key[i]]);
                    assert(columns_of(key)[i] == key[i].0);
                    assert(row[shape[i]] == SqlValue::Text(key[i].1));
                }
                assert(own =~= key);
            }
            if own == key {
                assert forall|i: int| 0 <= i < layout.key.len() implies other[#[trigger] layout.key[i]]
                    == row[layout.key[i]] by {
                    assert(own[i].0 == shape[i]);
                    assert(other[own[i].0] == SqlValue::Text(own[i].1));
                    assert(row[shape[i]] == SqlValue::Text(key[i].1));
                }
            }
        }
        if db.rows.contains((table, key)) {
            let other = row_record(db, table, key);
            assert(store.holds(table, other) && same_key(layout, other, row));
        } else {
            lemma_inserted_row(db, shapes, table, key, given);
            let after = db.with_row(table, key, given);
            assert forall|other: Record| #[trigger] store.holds(table, other) implies !same_key(
                layout,
                other,
                row,
            ) by {}
            lemma_row_key(after, table, key);
            let rows = |record: Record|
                record == row || store.holds(table, record) && !same_key(layout, record, row);
            assert forall|record: Record| #[trigger] rows(record) == is_row(
                after,
                shapes,
                table,
                record,
            ) by {
                let own = key_in(shape, record);
                if own != key {
                    assert(row_record(after, table, own) =~= row_record(db, table, own));
                }
            }
            lemma_row_frame(db, after, shapes, table, rows);
        }
    }
}

} // verus!
