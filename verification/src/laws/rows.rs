//! Laws of single rows and values: what is written is read, what is made is found, and what is
//! removed is gone.
use vstd::prelude::*;

use crate::database::Database;
use crate::database::Order;
use crate::database::converse;
use crate::database::given_value;
use crate::database::group_converse;
use crate::database::key_value;
use crate::flow::command;
use crate::helpers::clock_script;
use crate::helpers::col_ver_script;
use crate::helpers::decodes;
use crate::helpers::defaults_at;
use crate::helpers::delete_script;
use crate::helpers::exists_script;
use crate::helpers::key_of;
use crate::helpers::read_script;
use crate::helpers::skeleton_script;
use crate::helpers::write_script;
use crate::json::JsonView;
use crate::json::has_json;
use crate::json::json_of;
use crate::json::stored_form;
use crate::json::value_of;
use crate::schema::PkView;
use crate::schema::SkeletonView;
use crate::schema::TableView;
use crate::schema::table_of;
use crate::statement::Key;
use crate::statement::StampView;
use crate::statement::StatementView;
use crate::value::ErrorView;
use crate::value::SqlValue;

verus! {

broadcast use group_converse;

/// Whether a table is known and there, and a key text has a value for each of its key columns.
pub open spec fn reachable(
    tables: Seq<TableView>,
    db: Database,
    table: TableView,
    pk: Seq<char>,
) -> bool {
    &&& table_of(tables, table.name) == Some(table)
    &&& db.tables.contains(table.name)
    &&& decodes(table.pk, pk)
}

/// The row that a key text stands for is found exactly if it is in its table.
pub proof fn law_rows_are_found(
    tables: Seq<TableView>,
    db: Database,
    order: Order,
    table: TableView,
    pk: Seq<char>,
)
    requires
        reachable(tables, db, table, pk),
    ensures
        converse(exists_script(tables, table.name, pk), db, order) == (
            Some(db.rows.contains((table.name, key_of(table.pk, pk)))),
            db,
        ),
{
}

/// What is written to a column of a row is read from it as it was stored; all else stays as it was.
pub proof fn law_cells_read_back(
    tables: Seq<TableView>,
    db: Database,
    order: Order,
    table: TableView,
    pk: Seq<char>,
    column: Seq<char>,
    value: JsonView,
)
    requires
        reachable(tables, db, table, pk),
        db.rows.contains((table.name, key_of(table.pk, pk))),
        has_json(value_of(value)),
    ensures
        ({
            let (outcome, after) = converse(
                write_script(tables, table.name, pk, column, value),
                db,
                order,
            );
            &&& outcome == Some(())
            &&& converse(read_script(tables, table.name, pk, column), after, order) == (
                Some(stored_form(value)),
                after,
            )
            &&& after == (Database { cells: after.cells, ..db })
            &&& forall|t: Seq<char>, k: Key, c: Seq<char>|
                !(t == table.name && k == key_of(table.pk, pk) && c == column)
                    ==> #[trigger] (after.cells)(t, k, c) == (db.cells)(t, k, c)
        }),
{
}

/// A column is read as the JSON form of what it holds, and as `null` if its row is not there.
pub proof fn law_cells_are_read(
    tables: Seq<TableView>,
    db: Database,
    order: Order,
    table: TableView,
    pk: Seq<char>,
    column: Seq<char>,
)
    requires
        reachable(tables, db, table, pk),
        has_json((db.cells)(table.name, key_of(table.pk, pk), column)),
    ensures
        ({
            let (outcome, after) = converse(
                read_script(tables, table.name, pk, column),
                db,
                order,
            );
            &&& after == db
            &&& outcome == Some(
                if db.rows.contains((table.name, key_of(table.pk, pk))) {
                    json_of((db.cells)(table.name, key_of(table.pk, pk), column))
                } else {
                    JsonView::Null
                },
            )
        }),
{
}

/// A row that was removed is not found, and no other row and no clock entry is touched.
pub proof fn law_removed_rows_are_gone(
    tables: Seq<TableView>,
    db: Database,
    order: Order,
    table: TableView,
    pk: Seq<char>,
)
    requires
        reachable(tables, db, table, pk),
    ensures
        ({
            let (outcome, after) = converse(delete_script(tables, table.name, pk), db, order);
            &&& outcome == Some(())
            &&& converse(exists_script(tables, table.name, pk), after, order) == (
                Some(false),
                after,
            )
            &&& after == (Database { rows: after.rows, ..db })
            &&& forall|t: Seq<char>, k: Key|
                !(t == table.name && k == key_of(table.pk, pk)) ==> #[trigger] after.rows.contains(
                    (t, k),
                ) == db.rows.contains((t, k))
        }),
{
}

/// Whether a list gives a column a value once.
pub open spec fn named_once<T>(given: Seq<(Seq<char>, T)>, column: Seq<char>, i: int) -> bool {
    &&& 0 <= i < given.len()
    &&& given[i].0 == column
    &&& forall|j: int| 0 <= j < given.len() && j != i ==> (#[trigger] given[j]).0 != column
}

/// Whether a list gives a column no value.
pub open spec fn unnamed<T>(given: Seq<(Seq<char>, T)>, column: Seq<char>) -> bool {
    forall|j: int| 0 <= j < given.len() ==> (#[trigger] given[j]).0 != column
}

proof fn lemma_given(given: Seq<(Seq<char>, SqlValue)>, column: Seq<char>)
    ensures
        forall|i: int| #[trigger]
            named_once(given, column, i) ==> given_value(given, column) == Some(given[i].1),
        unnamed(given, column) ==> given_value(given, column) is None,
    decreases given.len(),
{
    if given.len() > 0 {
        let head = given.drop_last();
        lemma_given(head, column);
        assert forall|i: int| #[trigger] named_once(given, column, i) implies given_value(
            given,
            column,
        ) == Some(given[i].1) by {
            if i < head.len() {
                assert(given[given.len() - 1].0 != column);
                assert(head[i] == given[i]);
                assert forall|j: int| 0 <= j < head.len() && j != i implies (
                #[trigger] head[j]).0 != column by {
                    assert(given[j] == head[j]);
                }
                assert(named_once(head, column, i));
            }
        }
        if unnamed(given, column) {
            assert(given[given.len() - 1].0 != column);
            assert forall|j: int| 0 <= j < head.len() implies (#[trigger] head[j]).0 != column by {
                assert(given[j] == head[j]);
            }
        }
    }
}

proof fn lemma_key_given(key: Key, column: Seq<char>)
    ensures
        forall|i: int| #[trigger]
            named_once(key, column, i) ==> key_value(key, column) == Some(SqlValue::Text(key[i].1)),
        unnamed(key, column) ==> key_value(key, column) is None,
    decreases key.len(),
{
    if key.len() > 0 {
        let head = key.drop_last();
        lemma_key_given(head, column);
        assert forall|i: int| #[trigger] named_once(key, column, i) implies key_value(key, column)
            == Some(SqlValue::Text(key[i].1)) by {
            if i < head.len() {
                assert(key[key.len() - 1].0 != column);
                assert(head[i] == key[i]);
                assert forall|j: int| 0 <= j < head.len() && j != i implies (
                #[trigger] head[j]).0 != column by {
                    assert(key[j] == head[j]);
                }
                assert(named_once(head, column, i));
            }
        }
        if unnamed(key, column) {
            assert(key[key.len() - 1].0 != column);
            assert forall|j: int| 0 <= j < head.len() implies (#[trigger] head[j]).0 != column by {
                assert(key[j] == head[j]);
            }
        }
    }
}

/// A row that is made for a change holds its key, the skeleton defaults of its table, of which
/// those
/// that stand for the time hold the time at which it is made, and in all other columns the defaults
/// of its table. A row that is there stays as it is, and so do all other rows and all clock
/// entries.
pub proof fn law_new_rows_hold_defaults(
    tables: Seq<TableView>,
    db: Database,
    order: Order,
    table: TableView,
    pk: Seq<char>,
    now: Seq<char>,
    column: Seq<char>,
)
    requires
        reachable(tables, db, table, pk),
    ensures
        ({
            let (outcome, after) = converse(
                skeleton_script(tables, table.name, pk, now),
                db,
                order,
            );
            let key = key_of(table.pk, pk);
            let value = (after.cells)(table.name, key, column);
            &&& outcome == Some(())
            &&& db.rows.contains((table.name, key)) ==> after == db
            &&& after == (Database { rows: after.rows, cells: after.cells, ..db })
            &&& after.rows == db.rows.insert((table.name, key))
            &&& forall|t: Seq<char>, k: Key, c: Seq<char>|
                !(t == table.name && k == key) ==> #[trigger] (after.cells)(t, k, c) == (db.cells)(
                    t,
                    k,
                    c,
                )
            &&& !db.rows.contains((table.name, key)) ==> {
                &&& forall|i: int| #[trigger]
                    named_once(table.skeleton, column, i) ==> value == (
                    match table.skeleton[i].1 {
                        SkeletonView::Literal(literal) => literal,
                        SkeletonView::NowRfc3339 => SqlValue::Text(now),
                    })
                &&& unnamed(table.skeleton, column) ==> {
                    &&& forall|i: int| #[trigger]
                        named_once(key, column, i) ==> value == SqlValue::Text(key[i].1)
                    &&& unnamed(key, column) ==> value == (db.defaults)(table.name, column)
                }
            }
        }),
{
    let key = key_of(table.pk, pk);
    let after = converse(skeleton_script(tables, table.name, pk, now), db, order).1;
    let given = defaults_at(table.skeleton, now);
    if db.rows.contains((table.name, key)) {
        assert(after.rows =~= db.rows.insert((table.name, key)));
    } else {
        lemma_given(given, column);
        lemma_key_given(key, column);
        assert forall|i: int| #[trigger] named_once(table.skeleton, column, i) implies named_once(
            given,
            column,
            i,
        ) by {
            assert(given[i].0 == table.skeleton[i].0);
            assert forall|j: int| 0 <= j < given.len() && j != i implies (#[trigger] given[j]).0
                != column by {
                assert(table.skeleton[j].0 != column);
            }
        }
        if unnamed(table.skeleton, column) {
            assert forall|j: int| 0 <= j < given.len() implies (#[trigger] given[j]).0
                != column by {
                assert(table.skeleton[j].0 != column);
            }
        }
    }
}

/// The key text of a row gives its key columns their values: the text itself for one column, and
/// what stands before and behind the first separator for two.
pub proof fn law_key_columns_hold_the_key(shape: PkView, pk: Seq<char>)
    requires
        decodes(shape, pk),
    ensures
        match shape {
            PkView::Single { column } => key_of(shape, pk) == seq![(column, pk)],
            PkView::Composite { columns, sep } => {
                let key = key_of(shape, pk);
                &&& key.len() == 2
                &&& key[0].0 == columns.0
                &&& key[1].0 == columns.1
                &&& key[0].1.push(sep) + key[1].1 == pk
                &&& !key[0].1.contains(sep)
            },
        },
{
    if let PkView::Composite { columns, sep } = shape {
        crate::text::lemma_halves_join(pk, sep);
    }
}

/// A key text lacks a value exactly if it is to hold two and the separator is not in it.
pub proof fn law_key_texts_are_complete(shape: PkView, pk: Seq<char>)
    ensures
        decodes(shape, pk) <==> (shape matches PkView::Composite { columns, sep } ==> pk.contains(
            sep,
        )),
{
    if let PkView::Composite { columns, sep } = shape {
        crate::text::lemma_first_from(pk, sep, 0);
        if pk.contains(sep) {
            let i = choose|i: int| 0 <= i < pk.len() && pk[i] == sep;
            assert(0 <= i < pk.len() && pk[i] == sep);
        }
    }
}

/// A clock entry that was stored is read back, with its version and its site; an entry that is not
/// there is read as version zero without a site.
pub proof fn law_clocks_read_back(
    db: Database,
    order: Order,
    table: Seq<char>,
    stamp: StampView,
    pk: Seq<char>,
    column: Seq<char>,
)
    requires
        db.clock_tables.contains(table),
    ensures
        ({
            let (outcome, after) = converse(
                command(StatementView::PutClock { table, stamp }),
                db,
                order,
            );
            &&& outcome == Some(Ok::<(), ErrorView>(()))
            &&& converse(clock_script(table, stamp.pk, stamp.column), after, order) == (
                Some((stamp.col_ver, stamp.site_id)),
                after,
            )
            &&& converse(col_ver_script(table, stamp.pk, stamp.column), after, order) == (
                Some(stamp.col_ver),
                after,
            )
            &&& !(pk == stamp.pk && column == stamp.column) ==> converse(
                clock_script(table, pk, column),
                after,
                order,
            ).0 == converse(clock_script(table, pk, column), db, order).0
        }),
        !db.clocks.dom().contains((table, pk, column)) ==> converse(
            clock_script(table, pk, column),
            db,
            order,
        ) == (Some((0i64, Seq::<u8>::empty())), db),
{
}

/// A row that cannot be reached, as its table is not known or not there or its key text lacks a
/// value, is not there, has nothing in its columns, and is not touched by what is to make, change
/// or
/// remove it; none of that fails.
pub proof fn law_unreachable_rows_are_not_touched(
    tables: Seq<TableView>,
    db: Database,
    order: Order,
    name: Seq<char>,
    pk: Seq<char>,
    column: Seq<char>,
    value: JsonView,
    now: Seq<char>,
)
    requires
        table_of(tables, name) is None || !db.tables.contains(name) || !decodes(
            table_of(tables, name)->0.pk,
            pk,
        ),
    ensures
        converse(exists_script(tables, name, pk), db, order) == (Some(false), db),
        converse(read_script(tables, name, pk, column), db, order) == (Some(JsonView::Null), db),
        converse(skeleton_script(tables, name, pk, now), db, order) == (Some(()), db),
        converse(write_script(tables, name, pk, column, value), db, order) == (Some(()), db),
        converse(delete_script(tables, name, pk), db, order) == (Some(()), db),
{
}

/// A table without a clock table has no clock entries.
pub proof fn law_missing_clock_tables_are_empty(
    db: Database,
    order: Order,
    table: Seq<char>,
    pk: Seq<char>,
    column: Seq<char>,
)
    requires
        !db.clock_tables.contains(table),
    ensures
        converse(col_ver_script(table, pk, column), db, order) == (Some(0i64), db),
        converse(clock_script(table, pk, column), db, order) == (
            Some((0i64, Seq::<u8>::empty())),
            db,
        ),
{
}

} // verus!
