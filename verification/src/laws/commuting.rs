//! Adding a column and syncing, in either order.
use vstd::prelude::*;

use crate::alive;
use crate::database::Database;
use crate::database::Order;
use crate::database::converse;
use crate::helpers::decodes;
use crate::helpers::key_of;
use crate::json::json_of;
use crate::laws::convergence::RowView;
use crate::laws::convergence::law_conflicts_resolve;
use crate::laws::convergence::lemma_meet_unique;
use crate::laws::convergence::meet;
use crate::laws::migration::law_add_column_backfills;
use crate::laws::migration::lists_sentinels;
use crate::laws::replica::lemma_row_kept;
use crate::laws::replica::lemma_table_of;
use crate::laws::replica::length_of;
use crate::laws::replica::next_version;
use crate::laws::replica::row_of;
use crate::laws::replica::sound;
use crate::laws::replica::table_kept;
use crate::laws::replica::was_written;
use crate::laws::state::stored_version;
use crate::laws::sync::incoming;
use crate::laws::sync::law_sync_joins_rows;
use crate::laws::sync::lists_news;
use crate::laws::sync::outgoing;
use crate::laws::sync::tidy;
use crate::laws::upkeep::law_add_column_keeps_rows;
use crate::laws::upkeep::lemma_migrated;
use crate::migrate::add_column_script;
use crate::migrate::live_pks;
use crate::schema::SENTINEL;
use crate::schema::TableView;
use crate::schema::table_of;
use crate::schema::tracks;
use crate::statement::StatementView;
use crate::text::codes;
use crate::text::lemma_before_total;
use crate::text::lemma_codes_injective;
use crate::text::text_before;

verus! {

broadcast use lemma_table_of;

/// What a row shows in a column: what was written to it, or else the default.
pub open spec fn shown(row: RowView, column: Seq<char>, default: Seq<char>) -> Seq<char> {
    if row.cells.dom().contains(column) {
        row.cells[column].text
    } else {
        default
    }
}

/// Whether two rows show the same: they have the same causal length and the same writes, but that
/// one may have written the default to `column` where the other one shows it without a write.
pub open spec fn show_same(
    a: RowView,
    b: RowView,
    column: Seq<char>,
    default: Seq<char>,
) -> bool {
    &&& a.cl == b.cl
    &&& forall|c: Seq<char>|
        c != column ==> #[trigger] a.cells.dom().contains(c) == b.cells.dom().contains(c)
    &&& forall|c: Seq<char>|
        c != column && a.cells.dom().contains(c) ==> #[trigger] a.cells[c] == b.cells[c]
    &&& shown(a, column, default) == shown(b, column, default)
}

/// Whether a row has been given the default as the first write to a column, if that had none.
spec fn filled(row: RowView, more: RowView, column: Seq<char>, default: Seq<char>) -> bool {
    &&& more.cl == row.cl
    &&& forall|c: Seq<char>| #[trigger]
        row.cells.dom().contains(c) ==> more.cells.dom().contains(c) && more.cells[c]
            == row.cells[c]
    &&& forall|c: Seq<char>| #[trigger]
        more.cells.dom().contains(c) && !row.cells.dom().contains(c) ==> c == column
            && more.cells[c].ver == 1 && more.cells[c].text == default
}

/// Whether a write to a column of a row counts, and is not of a text before the default.
spec fn least(row: RowView, column: Seq<char>, default: Seq<char>) -> bool {
    row.cells.dom().contains(column) ==> row.cells[column].ver >= 1 && !text_before(
        row.cells[column].text,
        default,
    )
}

proof fn lemma_show_same(
    a: RowView,
    b: RowView,
    r: RowView,
    a2: RowView,
    b2: RowView,
    r2: RowView,
    column: Seq<char>,
    default: Seq<char>,
)
    requires
        a.cl >= 0,
        b.cl >= 0,
        meet(a, b, r),
        meet(a2, b2, r2),
        filled(a, a2, column, default),
        filled(b, b2, column, default),
        least(a, column, default),
        least(b, column, default),
    ensures
        show_same(r, r2, column, default),
{
    if a.cl != b.cl {
        let (one, more) = if a.cl > b.cl {
            (a, a2)
        } else {
            (b, b2)
        };
        assert(r == one && r2 == more);
        assert forall|c: Seq<char>| c != column implies #[trigger] r.cells.dom().contains(c)
            == r2.cells.dom().contains(c) by {
            assert(one.cells.dom().contains(c) == more.cells.dom().contains(c));
        }
        assert forall|c: Seq<char>|
            c != column && r.cells.dom().contains(c) implies #[trigger] r.cells[c]
            == r2.cells[c] by {
            assert(one.cells.dom().contains(c));
        }
        assert(one.cells.dom().contains(column) ==> more.cells.dom().contains(column));
    } else if alive(r.cl) {
        assert forall|c: Seq<char>| c != column implies #[trigger] r.cells.dom().contains(c)
            == r2.cells.dom().contains(c) by {
            assert(a2.cells.dom().contains(c) == a.cells.dom().contains(c));
            assert(b2.cells.dom().contains(c) == b.cells.dom().contains(c));
        }
        assert forall|c: Seq<char>|
            c != column && r.cells.dom().contains(c) implies #[trigger] r.cells[c]
            == r2.cells[c] by {
            assert(r2.cells.dom().contains(c));
            assert(a2.cells.dom().contains(c) == a.cells.dom().contains(c));
            assert(b2.cells.dom().contains(c) == b.cells.dom().contains(c));
            law_conflicts_resolve(r.cells[c], r2.cells[c]);
        }
        if r.cells.dom().contains(column) {
            let w = r.cells[column];
            let w2 = r2.cells[column];
            assert(a.cells.dom().contains(column) || b.cells.dom().contains(column));
            assert(r2.cells.dom().contains(column));
            law_conflicts_resolve(w, w2);
            lemma_before_total(codes(w.text), codes(w2.text));
            lemma_codes_injective(w.text, w2.text);
        } else {
            assert(!a.cells.dom().contains(column));
            assert(!b.cells.dom().contains(column));
            if r2.cells.dom().contains(column) {
                assert(a2.cells.dom().contains(column) || b2.cells.dom().contains(column));
            }
        }
    }
}

/// Whether the living rows of a table show the default in a column where they have no write to it,
/// and no write to it is of a text before the default.
pub open spec fn plain(
    db: Database,
    table: TableView,
    column: Seq<char>,
    default: Seq<char>,
) -> bool {
    forall|pk: Seq<char>|
        #![trigger row_of(db, table, pk)]
        decodes(table.pk, pk) && alive(length_of(db, table.name, pk)) ==> {
            let text = json_of((db.cells)(table.name, key_of(table.pk, pk), column)).text();
            if was_written(db, table, pk, column) {
                !text_before(text, default)
            } else {
                text == default
            }
        }
}

/// All rows of two databases show the same, that of the default in a column of a table included.
pub open spec fn all_show_same(
    tables: Seq<TableView>,
    a: Database,
    b: Database,
    table: Seq<char>,
    column: Seq<char>,
    default: Seq<char>,
) -> bool {
    forall|name: Seq<char>, pk: Seq<char>|
        #![trigger row_of(a, table_of(tables, name)->0, pk)]
        table_of(tables, name) is Some && decodes(table_of(tables, name)->0.pk, pk) ==> {
            let row_a = row_of(a, table_of(tables, name)->0, pk);
            let row_b = row_of(b, table_of(tables, name)->0, pk);
            if name == table {
                show_same(row_a, row_b, column, default)
            } else {
                row_a == row_b
            }
        }
}

proof fn lemma_filled(
    tables: Seq<TableView>,
    db: Database,
    order: Order,
    table: Seq<char>,
    column: Seq<char>,
    default: Seq<char>,
    pk: Seq<char>,
)
    requires
        sound(db, tables),
        table_of(tables, table) is Some,
        column != SENTINEL@,
        stored_version(db) < i64::MAX,
        lists_sentinels(db, order, table),
        live_pks(order(db, StatementView::SelectSentinels { table })).len() <= i64::MAX,
        plain(db, table_of(tables, table)->0, column, default),
        decodes(table_of(tables, table)->0.pk, pk),
    ensures
        ({
            let spec = table_of(tables, table)->0;
            let after = converse(add_column_script(tables, table, column), db, order).1;
            &&& filled(row_of(db, spec, pk), row_of(after, spec, pk), column, default)
            &&& least(row_of(db, spec, pk), column, default)
            &&& row_of(db, spec, pk).cl >= 0
        }),
{
    let spec = table_of(tables, table)->0;
    assert(table_kept(db, spec));
    lemma_row_kept(db, spec, pk);
    law_add_column_keeps_rows(tables, db, order, table, column);
    law_add_column_backfills(tables, db, order, table, column);
    let after = converse(add_column_script(tables, table, column), db, order).1;
    let was = row_of(db, spec, pk);
    let is = row_of(after, table_of(tables, table)->0, pk);
    assert(after.cells == db.cells);
    assert forall|c: Seq<char>| #[trigger]
        is.cells.dom().contains(c) && !was.cells.dom().contains(c) implies c == column
        && is.cells[c].ver == 1 && is.cells[c].text == default by {
        assert(was_written(after, spec, pk, c));
        assert(!was_written(db, spec, pk, c));
        assert(alive(length_of(db, table, pk)));
    }
}

/// Adding a column commutes with syncing: a replica that syncs after both sides have added a column
/// comes to show the same as one that syncs without (to add the column only then changes no value).
/// Rows that nothing was written to yet must hold one default in the column on both sides, and no
/// write may be of a text before it.
pub proof fn law_add_column_commutes_with_sync(
    tables: Seq<TableView>,
    a: Database,
    b: Database,
    order: Order,
    table: Seq<char>,
    column: Seq<char>,
    default: Seq<char>,
    since: i64,
    now: Seq<char>,
    later: Seq<char>,
)
    requires
        sound(a, tables),
        sound(b, tables),
        tidy(tables, b, since),
        tracks(tables, table, column),
        column != SENTINEL@,
        since < next_version(b),
        stored_version(a) < i64::MAX,
        stored_version(b) < i64::MAX,
        plain(a, table_of(tables, table)->0, column, default),
        plain(b, table_of(tables, table)->0, column, default),
        lists_sentinels(a, order, table),
        lists_sentinels(b, order, table),
        live_pks(order(a, StatementView::SelectSentinels { table })).len() <= i64::MAX,
        live_pks(order(b, StatementView::SelectSentinels { table })).len() <= i64::MAX,
        ({
            let next_b = converse(add_column_script(tables, table, column), b, order).1;
            forall|name: Seq<char>| #[trigger]
                table_of(tables, name) is Some ==> lists_news(b, order, name, since)
                    && lists_news(next_b, order, name, since)
        }),
    ensures
        ({
            let next_a = converse(add_column_script(tables, table, column), a, order).1;
            let next_b = converse(add_column_script(tables, table, column), b, order).1;
            all_show_same(
                tables,
                incoming(tables, a, order, outgoing(tables, b, order, since), now),
                incoming(tables, next_a, order, outgoing(tables, next_b, order, since), later),
                table,
                column,
                default,
            )
        }),
{
    let next_a = converse(add_column_script(tables, table, column), a, order).1;
    let next_b = converse(add_column_script(tables, table, column), b, order).1;
    lemma_added(tables, a, order, table, column);
    lemma_migrated(tables, b, order, table, column, since);
    lemma_added(tables, b, order, table, column);
    law_sync_joins_rows(tables, a, b, order, since, now);
    law_sync_joins_rows(tables, next_a, next_b, order, since, later);
    let plainly = incoming(tables, a, order, outgoing(tables, b, order, since), now);
    let migrated = incoming(tables, next_a, order, outgoing(tables, next_b, order, since), later);
    assert forall|name: Seq<char>, pk: Seq<char>|
        #![trigger row_of(plainly, table_of(tables, name)->0, pk)]
        table_of(tables, name) is Some && decodes(table_of(tables, name)->0.pk, pk) implies {
        let row_a = row_of(plainly, table_of(tables, name)->0, pk);
        let row_b = row_of(migrated, table_of(tables, name)->0, pk);
        if name == table {
            show_same(row_a, row_b, column, default)
        } else {
            row_a == row_b
        }
    } by {
        let spec = table_of(tables, name)->0;
        let r = row_of(plainly, table_of(tables, name)->0, pk);
        let r2 = row_of(migrated, table_of(tables, name)->0, pk);
        assert(meet(row_of(a, spec, pk), row_of(b, spec, pk), r));
        assert(meet(row_of(next_a, spec, pk), row_of(next_b, spec, pk), r2));
        if name == table {
            lemma_filled(tables, a, order, table, column, default, pk);
            lemma_filled(tables, b, order, table, column, default, pk);
            lemma_show_same(
                row_of(a, spec, pk),
                row_of(b, spec, pk),
                r,
                row_of(next_a, spec, pk),
                row_of(next_b, spec, pk),
                r2,
                column,
                default,
            );
        } else {
            assert(row_of(next_a, table_of(tables, name)->0, pk) == row_of(a, spec, pk));
            assert(row_of(next_b, table_of(tables, name)->0, pk) == row_of(b, spec, pk));
            assert(table_kept(a, spec));
            assert(table_kept(b, spec));
            lemma_row_kept(a, spec, pk);
            lemma_row_kept(b, spec, pk);
            assert(meet(row_of(b, spec, pk), row_of(a, spec, pk), r2));
            lemma_meet_unique(row_of(a, spec, pk), row_of(b, spec, pk), r, r2);
        }
    }
}

/// Adding a column leaves the rows of other tables, and all causal lengths, as they are.
proof fn lemma_added(
    tables: Seq<TableView>,
    db: Database,
    order: Order,
    table: Seq<char>,
    column: Seq<char>,
)
    requires
        sound(db, tables),
        table_of(tables, table) is Some,
        column != SENTINEL@,
        stored_version(db) < i64::MAX,
        lists_sentinels(db, order, table),
        live_pks(order(db, StatementView::SelectSentinels { table })).len() <= i64::MAX,
    ensures
        ({
            let after = converse(add_column_script(tables, table, column), db, order).1;
            &&& sound(after, tables)
            &&& forall|name: Seq<char>, pk: Seq<char>|
                table_of(tables, name) is Some ==> #[trigger] length_of(after, name, pk)
                    == length_of(db, name, pk)
            &&& forall|name: Seq<char>, pk: Seq<char>|
                #![trigger row_of(after, table_of(tables, name)->0, pk)]
                table_of(tables, name) is Some && name != table ==> row_of(
                    after,
                    table_of(tables, name)->0,
                    pk,
                ) == row_of(db, table_of(tables, name)->0, pk)
        }),
{
    law_add_column_keeps_rows(tables, db, order, table, column);
    let after = converse(add_column_script(tables, table, column), db, order).1;
    assert forall|name: Seq<char>, pk: Seq<char>|
        table_of(tables, name) is Some implies #[trigger] length_of(after, name, pk) == length_of(
        db,
        name,
        pk,
    ) by {
        assert(row_of(after, table_of(tables, name)->0, pk).cl == length_of(after, name, pk));
    }
    assert forall|name: Seq<char>, pk: Seq<char>|
        #![trigger row_of(after, table_of(tables, name)->0, pk)]
        table_of(tables, name) is Some && name != table implies row_of(
        after,
        table_of(tables, name)->0,
        pk,
    ) == row_of(db, table_of(tables, name)->0, pk) by {
        let was = row_of(db, table_of(tables, name)->0, pk);
        let is = row_of(after, table_of(tables, name)->0, pk);
        assert forall|c: Seq<char>| #[trigger] is.cells.dom().contains(c)
            == was.cells.dom().contains(c) by {}
        assert(is.cells =~= was.cells);
    }
}

} // verus!
