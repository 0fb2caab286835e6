//! What setting up a database and migrating it do to its rows.
use vstd::prelude::*;

use crate::alive;
use crate::clock_tables::init_script;
use crate::database::Database;
use crate::database::Order;
use crate::database::converse;
use crate::helpers::decodes;
use crate::json::storable;
use crate::laws::migration::backfilled_at;
use crate::laws::migration::law_add_column_backfills;
use crate::laws::migration::law_drop_column_removes_its_clocks;
use crate::laws::migration::lists_sentinels;
use crate::laws::migration::living_places;
use crate::laws::replica::lemma_table_of;
use crate::laws::replica::length_of;
use crate::laws::replica::next_version;
use crate::laws::replica::row_kept;
use crate::laws::replica::row_of;
use crate::laws::replica::same_rows;
use crate::laws::replica::skeleton_fits;
use crate::laws::replica::sound;
use crate::laws::replica::table_kept;
use crate::laws::replica::was_written;
use crate::laws::state::initialized;
use crate::laws::state::law_init_sets_up;
use crate::laws::state::stored_version;
use crate::laws::sync::incoming;
use crate::laws::sync::law_sync_converges;
use crate::laws::sync::lists_news;
use crate::laws::sync::outgoing;
use crate::laws::sync::tidy;
use crate::migrate::add_column_script;
use crate::migrate::drop_column_script;
use crate::migrate::live_pks;
use crate::schema::SENTINEL;
use crate::schema::TableView;
use crate::schema::table_of;
use crate::schema::tracks;
use crate::statement::Key;
use crate::statement::StatementView;

verus! {

broadcast use lemma_table_of;

/// Whether a table of the application is there and empty, its clock table too, and its values fit
/// in memory as JSON.
pub open spec fn table_unused(db: Database, table: TableView) -> bool {
    &&& db.tables.contains(table.name)
    &&& forall|pk: Seq<char>, column: Seq<char>|
        !#[trigger] db.clocks.dom().contains((table.name, pk, column))
    &&& forall|key: Key| !#[trigger] db.rows.contains((table.name, key))
    &&& forall|key: Key, column: Seq<char>| storable(#[trigger] (db.cells)(table.name, key, column))
    &&& forall|column: Seq<char>| storable(#[trigger] (db.defaults)(table.name, column))
    &&& skeleton_fits(table)
}

/// Setting up a database whose tables are empty makes it a sound replica.
pub proof fn law_init_makes_sound(tables: Seq<TableView>, db: Database, order: Order)
    requires
        forall|name: Seq<char>|
            #![trigger table_of(tables, name)]
            table_of(tables, name) is Some ==> table_unused(db, table_of(tables, name)->0),
    ensures
        sound(converse(init_script(tables), db, order).1, tables),
{
    law_init_sets_up(tables, db, order);
    let after = initialized(db, tables);
    assert forall|name: Seq<char>|
        #![trigger table_of(tables, name)]
        table_of(tables, name) is Some implies table_kept(after, table_of(tables, name)->0)
        && skeleton_fits(table_of(tables, name)->0) by {
        let table = table_of(tables, name)->0;
        assert(table_unused(db, table));
        let i = lemma_listed(tables, name, 0);
        assert(tables[i].name == name);
        assert(after.clock_tables.contains(name));
        assert forall|pk: Seq<char>| #[trigger] decodes(table.pk, pk) implies row_kept(
            after,
            table,
            pk,
        ) by {
            assert(!db.clocks.dom().contains((table.name, pk, SENTINEL@)));
            assert(!db.rows.contains((table.name, crate::helpers::key_of(table.pk, pk))));
        }
    }
}

proof fn lemma_listed(tables: Seq<TableView>, name: Seq<char>, from: int) -> (i: int)
    requires
        crate::schema::table_from(tables, name, from) is Some,
        0 <= from,
    ensures
        from <= i < tables.len(),
        tables[i].name == name,
    decreases tables.len() - from,
{
    if tables[from].name == name {
        from
    } else {
        lemma_listed(tables, name, from + 1)
    }
}

/// From `db` to `after` no row has lost a write or got another causal length, and the only new
/// writes are to `column` of living rows of `table`.
pub open spec fn only_added(
    tables: Seq<TableView>,
    db: Database,
    after: Database,
    table: Seq<char>,
    column: Seq<char>,
) -> bool {
    forall|name: Seq<char>, pk: Seq<char>|
        #![trigger row_of(after, table_of(tables, name)->0, pk)]
        table_of(tables, name) is Some ==> {
            let was = row_of(db, table_of(tables, name)->0, pk);
            let is = row_of(after, table_of(tables, name)->0, pk);
            &&& is.cl == was.cl
            &&& forall|c: Seq<char>| #[trigger]
                was.cells.dom().contains(c) ==> is.cells.dom().contains(c) && is.cells[c]
                    == was.cells[c]
            &&& forall|c: Seq<char>| #[trigger]
                is.cells.dom().contains(c) && !was.cells.dom().contains(c) ==> name == table && c
                    == column && is.cells[c].ver == 1
        }
}

/// Adding a column keeps a replica sound and takes nothing from its rows.
pub proof fn law_add_column_keeps_rows(
    tables: Seq<TableView>,
    db: Database,
    order: Order,
    table: Seq<char>,
    column: Seq<char>,
)
    requires
        sound(db, tables),
        table_of(tables, table) is Some,
        column != SENTINEL@,
        lists_sentinels(db, order, table),
        live_pks(order(db, StatementView::SelectSentinels { table })).len() <= i64::MAX,
        stored_version(db) < i64::MAX,
    ensures
        ({
            let after = converse(add_column_script(tables, table, column), db, order).1;
            sound(after, tables) && only_added(tables, db, after, table, column)
        }),
{
    assert(table_kept(db, table_of(tables, table)->0));
    law_add_column_backfills(tables, db, order, table, column);
    let after = converse(add_column_script(tables, table, column), db, order).1;
    let pks = living_places(db, order, table);
    let db_ver = next_version(db);
    let site = db.site->0;
    assert forall|name: Seq<char>, pk: Seq<char>, c: Seq<char>| #[trigger]
        after.clocks.dom().contains((name, pk, c)) && !db.clocks.dom().contains(
            (name, pk, c),
        ) implies name == table && c == column && alive(length_of(db, table, pk))
        && after.clocks[(name, pk, c)].col_ver == 1 by {
        assert(backfilled_at(db, after, table, column, pks, db_ver, site, (name, pk, c)));
    }
    assert forall|name: Seq<char>, pk: Seq<char>, c: Seq<char>| #[trigger]
        db.clocks.dom().contains((name, pk, c)) implies after.clocks.dom().contains((name, pk, c))
        && after.clocks[(name, pk, c)] == db.clocks[(name, pk, c)] by {
        assert(backfilled_at(db, after, table, column, pks, db_ver, site, (name, pk, c)));
    }
    assert forall|name: Seq<char>, pk: Seq<char>| #[trigger] length_of(after, name, pk)
        == length_of(db, name, pk) by {
        assert(after.clocks.dom().contains((name, pk, SENTINEL@)) == db.clocks.dom().contains(
            (name, pk, SENTINEL@),
        ));
    }
    assert forall|name: Seq<char>|
        #![trigger table_of(tables, name)]
        table_of(tables, name) is Some implies table_kept(after, table_of(tables, name)->0)
        && skeleton_fits(table_of(tables, name)->0) by {
        let spec = table_of(tables, name)->0;
        assert(table_kept(db, spec));
        assert forall|pk: Seq<char>| #[trigger] decodes(spec.pk, pk) implies row_kept(
            after,
            spec,
            pk,
        ) by {
            assert(row_kept(db, spec, pk));
            assert(length_of(after, spec.name, pk) == length_of(db, spec.name, pk));
            assert(after.clocks.dom().contains((spec.name, pk, SENTINEL@))
                == db.clocks.dom().contains((spec.name, pk, SENTINEL@)));
            assert forall|c: Seq<char>| #[trigger]
                after.clocks.dom().contains((spec.name, pk, c)) implies length_of(
                after,
                spec.name,
                pk,
            ) >= 1 && after.clocks[(spec.name, pk, c)].col_ver >= 0 by {
                if db.clocks.dom().contains((spec.name, pk, c)) {
                }
            }
        }
    }
    assert forall|name: Seq<char>, pk: Seq<char>|
        #![trigger row_of(after, table_of(tables, name)->0, pk)]
        table_of(tables, name) is Some implies {
        let was = row_of(db, table_of(tables, name)->0, pk);
        let is = row_of(after, table_of(tables, name)->0, pk);
        &&& is.cl == was.cl
        &&& forall|c: Seq<char>| #[trigger]
            was.cells.dom().contains(c) ==> is.cells.dom().contains(c) && is.cells[c]
                == was.cells[c]
        &&& forall|c: Seq<char>| #[trigger]
            is.cells.dom().contains(c) && !was.cells.dom().contains(c) ==> name == table && c
                == column && is.cells[c].ver == 1
    } by {
        let spec = table_of(tables, name)->0;
        let was = row_of(db, spec, pk);
        let is = row_of(after, spec, pk);
        assert(length_of(after, name, pk) == length_of(db, name, pk));
        assert forall|c: Seq<char>| #[trigger] was.cells.dom().contains(c) implies is.cells.dom().contains(
            c,
        ) && is.cells[c] == was.cells[c] by {
            assert(db.clocks.dom().contains((name, pk, c)));
            assert(was_written(after, spec, pk, c));
        }
        assert forall|c: Seq<char>| #[trigger]
            is.cells.dom().contains(c) && !was.cells.dom().contains(c) implies name == table && c
            == column && is.cells[c].ver == 1 by {
            assert(after.clocks.dom().contains((name, pk, c)));
            if db.clocks.dom().contains((name, pk, c)) {
                assert(was_written(db, spec, pk, c));
            }
        }
    }
}

/// From `db` to `after` no row has got another causal length, and all writes are as they were but
/// those to `column` of `table`, of which none is left.
pub open spec fn only_dropped(
    tables: Seq<TableView>,
    db: Database,
    after: Database,
    table: Seq<char>,
    column: Seq<char>,
) -> bool {
    forall|name: Seq<char>, pk: Seq<char>|
        #![trigger row_of(after, table_of(tables, name)->0, pk)]
        table_of(tables, name) is Some ==> {
            let was = row_of(db, table_of(tables, name)->0, pk);
            let is = row_of(after, table_of(tables, name)->0, pk);
            &&& is.cl == was.cl
            &&& is.cells == (if name == table {
                was.cells.remove(column)
            } else {
                was.cells
            })
        }
}

/// Dropping a column keeps a replica sound and takes from its rows only what they hold in that
/// column.
pub proof fn law_drop_column_keeps_rows(
    tables: Seq<TableView>,
    db: Database,
    order: Order,
    table: Seq<char>,
    column: Seq<char>,
)
    requires
        sound(db, tables),
        db.clock_tables.contains(table),
        column != SENTINEL@,
        stored_version(db) < i64::MAX,
    ensures
        ({
            let after = converse(drop_column_script(tables, table, column), db, order).1;
            sound(after, tables) && only_dropped(tables, db, after, table, column)
        }),
{
    law_drop_column_removes_its_clocks(tables, db, order, table, column);
    let after = converse(drop_column_script(tables, table, column), db, order).1;
    assert forall|name: Seq<char>, pk: Seq<char>, c: Seq<char>|
        !(name == table && c == column) implies #[trigger] after.clocks.dom().contains(
        (name, pk, c),
    ) == db.clocks.dom().contains((name, pk, c)) && (db.clocks.dom().contains((name, pk, c))
        ==> after.clocks[(name, pk, c)] == db.clocks[(name, pk, c)]) by {}
    assert forall|name: Seq<char>, pk: Seq<char>| #[trigger] length_of(after, name, pk)
        == length_of(db, name, pk) by {
        assert(after.clocks.dom().contains((name, pk, SENTINEL@)) == db.clocks.dom().contains(
            (name, pk, SENTINEL@),
        ));
    }
    assert forall|name: Seq<char>|
        #![trigger table_of(tables, name)]
        table_of(tables, name) is Some implies table_kept(after, table_of(tables, name)->0)
        && skeleton_fits(table_of(tables, name)->0) by {
        let spec = table_of(tables, name)->0;
        assert(table_kept(db, spec));
        assert forall|pk: Seq<char>| #[trigger] decodes(spec.pk, pk) implies row_kept(
            after,
            spec,
            pk,
        ) by {
            assert(row_kept(db, spec, pk));
            assert(length_of(after, spec.name, pk) == length_of(db, spec.name, pk));
            assert(after.clocks.dom().contains((spec.name, pk, SENTINEL@))
                == db.clocks.dom().contains((spec.name, pk, SENTINEL@)));
            assert forall|c: Seq<char>| #[trigger]
                after.clocks.dom().contains((spec.name, pk, c)) implies length_of(
                after,
                spec.name,
                pk,
            ) >= 1 && after.clocks[(spec.name, pk, c)].col_ver >= 0 by {
                assert(db.clocks.dom().contains((spec.name, pk, c)));
            }
        }
    }
    assert forall|name: Seq<char>, pk: Seq<char>|
        #![trigger row_of(after, table_of(tables, name)->0, pk)]
        table_of(tables, name) is Some implies {
        let was = row_of(db, table_of(tables, name)->0, pk);
        let is = row_of(after, table_of(tables, name)->0, pk);
        &&& is.cl == was.cl
        &&& is.cells == (if name == table {
            was.cells.remove(column)
        } else {
            was.cells
        })
    } by {
        let spec = table_of(tables, name)->0;
        let was = row_of(db, spec, pk);
        let is = row_of(after, spec, pk);
        let want = if name == table {
            was.cells.remove(column)
        } else {
            was.cells
        };
        assert(length_of(after, name, pk) == length_of(db, name, pk));
        assert forall|c: Seq<char>| #[trigger] is.cells.dom().contains(c) == want.dom().contains(
            c,
        ) by {
            assert(after.clocks.dom().contains((name, pk, c)) == (db.clocks.dom().contains(
                (name, pk, c),
            ) && !(name == table && c == column)));
        }
        assert forall|c: Seq<char>| #[trigger] is.cells.dom().contains(c) implies is.cells[c]
            == want[c] by {
            assert(want.dom().contains(c));
            assert(after.clocks.dom().contains((name, pk, c)));
        }
        assert(is.cells =~= want);
    }
}

/// Two replicas that each add a column and then tell each other all their changes come to hold the
/// same rows.
pub proof fn law_migrated_replicas_converge(
    tables: Seq<TableView>,
    a: Database,
    b: Database,
    order: Order,
    table: Seq<char>,
    column: Seq<char>,
    since: i64,
    now_a: Seq<char>,
    now_b: Seq<char>,
)
    requires
        sound(a, tables),
        sound(b, tables),
        tidy(tables, a, since),
        tidy(tables, b, since),
        tracks(tables, table, column),
        column != SENTINEL@,
        since < next_version(a),
        since < next_version(b),
        stored_version(a) < i64::MAX,
        stored_version(b) < i64::MAX,
        lists_sentinels(a, order, table),
        lists_sentinels(b, order, table),
        live_pks(order(a, StatementView::SelectSentinels { table })).len() <= i64::MAX,
        live_pks(order(b, StatementView::SelectSentinels { table })).len() <= i64::MAX,
        ({
            let next_a = converse(add_column_script(tables, table, column), a, order).1;
            let next_b = converse(add_column_script(tables, table, column), b, order).1;
            forall|name: Seq<char>| #[trigger]
                table_of(tables, name) is Some ==> lists_news(next_a, order, name, since)
                    && lists_news(next_b, order, name, since)
        }),
    ensures
        ({
            let next_a = converse(add_column_script(tables, table, column), a, order).1;
            let next_b = converse(add_column_script(tables, table, column), b, order).1;
            same_rows(
                tables,
                incoming(tables, next_a, order, outgoing(tables, next_b, order, since), now_a),
                incoming(tables, next_b, order, outgoing(tables, next_a, order, since), now_b),
            )
        }),
{
    let next_a = converse(add_column_script(tables, table, column), a, order).1;
    let next_b = converse(add_column_script(tables, table, column), b, order).1;
    lemma_migrated(tables, a, order, table, column, since);
    lemma_migrated(tables, b, order, table, column, since);
    law_sync_converges(tables, next_a, next_b, order, since, now_a, now_b);
}

pub proof fn lemma_migrated(
    tables: Seq<TableView>,
    db: Database,
    order: Order,
    table: Seq<char>,
    column: Seq<char>,
    since: i64,
)
    requires
        sound(db, tables),
        tidy(tables, db, since),
        tracks(tables, table, column),
        column != SENTINEL@,
        since < next_version(db),
        stored_version(db) < i64::MAX,
        lists_sentinels(db, order, table),
        live_pks(order(db, StatementView::SelectSentinels { table })).len() <= i64::MAX,
    ensures
        ({
            let after = converse(add_column_script(tables, table, column), db, order).1;
            &&& sound(after, tables)
            &&& tidy(tables, after, since)
            &&& forall|name: Seq<char>, pk: Seq<char>| #[trigger]
                length_of(after, name, pk) == length_of(db, name, pk)
        }),
{
    assert(table_kept(db, table_of(tables, table)->0));
    law_add_column_keeps_rows(tables, db, order, table, column);
    law_add_column_backfills(tables, db, order, table, column);
    let after = converse(add_column_script(tables, table, column), db, order).1;
    let pks = living_places(db, order, table);
    let db_ver = next_version(db);
    let site = db.site->0;
    assert forall|name: Seq<char>, pk: Seq<char>, c: Seq<char>| #[trigger]
        after.clocks.dom().contains((name, pk, c)) == (db.clocks.dom().contains((name, pk, c)) || (
    name == table && c == column && alive(length_of(db, table, pk)))) by {
        assert(backfilled_at(db, after, table, column, pks, db_ver, site, (name, pk, c)));
    }
    assert forall|name: Seq<char>, pk: Seq<char>, c: Seq<char>|
        #![trigger after.clocks.dom().contains((name, pk, c))]
        db.clocks.dom().contains((name, pk, c)) implies after.clocks[(name, pk, c)]
        == db.clocks[(name, pk, c)] by {
        assert(backfilled_at(db, after, table, column, pks, db_ver, site, (name, pk, c)));
    }
    assert forall|name: Seq<char>, pk: Seq<char>| #[trigger] length_of(after, name, pk)
        == length_of(db, name, pk) by {
        assert(after.clocks.dom().contains((name, pk, SENTINEL@)) == db.clocks.dom().contains(
            (name, pk, SENTINEL@),
        ));
    }
    assert(tidy(tables, after, since)) by {
        assert forall|name: Seq<char>, pk: Seq<char>, c: Seq<char>|
            table_of(tables, name) is Some && #[trigger] after.clocks.dom().contains(
                (name, pk, c),
            ) implies {
            &&& after.clocks[(name, pk, c)].db_ver > since
            &&& decodes(table_of(tables, name)->0.pk, pk)
            &&& tracks(tables, name, c)
        } by {
            if !db.clocks.dom().contains((name, pk, c)) {
                assert(backfilled_at(db, after, table, column, pks, db_ver, site, (name, pk, c)));
                assert(db.clocks.dom().contains((name, pk, SENTINEL@)));
            }
        }
    }
}

} // verus!
