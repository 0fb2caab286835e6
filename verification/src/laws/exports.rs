//! What a replica tells of itself from one version and from a later one.
use vstd::prelude::*;

use crate::ChangeView;
use crate::database::Database;
use crate::database::Order;
use crate::database::converse;
use crate::database::group_converse;
use crate::helpers::decodes;
use crate::helpers::key_of;
use crate::json::JsonView;
use crate::json::json_of;
use crate::laws::replica::lemma_table_of;
use crate::laws::replica::length_of;
use crate::laws::replica::numbered;
use crate::laws::replica::sound;
use crate::laws::replica::version_of;
use crate::laws::state::stored_version;
use crate::laws::sync::entry_row;
use crate::laws::sync::is_news;
use crate::laws::sync::law_changes_since_tells_news;
use crate::laws::sync::lemma_outgoing;
use crate::laws::sync::lemma_table_found;
use crate::laws::sync::listed_stamps;
use crate::laws::sync::lists_news;
use crate::laws::sync::outgoing;
use crate::laws::sync::stamp_at;
use crate::laws::sync::tells_news;
use crate::laws::sync::told;
use crate::laws::sync::told_all;
use crate::laws::sync::told_from;
use crate::schema::SENTINEL;
use crate::schema::TableView;
use crate::schema::fingerprint_of;
use crate::schema::table_of;
use crate::state::schema_version_script;
use crate::statement::StatementView;
use crate::tracking::changes_script;
use crate::tracking::changeset_script;
use crate::value::ErrorView;

verus! {

broadcast use {group_converse, lemma_table_of};

/// Whether no two tables have one name.
pub open spec fn distinct_names(tables: Seq<TableView>) -> bool {
    forall|i: int, j: int|
        0 <= i < j < tables.len() ==> (#[trigger] tables[i]).name != (#[trigger] tables[j]).name
}

/// Whether the version of a database is a number, and each of its clock entries is of a version
/// from
/// one up to that.
pub open spec fn dated(db: Database) -> bool {
    &&& numbered(db)
    &&& version_of(db) >= 0
    &&& forall|t: Seq<char>, p: Seq<char>, c: Seq<char>| #[trigger]
        db.clocks.dom().contains((t, p, c)) ==> 0 < db.clocks[(t, p, c)].db_ver <= version_of(db)
}

/// What a table tells is of the clock entries that are listed, each once.
proof fn lemma_told_once(
    tables: Seq<TableView>,
    db: Database,
    order: Order,
    table: Seq<char>,
    since: i64,
)
    requires
        lists_news(db, order, table, since),
    ensures
        told_all(
            tables,
            db,
            table,
            listed_stamps(db, order, table, since),
        ).no_duplicates(),
        forall|i: int|
            0 <= i < listed_stamps(db, order, table, since).len() ==> (#[trigger] told_all(
                tables,
                db,
                table,
                listed_stamps(db, order, table, since),
            )[i]).table_name == table,
{
    let rows = order(db, StatementView::SelectChanges { table, since });
    let stamps = listed_stamps(db, order, table, since);
    let own = told_all(tables, db, table, stamps);
    assert forall|i: int, j: int| 0 <= i < own.len() && 0 <= j < own.len() && i != j implies own[i]
        != own[j] by {
        let (p, c) = choose|p: Seq<char>, c: Seq<char>| #[trigger]
            is_news(db, table, p, c, since) && rows[i] == entry_row(
                p,
                c,
                db.clocks[(table, p, c)],
            );
        let (q, d) = choose|q: Seq<char>, d: Seq<char>| #[trigger]
            is_news(db, table, q, d, since) && rows[j] == entry_row(
                q,
                d,
                db.clocks[(table, q, d)],
            );
        assert(stamps[i] == stamp_at(db, table, p, c));
        assert(stamps[j] == stamp_at(db, table, q, d));
        assert(rows[i] != rows[j]);
        assert(own[i].pk == p && own[i].col_name == c);
        assert(own[j].pk == q && own[j].col_name == d);
    }
}

proof fn lemma_all_told_once(
    tables: Seq<TableView>,
    db: Database,
    order: Order,
    since: i64,
    from: int,
)
    requires
        0 <= from <= tables.len(),
        distinct_names(tables),
        forall|name: Seq<char>| #[trigger]
            table_of(tables, name) is Some ==> lists_news(db, order, name, since),
    ensures
        told_from(tables, db, order, since, from).no_duplicates(),
        forall|i: int|
            0 <= i < told_from(tables, db, order, since, from).len() ==> exists|k: int|
                from <= k < tables.len() && (#[trigger] tables[k]).name == (#[trigger] told_from(
                    tables,
                    db,
                    order,
                    since,
                    from,
                )[i]).table_name,
    decreases tables.len() - from,
{
    if from < tables.len() {
        let name = tables[from].name;
        lemma_table_found(tables, from, 0);
        assert(table_of(tables, name) is Some);
        lemma_told_once(tables, db, order, name, since);
        lemma_all_told_once(tables, db, order, since, from + 1);
        let own = told_all(tables, db, name, listed_stamps(db, order, name, since));
        let rest = told_from(tables, db, order, since, from + 1);
        let all = told_from(tables, db, order, since, from);
        assert(all == own + rest);
        assert forall|i: int| 0 <= i < all.len() implies exists|k: int|
            from <= k < tables.len() && (#[trigger] tables[k]).name == (
            #[trigger] all[i]).table_name by {
            if i < own.len() {
                assert(all[i] == own[i]);
                assert(tables[from].name == all[i].table_name);
            } else {
                assert(all[i] == rest[i - own.len()]);
                let k = choose|k: int|
                    from + 1 <= k < tables.len() && (#[trigger] tables[k]).name == rest[i
                        - own.len()].table_name;
                assert(tables[k].name == all[i].table_name);
            }
        }
        assert forall|i: int, j: int|
            0 <= i < all.len() && 0 <= j < all.len() && i != j implies all[i] != all[j] by {
            let (low, high) = if i < j {
                (i, j)
            } else {
                (j, i)
            };
            if high < own.len() {
                assert(all[low] == own[low] && all[high] == own[high]);
            } else if low >= own.len() {
                assert(all[low] == rest[low - own.len()]);
                assert(all[high] == rest[high - own.len()]);
            } else {
                assert(all[low] == own[low]);
                assert(all[high] == rest[high - own.len()]);
                let k = choose|k: int|
                    from + 1 <= k < tables.len() && (#[trigger] tables[k]).name == rest[high
                        - own.len()].table_name;
                assert(tables[from].name != tables[k].name);
            }
        }
    }
}

/// What a replica tells from a version on is above it, and not above the replica's own version:
/// from
/// that version on it tells nothing.
pub proof fn law_nothing_is_told_above_the_version(
    tables: Seq<TableView>,
    db: Database,
    order: Order,
    since: i64,
)
    requires
        sound(db, tables),
        forall|name: Seq<char>| #[trigger]
            table_of(tables, name) is Some ==> lists_news(db, order, name, since),
    ensures
        forall|i: int|
            0 <= i < outgoing(tables, db, order, since).len() ==> since < (#[trigger] outgoing(
                tables,
                db,
                order,
                since,
            )[i]).db_ver && (dated(db) ==> outgoing(tables, db, order, since)[i].db_ver
                <= version_of(db)),
        dated(db) && version_of(db) <= since ==> outgoing(tables, db, order, since).len() == 0,
{
    let out = outgoing(tables, db, order, since);
    law_changes_since_tells_news(tables, db, order, since);
    assert forall|i: int| 0 <= i < out.len() implies since < (#[trigger] out[i]).db_ver && (dated(
        db,
    ) ==> out[i].db_ver <= version_of(db)) by {
        assert(out.contains(out[i]));
        assert(tells_news(tables, db, since, out[i]));
    }
    if dated(db) && version_of(db) <= since && out.len() > 0 {
        assert(since < out[0].db_ver && out[0].db_ver <= version_of(db));
    }
}

/// A replica whose tables have different names tells each clock entry once.
pub proof fn law_changes_are_told_once(
    tables: Seq<TableView>,
    db: Database,
    order: Order,
    since: i64,
)
    requires
        sound(db, tables),
        distinct_names(tables),
        forall|name: Seq<char>| #[trigger]
            table_of(tables, name) is Some ==> lists_news(db, order, name, since),
    ensures
        outgoing(tables, db, order, since).no_duplicates(),
{
    lemma_outgoing(tables, db, order, since);
    lemma_all_told_once(tables, db, order, since, 0);
}

/// What a table tells of a clock entry.
spec fn tells_of(
    tables: Seq<TableView>,
    db: Database,
    table: Seq<char>,
    since: i64,
    x: ChangeView,
) -> bool {
    &&& x.table_name == table
    &&& is_news(db, table, x.pk, x.col_name, since)
    &&& x == told(tables, db, table, stamp_at(db, table, x.pk, x.col_name))
}

proof fn lemma_table_tells(
    tables: Seq<TableView>,
    db: Database,
    order: Order,
    table: Seq<char>,
    since: i64,
)
    requires
        lists_news(db, order, table, since),
    ensures
        forall|x: ChangeView| #[trigger]
            told_all(tables, db, table, listed_stamps(db, order, table, since)).contains(x)
                <==> tells_of(tables, db, table, since, x),
{
    let rows = order(db, StatementView::SelectChanges { table, since });
    let stamps = listed_stamps(db, order, table, since);
    let own = told_all(tables, db, table, stamps);
    assert forall|x: ChangeView| #[trigger] own.contains(x) <==> tells_of(
        tables,
        db,
        table,
        since,
        x,
    ) by {
        if own.contains(x) {
            let i = choose|i: int| 0 <= i < own.len() && own[i] == x;
            let (p, c) = choose|p: Seq<char>, c: Seq<char>| #[trigger]
                is_news(db, table, p, c, since) && rows[i] == entry_row(
                    p,
                    c,
                    db.clocks[(table, p, c)],
                );
            assert(stamps[i] == stamp_at(db, table, p, c));
        }
        if tells_of(tables, db, table, since, x) {
            let row = entry_row(x.pk, x.col_name, db.clocks[(table, x.pk, x.col_name)]);
            assert(rows.contains(row));
            let k = choose|k: int| 0 <= k < rows.len() && rows[k] == row;
            assert(stamps[k] == stamp_at(db, table, x.pk, x.col_name));
            assert(own[k] == x);
        }
    }
}

/// What a table tells from a later version on is the rest of what it tells from an earlier one on.
proof fn lemma_table_rest(
    tables: Seq<TableView>,
    db: Database,
    order: Order,
    table: Seq<char>,
    since: i64,
    later: i64,
)
    requires
        since <= later,
        lists_news(db, order, table, since),
        lists_news(db, order, table, later),
    ensures
        told_all(
            tables,
            db,
            table,
            listed_stamps(db, order, table, later),
        ).to_multiset() == told_all(
            tables,
            db,
            table,
            listed_stamps(db, order, table, since),
        ).to_multiset().filter(|x: ChangeView| x.db_ver > later),
{
    broadcast use vstd::multiset::group_multiset_axioms;

    let early = told_all(tables, db, table, listed_stamps(db, order, table, since));
    let late = told_all(tables, db, table, listed_stamps(db, order, table, later));
    lemma_told_once(tables, db, order, table, since);
    lemma_told_once(tables, db, order, table, later);
    lemma_table_tells(tables, db, order, table, since);
    lemma_table_tells(tables, db, order, table, later);
    early.lemma_multiset_has_no_duplicates();
    late.lemma_multiset_has_no_duplicates();
    let part = early.to_multiset().filter(|x: ChangeView| x.db_ver > later);
    assert forall|x: ChangeView| late.to_multiset().count(x) == part.count(x) by {
        vstd::seq_lib::to_multiset_contains(early, x);
        vstd::seq_lib::to_multiset_contains(late, x);
        assert(late.contains(x) <==> tells_of(tables, db, table, later, x));
        assert(early.contains(x) <==> tells_of(tables, db, table, since, x));
        if late.contains(x) {
            assert(late.to_multiset().contains(x));
        }
        if early.contains(x) {
            assert(early.to_multiset().contains(x));
        }
    }
    assert(late.to_multiset() =~= part);
}

proof fn lemma_rest(
    tables: Seq<TableView>,
    db: Database,
    order: Order,
    since: i64,
    later: i64,
    from: int,
)
    requires
        0 <= from <= tables.len(),
        since <= later,
        forall|name: Seq<char>| #[trigger]
            table_of(tables, name) is Some ==> lists_news(db, order, name, since) && lists_news(
                db,
                order,
                name,
                later,
            ),
    ensures
        told_from(tables, db, order, later, from).to_multiset() == told_from(
            tables,
            db,
            order,
            since,
            from,
        ).to_multiset().filter(|x: ChangeView| x.db_ver > later),
    decreases tables.len() - from,
{
    broadcast use vstd::multiset::group_multiset_axioms;

    let above = |x: ChangeView| x.db_ver > later;
    if from < tables.len() {
        let name = tables[from].name;
        lemma_table_found(tables, from, 0);
        assert(table_of(tables, name) is Some);
        lemma_table_rest(tables, db, order, name, since, later);
        lemma_rest(tables, db, order, since, later, from + 1);
        let early = told_all(tables, db, name, listed_stamps(db, order, name, since));
        let late = told_all(tables, db, name, listed_stamps(db, order, name, later));
        let early_rest = told_from(tables, db, order, since, from + 1);
        let late_rest = told_from(tables, db, order, later, from + 1);
        vstd::seq_lib::lemma_multiset_commutative(early, early_rest);
        vstd::seq_lib::lemma_multiset_commutative(late, late_rest);
        assert(early.to_multiset().add(early_rest.to_multiset()).filter(above)
            =~= early.to_multiset().filter(above).add(early_rest.to_multiset().filter(above)));
    } else {
        let none = Seq::<ChangeView>::empty();
        assert(none.to_multiset() =~= none.to_multiset().filter(above)) by {
            assert forall|x: ChangeView| none.to_multiset().count(x) == none.to_multiset().filter(
                above,
            ).count(x) by {
                vstd::seq_lib::to_multiset_contains(none, x);
            }
        }
    }
}

/// What a replica tells from a version on is, of what it tells from an earlier version on, the part
/// above the later version: nothing is left out, and nothing is told more often.
pub proof fn law_changes_since_is_the_rest(
    tables: Seq<TableView>,
    db: Database,
    order: Order,
    since: i64,
    later: i64,
)
    requires
        sound(db, tables),
        since <= later,
        forall|name: Seq<char>| #[trigger]
            table_of(tables, name) is Some ==> lists_news(db, order, name, since) && lists_news(
                db,
                order,
                name,
                later,
            ),
    ensures
        outgoing(tables, db, order, later).to_multiset() == outgoing(
            tables,
            db,
            order,
            since,
        ).to_multiset().filter(|x: ChangeView| x.db_ver > later),
{
    lemma_outgoing(tables, db, order, since);
    lemma_outgoing(tables, db, order, later);
    lemma_rest(tables, db, order, since, later, 0);
}

/// Whether a change tells of a clock entry as it stands: with its version, its site, its number and
/// the database version of its write, the causal length of its row, and the JSON form of what the
/// row holds in the column. A sentinel has no value, nor has a row that is not there.
pub open spec fn tells_entry(tables: Seq<TableView>, db: Database, change: ChangeView) -> bool {
    let at = (change.table_name, change.pk, change.col_name);
    let shape = table_of(tables, change.table_name)->0.pk;
    let key = key_of(shape, change.pk);
    &&& table_of(tables, change.table_name) is Some
    &&& db.clocks.dom().contains(at)
    &&& change.col_ver == db.clocks[at].col_ver
    &&& change.db_ver == db.clocks[at].db_ver
    &&& change.site_id == db.clocks[at].site_id
    &&& change.seq == db.clocks[at].seq
    &&& change.cl == length_of(db, change.table_name, change.pk)
    &&& if change.col_name != SENTINEL@ && decodes(shape, change.pk) && db.rows.contains(
        (change.table_name, key),
    ) {
        change.col_val == json_of((db.cells)(change.table_name, key, change.col_name))
    } else {
        change.col_val == JsonView::Null
    }
}

/// Every change that is told tells of a clock entry above the version that was asked for, as it
/// stands; and each such entry is told.
pub proof fn law_changes_tell_entries(
    tables: Seq<TableView>,
    db: Database,
    order: Order,
    since: i64,
)
    requires
        sound(db, tables),
        forall|name: Seq<char>| #[trigger]
            table_of(tables, name) is Some ==> lists_news(db, order, name, since),
    ensures
        ({
            let out = outgoing(tables, db, order, since);
            &&& forall|i: int|
                0 <= i < out.len() ==> tells_entry(tables, db, #[trigger] out[i]) && out[i].db_ver
                    > since
            &&& forall|name: Seq<char>, pk: Seq<char>, column: Seq<char>| #[trigger]
                db.clocks.dom().contains((name, pk, column)) && table_of(tables, name) is Some
                    && db.clocks[(name, pk, column)].db_ver > since ==> exists|i: int|
                    0 <= i < out.len() && (#[trigger] out[i]).table_name == name && out[i].pk == pk
                        && out[i].col_name == column
        }),
{
    lemma_outgoing(tables, db, order, since);
    law_changes_since_tells_news(tables, db, order, since);
    let out = outgoing(tables, db, order, since);
    assert forall|i: int| 0 <= i < out.len() implies tells_entry(tables, db, #[trigger] out[i])
        && out[i].db_ver > since by {
        assert(out.contains(out[i]));
        assert(tells_news(tables, db, since, out[i]));
    }
    assert forall|name: Seq<char>, pk: Seq<char>, column: Seq<char>| #[trigger]
        db.clocks.dom().contains((name, pk, column)) && table_of(tables, name) is Some
            && db.clocks[(name, pk, column)].db_ver > since implies exists|i: int|
        0 <= i < out.len() && (#[trigger] out[i]).table_name == name && out[i].pk == pk
            && out[i].col_name == column by {
        let change = told(tables, db, name, stamp_at(db, name, pk, column));
        assert(tells_news(tables, db, since, change));
        assert(out.contains(change));
        let i = choose|i: int| 0 <= i < out.len() && out[i] == change;
        assert(out[i].table_name == name);
    }
}

/// A changeset holds the changes that are told of the database, and the identity of its schema: the
/// schema version that it is at, and the fingerprint of its tables.
pub proof fn law_changesets_carry_identity(
    tables: Seq<TableView>,
    db: Database,
    order: Order,
    since: i64,
)
    requires
        sound(db, tables),
    ensures
        ({
            let (outcome, after) = converse(changeset_script(tables, since), db, order);
            let changeset = outcome->0->Ok_0;
            &&& outcome is Some
            &&& outcome->0 is Ok
            &&& after == db
            &&& converse(changes_script(tables, since, 0, Seq::empty()), db, order) == (
                Some(Ok::<Seq<ChangeView>, ErrorView>(changeset.rows)),
                db,
            )
            &&& converse(schema_version_script(), db, order) == (
                Some(changeset.schema_version),
                db,
            )
            &&& changeset.schema_version == stored_version(db)
            &&& changeset.fingerprint == fingerprint_of(tables)
        }),
{
    lemma_outgoing(tables, db, order, since);
}

} // verus!
