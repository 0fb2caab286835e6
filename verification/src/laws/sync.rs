//! What replicas tell each other, and what comes of it.
use vstd::prelude::*;

use crate::ChangeView;
use crate::alive;
use crate::database::Clock;
use crate::database::Database;
use crate::database::Order;
use crate::database::converse;
use crate::database::group_converse;
use crate::helpers::decodes;
use crate::helpers::key_of;
use crate::helpers::read_script;
use crate::json::JsonView;
use crate::json::json_of;
use crate::json::storable;
use crate::json::stored_form;
use crate::json::value_of;
use crate::laws::convergence::Written;
use crate::laws::convergence::brought;
use crate::laws::convergence::candidate;
use crate::laws::convergence::is_sentinel;
use crate::laws::convergence::law_conflicts_resolve;
use crate::laws::convergence::law_row_meets_what_it_is_told;
use crate::laws::convergence::lemma_meet_unique;
use crate::laws::convergence::meet;
use crate::laws::convergence::outranks;
use crate::laws::convergence::tells;
use crate::laws::convergence::writes;
use crate::laws::replica::law_apply_replays;
use crate::laws::replica::lemma_col_ver;
use crate::laws::replica::lemma_of_row_members;
use crate::laws::replica::lemma_row_kept;
use crate::laws::replica::lemma_table_of;
use crate::laws::replica::length_of;
use crate::laws::replica::of_row;
use crate::laws::replica::row_kept;
use crate::laws::replica::row_of;
use crate::laws::replica::same_rows;
use crate::laws::replica::sendable;
use crate::laws::replica::sound;
use crate::laws::replica::table_kept;
use crate::laws::replica::was_written;
use crate::laws::replica::written;
use crate::merge::apply_script;
use crate::schema::SENTINEL;
use crate::schema::TableView;
use crate::schema::table_from;
use crate::schema::table_of;
use crate::schema::tracks;
use crate::statement::StampView;
use crate::statement::StatementView;
use crate::tracking::change_of;
use crate::tracking::change_script;
use crate::tracking::changes_script;
use crate::tracking::listed_stamp;
use crate::tracking::table_changes_script;
use crate::value::ErrorView;
use crate::value::SqlValue;

verus! {

broadcast use {group_converse, lemma_table_of};

/// Whether a clock entry is above a database version.
pub open spec fn is_news(
    db: Database,
    table: Seq<char>,
    pk: Seq<char>,
    column: Seq<char>,
    since: i64,
) -> bool {
    db.clocks.dom().contains((table, pk, column)) && db.clocks[(table, pk, column)].db_ver > since
}

/// How a clock entry is listed.
pub open spec fn entry_row(pk: Seq<char>, column: Seq<char>, clock: Clock) -> Seq<SqlValue> {
    seq![
        SqlValue::Text(pk),
        SqlValue::Text(column),
        SqlValue::Integer(clock.col_ver),
        SqlValue::Integer(clock.db_ver),
        SqlValue::Blob(clock.site_id),
        SqlValue::Integer(clock.seq),
    ]
}

/// Whether a row is a clock entry above a version.
pub open spec fn is_news_row(
    db: Database,
    table: Seq<char>,
    since: i64,
    row: Seq<SqlValue>,
) -> bool {
    exists|pk: Seq<char>, column: Seq<char>| #[trigger]
        is_news(db, table, pk, column, since) && row == entry_row(
            pk,
            column,
            db.clocks[(table, pk, column)],
        )
}

/// Whether the rows that a database lists as changes are the clock entries above a version, each
/// once, in whatever order.
pub open spec fn lists_news(db: Database, order: Order, table: Seq<char>, since: i64) -> bool {
    let rows = order(db, StatementView::SelectChanges { table, since });
    &&& rows.no_duplicates()
    &&& forall|pk: Seq<char>, column: Seq<char>| #[trigger]
        is_news(db, table, pk, column, since) ==> rows.contains(
            entry_row(pk, column, db.clocks[(table, pk, column)]),
        )
    &&& forall|i: int| 0 <= i < rows.len() ==> is_news_row(db, table, since, #[trigger] rows[i])
}

/// What a row of a database holds in a column, as it is told to others.
pub open spec fn told_value(
    tables: Seq<TableView>,
    db: Database,
    table: Seq<char>,
    pk: Seq<char>,
    column: Seq<char>,
) -> JsonView {
    let key = key_of(table_of(tables, table)->0.pk, pk);
    if column != SENTINEL@ && decodes(table_of(tables, table)->0.pk, pk) && db.rows.contains((table, key)) {
        json_of((db.cells)(table, key, column))
    } else {
        JsonView::Null
    }
}

/// The change that a database tells of a clock entry.
pub open spec fn told(
    tables: Seq<TableView>,
    db: Database,
    table: Seq<char>,
    stamp: StampView,
) -> ChangeView {
    change_of(
        table,
        stamp,
        length_of(db, table, stamp.pk),
        told_value(tables, db, table, stamp.pk, stamp.column),
    )
}

/// A clock entry as a stamp.
pub open spec fn stamp_at(
    db: Database,
    table: Seq<char>,
    pk: Seq<char>,
    column: Seq<char>,
) -> StampView {
    let clock = db.clocks[(table, pk, column)];
    StampView {
        pk,
        column,
        col_ver: clock.col_ver,
        db_ver: clock.db_ver,
        site_id: clock.site_id,
        seq: clock.seq,
    }
}

proof fn lemma_change(
    tables: Seq<TableView>,
    db: Database,
    order: Order,
    table: TableView,
    stamp: StampView,
)
    requires
        table_of(tables, table.name) == Some(table),
        table_kept(db, table),
    ensures
        converse(change_script(tables, table.name, stamp), db, order) == (
            Some(told(tables, db, table.name, stamp)),
            db,
        ),
{
    lemma_col_ver(db, order, table.name, stamp.pk, SENTINEL@);
    let key = key_of(table.pk, stamp.pk);
    if stamp.column != SENTINEL@ {
        assert(converse(read_script(tables, table.name, stamp.pk, stamp.column), db, order) == (
            Some(told_value(tables, db, table.name, stamp.pk, stamp.column)),
            db,
        )) by {
            if db.rows.contains((table.name, key)) {
                assert(crate::json::has_json((db.cells)(table.name, key, stamp.column)));
            }
        }
    }
}

/// The changes that a database tells of clock entries.
pub open spec fn told_all(
    tables: Seq<TableView>,
    db: Database,
    table: Seq<char>,
    stamps: Seq<StampView>,
) -> Seq<ChangeView> {
    stamps.map_values(|stamp: StampView| told(tables, db, table, stamp))
}

proof fn lemma_table_changes(
    tables: Seq<TableView>,
    db: Database,
    order: Order,
    table: TableView,
    stamps: Seq<StampView>,
    from: int,
    sofar: Seq<ChangeView>,
)
    requires
        table_of(tables, table.name) == Some(table),
        table_kept(db, table),
        0 <= from <= stamps.len(),
    ensures
        converse(table_changes_script(tables, table.name, stamps, from, sofar), db, order) == (
            Some(sofar + told_all(tables, db, table.name, stamps.skip(from))),
            db,
        ),
    decreases stamps.len() - from,
{
    if from < stamps.len() {
        lemma_change(tables, db, order, table, stamps[from]);
        let change = told(tables, db, table.name, stamps[from]);
        lemma_table_changes(tables, db, order, table, stamps, from + 1, sofar.push(change));
        assert(sofar.push(change) + told_all(tables, db, table.name, stamps.skip(from + 1))
            =~= sofar + told_all(tables, db, table.name, stamps.skip(from)));
    } else {
        assert(sofar + told_all(tables, db, table.name, stamps.skip(from)) =~= sofar);
    }
}

/// The clock entries of a table above a version, in the order in which they are listed.
pub open spec fn listed_stamps(db: Database, order: Order, table: Seq<char>, since: i64) -> Seq<
    StampView,
> {
    order(db, StatementView::SelectChanges { table, since }).map_values(
        |row: Seq<SqlValue>| listed_stamp(row),
    )
}

/// The changes that a database tells of all tables from the one at `from` on.
pub open spec fn told_from(
    tables: Seq<TableView>,
    db: Database,
    order: Order,
    since: i64,
    from: int,
) -> Seq<ChangeView>
    decreases tables.len() - from,
{
    if 0 <= from < tables.len() {
        told_all(
            tables,
            db,
            tables[from].name,
            listed_stamps(db, order, tables[from].name, since),
        ) + told_from(tables, db, order, since, from + 1)
    } else {
        Seq::empty()
    }
}

pub proof fn lemma_table_found(tables: Seq<TableView>, i: int, from: int)
    requires
        0 <= from <= i < tables.len(),
    ensures
        table_from(tables, tables[i].name, from) is Some,
    decreases i - from,
{
    if tables[from].name != tables[i].name {
        lemma_table_found(tables, i, from + 1);
    }
}

proof fn lemma_changes(
    tables: Seq<TableView>,
    db: Database,
    order: Order,
    since: i64,
    from: int,
    sofar: Seq<ChangeView>,
)
    requires
        sound(db, tables),
        0 <= from <= tables.len(),
    ensures
        converse(changes_script(tables, since, from, sofar), db, order) == (
            Some(
                Ok::<Seq<ChangeView>, ErrorView>(
                    sofar + told_from(tables, db, order, since, from),
                ),
            ),
            db,
        ),
    decreases tables.len() - from,
{
    if from < tables.len() {
        let name = tables[from].name;
        lemma_table_found(tables, from, 0);
        let table = table_of(tables, name)->0;
        assert(table_kept(db, table));
        let stamps = listed_stamps(db, order, name, since);
        lemma_table_changes(tables, db, order, table, stamps, 0, sofar);
        assert(stamps.skip(0) =~= stamps);
        let more = sofar + told_all(tables, db, name, stamps);
        lemma_changes(tables, db, order, since, from + 1, more);
        assert(more + told_from(tables, db, order, since, from + 1) =~= sofar + told_from(
            tables,
            db,
            order,
            since,
            from,
        ));
    } else {
        assert(sofar + told_from(tables, db, order, since, from) =~= sofar);
    }
}

/// Whether a change tells of a clock entry above a version, of a table that is known.
pub open spec fn tells_news(
    tables: Seq<TableView>,
    db: Database,
    since: i64,
    change: ChangeView,
) -> bool {
    &&& table_of(tables, change.table_name) is Some
    &&& is_news(db, change.table_name, change.pk, change.col_name, since)
    &&& change == told(
        tables,
        db,
        change.table_name,
        stamp_at(db, change.table_name, change.pk, change.col_name),
    )
}

proof fn lemma_told_members(
    tables: Seq<TableView>,
    db: Database,
    order: Order,
    since: i64,
    from: int,
)
    requires
        0 <= from <= tables.len(),
        forall|name: Seq<char>| #[trigger]
            table_of(tables, name) is Some ==> lists_news(db, order, name, since),
    ensures
        forall|x: ChangeView| #[trigger]
            told_from(tables, db, order, since, from).contains(x) ==> tells_news(
                tables,
                db,
                since,
                x,
            ),
        forall|x: ChangeView, i: int|
            #![trigger told_from(tables, db, order, since, from).contains(x), tables[i]]
            from <= i < tables.len() && x.table_name == tables[i].name && tells_news(
                tables,
                db,
                since,
                x,
            ) ==> told_from(tables, db, order, since, from).contains(x),
    decreases tables.len() - from,
{
    if from < tables.len() {
        lemma_told_members(tables, db, order, since, from + 1);
        let name = tables[from].name;
        lemma_table_found(tables, from, 0);
        assert(table_of(tables, name) is Some);
        assert(lists_news(db, order, name, since));
        let rows = order(db, StatementView::SelectChanges { table: name, since });
        let stamps = listed_stamps(db, order, name, since);
        let own = told_all(tables, db, name, stamps);
        let rest = told_from(tables, db, order, since, from + 1);
        let all = told_from(tables, db, order, since, from);
        assert(all == own + rest);
        assert forall|x: ChangeView| #[trigger] all.contains(x) implies tells_news(
            tables,
            db,
            since,
            x,
        ) by {
            let i = choose|i: int| 0 <= i < all.len() && all[i] == x;
            if i < own.len() {
                let (pk, column) = choose|pk: Seq<char>, column: Seq<char>| #[trigger]
                    is_news(db, name, pk, column, since) && rows[i] == entry_row(
                        pk,
                        column,
                        db.clocks[(name, pk, column)],
                    );
                assert(stamps[i] == stamp_at(db, name, pk, column));
            } else {
                assert(rest[i - own.len()] == x);
                assert(rest.contains(x));
            }
        }
        assert forall|x: ChangeView, i: int|
            #![trigger told_from(tables, db, order, since, from).contains(x), tables[i]]
            from <= i < tables.len() && x.table_name == tables[i].name && tells_news(
                tables,
                db,
                since,
                x,
            ) implies all.contains(x) by {
            if i == from {
                let row = entry_row(x.pk, x.col_name, db.clocks[(name, x.pk, x.col_name)]);
                assert(rows.contains(row));
                let k = choose|k: int| 0 <= k < rows.len() && rows[k] == row;
                assert(stamps[k] == stamp_at(db, name, x.pk, x.col_name));
                assert(own[k] == x);
                assert(all[k] == x);
            } else {
                assert(rest.contains(x) == told_from(
                    tables,
                    db,
                    order,
                    since,
                    from + 1,
                ).contains(x));
                assert(rest.contains(x));
                let k = choose|k: int| 0 <= k < rest.len() && rest[k] == x;
                assert(all[own.len() + k] == x);
            }
        }
    }
}

proof fn lemma_table_index(tables: Seq<TableView>, name: Seq<char>, from: int) -> (i: int)
    requires
        0 <= from,
        table_from(tables, name, from) is Some,
    ensures
        from <= i < tables.len(),
        tables[i].name == name,
    decreases tables.len() - from,
{
    if tables[from].name == name {
        from
    } else {
        lemma_table_index(tables, name, from + 1)
    }
}

/// Reading changes does not change the database, and gives exactly the changes that tell of the
/// clock entries above the given version.
pub proof fn law_changes_since_tells_news(
    tables: Seq<TableView>,
    db: Database,
    order: Order,
    since: i64,
)
    requires
        sound(db, tables),
        forall|name: Seq<char>| #[trigger]
            table_of(tables, name) is Some ==> lists_news(db, order, name, since),
    ensures
        ({
            let (outcome, after) = converse(
                changes_script(tables, since, 0, Seq::empty()),
                db,
                order,
            );
            &&& after == db
            &&& outcome is Some
            &&& outcome->0 is Ok
            &&& forall|x: ChangeView| #[trigger]
                outcome->0->Ok_0.contains(x) <==> tells_news(tables, db, since, x)
        }),
{
    lemma_changes(tables, db, order, since, 0, Seq::empty());
    let all = told_from(tables, db, order, since, 0);
    assert(Seq::<ChangeView>::empty() + all =~= all);
    lemma_told_members(tables, db, order, since, 0);
    assert forall|x: ChangeView| #[trigger] all.contains(x) <==> tells_news(
        tables,
        db,
        since,
        x,
    ) by {
        if tells_news(tables, db, since, x) {
            let i = lemma_table_index(tables, x.table_name, 0);
            assert(told_from(tables, db, order, since, 0).contains(x) || tables[i].name
                == x.table_name);
        }
    }
}

/// Whether all clock entries of a database are above a version, of key texts that have a value for
/// each key column and of columns that are known.
pub open spec fn tidy(tables: Seq<TableView>, db: Database, since: i64) -> bool {
    forall|name: Seq<char>, pk: Seq<char>, column: Seq<char>|
        table_of(tables, name) is Some && #[trigger] db.clocks.dom().contains((name, pk, column))
            ==> {
            &&& db.clocks[(name, pk, column)].db_ver > since
            &&& decodes(table_of(tables, name)->0.pk, pk)
            &&& tracks(tables, name, column)
        }
}

/// A value that comes through a column unchanged still does once it is told and stored.
pub proof fn lemma_storable_told(value: SqlValue)
    requires
        storable(value),
    ensures
        storable(value_of(json_of(value))),
        stored_form(json_of(value)).text() == json_of(value).text(),
{
}

/// The changes that a database tells of a row are those that [`tells`] asks for.
proof fn lemma_row_told(
    tables: Seq<TableView>,
    db: Database,
    since: i64,
    changes: Seq<ChangeView>,
    name: Seq<char>,
    pk: Seq<char>,
)
    requires
        sound(db, tables),
        tidy(tables, db, since),
        table_of(tables, name) is Some,
        decodes(table_of(tables, name)->0.pk, pk),
        forall|x: ChangeView| #[trigger] changes.contains(x) <==> tells_news(tables, db, since, x),
    ensures
        tells(
            of_row(tables, changes, name, pk).to_set(),
            row_of(db, table_of(tables, name)->0, pk),
        ),
{
    let table = table_of(tables, name)->0;
    let row = row_of(db, table, pk);
    let own = of_row(tables, changes, name, pk);
    let set = own.to_set();
    let key = key_of(table.pk, pk);
    lemma_of_row_members(tables, changes, name, pk);
    assert(table_kept(db, table));
    assert(row_kept(db, table, pk));
    assert forall|x: ChangeView| #[trigger] set.contains(x) implies {
        &&& x.cl == row.cl
        &&& tells_news(tables, db, since, x)
        &&& x.table_name == name
        &&& x.pk == pk
    } by {
        assert(own.contains(x));
        assert(changes.contains(x));
        assert(db.clocks.dom().contains((name, pk, x.col_name)));
    }
    assert forall|column: Seq<char>| #[trigger]
        db.clocks.dom().contains((name, pk, column)) implies set.contains(
        told(tables, db, name, stamp_at(db, name, pk, column)),
    ) by {
        let x = told(tables, db, name, stamp_at(db, name, pk, column));
        assert(tells_news(tables, db, since, x));
        assert(changes.contains(x));
        assert(own.contains(x));
    }
    if row.cl > 0 {
        assert(db.clocks.dom().contains((name, pk, SENTINEL@)));
        let x = told(tables, db, name, stamp_at(db, name, pk, SENTINEL@));
        assert(set.contains(x) && is_sentinel(x));
    }
    if alive(row.cl) {
        assert forall|c: Seq<char>, w: Written| #[trigger]
            candidate(Map::empty(), set, row.cl, c, w) <==> row.cells.dom().contains(c) && row.cells[c]
            == w by {
            assert(!Map::<Seq<char>, Written>::empty().dom().contains(c));
            lemma_storable_told((db.cells)(name, key, c));
            if candidate(Map::empty(), set, row.cl, c, w) {
                let x = choose|x: ChangeView| #[trigger]
                    set.contains(x) && writes(x, row.cl, c, w);
                assert(was_written(db, table, pk, c));
                assert(brought(x) == written(db, table, pk, c));
            }
            if row.cells.dom().contains(c) && row.cells[c] == w {
                let x = told(tables, db, name, stamp_at(db, name, pk, c));
                assert(db.clocks.dom().contains((name, pk, c)));
                assert(set.contains(x) && writes(x, row.cl, c, w));
            }
        }
    }
}

proof fn lemma_told_sendable(
    tables: Seq<TableView>,
    db: Database,
    since: i64,
    changes: Seq<ChangeView>,
)
    requires
        sound(db, tables),
        tidy(tables, db, since),
        forall|x: ChangeView| #[trigger] changes.contains(x) <==> tells_news(tables, db, since, x),
    ensures
        forall|i: int| 0 <= i < changes.len() ==> sendable(tables, #[trigger] changes[i]),
{
    assert forall|i: int| 0 <= i < changes.len() implies sendable(
        tables,
        #[trigger] changes[i],
    ) by {
        let x = changes[i];
        assert(changes.contains(x));
        assert(tells_news(tables, db, since, x));
        let table = table_of(tables, x.table_name)->0;
        assert(db.clocks.dom().contains((x.table_name, x.pk, x.col_name)));
        assert(table_kept(db, table));
        assert(row_kept(db, table, x.pk));
        let key = key_of(table.pk, x.pk);
        lemma_storable_told((db.cells)(x.table_name, key, x.col_name));
    }
}

/// What a replica tells another one from a version on.
pub open spec fn outgoing(tables: Seq<TableView>, db: Database, order: Order, since: i64) -> Seq<
    ChangeView,
> {
    converse(changes_script(tables, since, 0, Seq::empty()), db, order).0->0->Ok_0
}

pub proof fn lemma_outgoing(tables: Seq<TableView>, db: Database, order: Order, since: i64)
    requires
        sound(db, tables),
    ensures
        outgoing(tables, db, order, since) == told_from(tables, db, order, since, 0),
        converse(changes_script(tables, since, 0, Seq::empty()), db, order) == (
            Some(Ok::<Seq<ChangeView>, ErrorView>(outgoing(tables, db, order, since))),
            db,
        ),
{
    lemma_changes(tables, db, order, since, 0, Seq::empty());
    assert(Seq::<ChangeView>::empty() + told_from(tables, db, order, since, 0) =~= told_from(
        tables,
        db,
        order,
        since,
        0,
    ));
}

/// What becomes of a replica that applies changes.
pub open spec fn incoming(
    tables: Seq<TableView>,
    db: Database,
    order: Order,
    changes: Seq<ChangeView>,
    now: Seq<char>,
) -> Database {
    converse(apply_script(tables, changes, now), db, order).1
}

/// Every row of `after` is what the rows of `a` and `b` come to together.
pub open spec fn rows_meet(
    tables: Seq<TableView>,
    a: Database,
    b: Database,
    after: Database,
) -> bool {
    forall|name: Seq<char>, pk: Seq<char>|
        #![trigger row_of(after, table_of(tables, name)->0, pk)]
        table_of(tables, name) is Some && decodes(table_of(tables, name)->0.pk, pk) ==> meet(
            row_of(a, table_of(tables, name)->0, pk),
            row_of(b, table_of(tables, name)->0, pk),
            row_of(after, table_of(tables, name)->0, pk),
        )
}

/// A replica that applies all changes of another one is sound, and each of its rows becomes what
/// the rows of both come to together.
pub proof fn law_sync_joins_rows(
    tables: Seq<TableView>,
    a: Database,
    b: Database,
    order: Order,
    since: i64,
    now: Seq<char>,
)
    requires
        sound(a, tables),
        sound(b, tables),
        tidy(tables, b, since),
        forall|name: Seq<char>| #[trigger]
            table_of(tables, name) is Some ==> lists_news(b, order, name, since),
    ensures
        ({
            let after = incoming(tables, a, order, outgoing(tables, b, order, since), now);
            sound(after, tables) && rows_meet(tables, a, b, after)
        }),
{
    law_changes_since_tells_news(tables, b, order, since);
    let from_b = outgoing(tables, b, order, since);
    lemma_told_sendable(tables, b, since, from_b);
    law_apply_replays(tables, a, order, from_b, now);
    let after = incoming(tables, a, order, from_b, now);
    assert forall|name: Seq<char>, pk: Seq<char>|
        #![trigger row_of(after, table_of(tables, name)->0, pk)]
        table_of(tables, name) is Some && decodes(table_of(tables, name)->0.pk, pk) implies meet(
        row_of(a, table_of(tables, name)->0, pk),
        row_of(b, table_of(tables, name)->0, pk),
        row_of(after, table_of(tables, name)->0, pk),
    ) by {
        let table = table_of(tables, name)->0;
        assert(table_kept(a, table));
        assert(table_kept(b, table));
        lemma_row_kept(a, table, pk);
        lemma_row_kept(b, table, pk);
        lemma_row_told(tables, b, since, from_b, name, pk);
        let row_a = row_of(a, table, pk);
        let row_b = row_of(b, table, pk);
        assert(row_a.cl == length_of(a, name, pk));
        assert(row_b.cl == length_of(b, name, pk));
        law_row_meets_what_it_is_told(row_a, row_b, of_row(tables, from_b, name, pk));
    }
}

/// Two replicas that tell each other all their changes come to hold the same rows.
pub proof fn law_sync_converges(
    tables: Seq<TableView>,
    a: Database,
    b: Database,
    order: Order,
    since: i64,
    now_a: Seq<char>,
    now_b: Seq<char>,
)
    requires
        sound(a, tables),
        sound(b, tables),
        tidy(tables, a, since),
        tidy(tables, b, since),
        forall|name: Seq<char>| #[trigger]
            table_of(tables, name) is Some ==> lists_news(a, order, name, since) && lists_news(
                b,
                order,
                name,
                since,
            ),
    ensures
        same_rows(
            tables,
            incoming(tables, a, order, outgoing(tables, b, order, since), now_a),
            incoming(tables, b, order, outgoing(tables, a, order, since), now_b),
        ),
{
    law_sync_joins_rows(tables, a, b, order, since, now_a);
    law_sync_joins_rows(tables, b, a, order, since, now_b);
    let after_a = incoming(tables, a, order, outgoing(tables, b, order, since), now_a);
    let after_b = incoming(tables, b, order, outgoing(tables, a, order, since), now_b);
    assert forall|name: Seq<char>, pk: Seq<char>|
        table_of(tables, name) is Some && decodes(
            table_of(tables, name)->0.pk,
            pk,
        ) implies #[trigger] row_of(after_a, table_of(tables, name)->0, pk) == row_of(
        after_b,
        table_of(tables, name)->0,
        pk,
    ) by {
        let table = table_of(tables, name)->0;
        assert(table_kept(a, table));
        assert(table_kept(b, table));
        lemma_row_kept(a, table, pk);
        lemma_row_kept(b, table, pk);
        assert(meet(
            row_of(b, table, pk),
            row_of(a, table, pk),
            row_of(after_b, table_of(tables, name)->0, pk),
        ));
        lemma_meet_unique(
            row_of(a, table, pk),
            row_of(b, table, pk),
            row_of(after_a, table, pk),
            row_of(after_b, table, pk),
        );
    }
}

/// A replica that has tracked nothing yet comes to hold the rows of the one whose changes it
/// applies.
pub proof fn law_fresh_replica_catches_up(
    tables: Seq<TableView>,
    a: Database,
    fresh: Database,
    order: Order,
    since: i64,
    now: Seq<char>,
)
    requires
        sound(a, tables),
        sound(fresh, tables),
        tidy(tables, a, since),
        forall|name: Seq<char>| #[trigger]
            table_of(tables, name) is Some ==> lists_news(a, order, name, since),
        forall|name: Seq<char>, pk: Seq<char>, column: Seq<char>|
            table_of(tables, name) is Some ==> !#[trigger] fresh.clocks.dom().contains(
                (name, pk, column),
            ),
    ensures
        same_rows(
            tables,
            a,
            incoming(tables, fresh, order, outgoing(tables, a, order, since), now),
        ),
{
    assert forall|name: Seq<char>, pk: Seq<char>|
        table_of(tables, name) is Some implies #[trigger] length_of(fresh, name, pk) == 0 by {
        assert(!fresh.clocks.dom().contains((name, pk, SENTINEL@)));
    }
    law_sync_joins_rows(tables, fresh, a, order, since, now);
    let after = incoming(tables, fresh, order, outgoing(tables, a, order, since), now);
    assert forall|name: Seq<char>, pk: Seq<char>|
        table_of(tables, name) is Some && decodes(
            table_of(tables, name)->0.pk,
            pk,
        ) implies #[trigger] row_of(a, table_of(tables, name)->0, pk) == row_of(
        after,
        table_of(tables, name)->0,
        pk,
    ) by {
        let table = table_of(tables, name)->0;
        assert(table_kept(a, table));
        assert(table_kept(fresh, table));
        lemma_row_kept(a, table, pk);
        lemma_row_kept(fresh, table, pk);
        let row_a = row_of(a, table, pk);
        let row = row_of(fresh, table, pk);
        assert(row.cl == length_of(fresh, name, pk));
        assert forall|c: Seq<char>| #[trigger] row_a.cells.dom().contains(c) implies !outranks(
            row_a.cells[c],
            row_a.cells[c],
        ) by {
            law_conflicts_resolve(row_a.cells[c], row_a.cells[c]);
        }
        assert(meet(row_a, row, row_a));
        assert(meet(row, row_a, row_of(after, table_of(tables, name)->0, pk)));
        lemma_meet_unique(row_a, row, row_a, row_of(after, table, pk));
    }
}

} // verus!
