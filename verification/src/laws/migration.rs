//! Laws of schema migrations.
use vstd::prelude::*;

use crate::alive;
use crate::database::Database;
use crate::database::Order;
use crate::database::converse;
use crate::database::group_converse;
use crate::flow::Rows;
use crate::helpers::decodes;
use crate::laws::replica::bumped;
use crate::laws::replica::lemma_next_version;
use crate::laws::replica::lemma_site;
use crate::laws::replica::length_of;
use crate::laws::replica::next_version;
use crate::laws::state::law_bump_raises_version;
use crate::laws::state::lemma_identity_keys;
use crate::laws::state::stored_version;
use crate::laws::state::with_identity;
use crate::laws::tracking::can_track;
use crate::laws::tracking::stamped;
use crate::migrate::RecodingView;
use crate::migrate::add_column_script;
use crate::migrate::backfill_script;
use crate::migrate::change_pk_script;
use crate::migrate::crosses;
use crate::migrate::crossing;
use crate::migrate::drop_column_script;
use crate::migrate::first_flaw;
use crate::migrate::flaw;
use crate::migrate::given;
use crate::migrate::is_old;
use crate::migrate::live_pks;
use crate::migrate::longer;
use crate::migrate::longest;
use crate::migrate::move_script;
use crate::migrate::recode_script;
use crate::migrate::rename_script;
use crate::migrate::settled;
use crate::migrate::spare;
use crate::migrate::stored_pks_script;
use crate::migrate::vacated;
use crate::migrate::widest;
use crate::schema::PkView;
use crate::schema::SENTINEL;
use crate::schema::TableView;
use crate::schema::fingerprint_of;
use crate::state::lemma_signed_bytes;
use crate::statement::StampView;
use crate::statement::StatementView;
use crate::statement::lemma_decimal_number;
use crate::text::debug_char;
use crate::text::debug_text;
use crate::text::decimal;
use crate::value::ErrorView;
use crate::value::SqlValue;
use crate::value::cell;

verus! {

broadcast use group_converse;

/// Whether a row is a sentinel: a key and its causal length.
pub open spec fn is_sentinel_row(db: Database, table: Seq<char>, row: Seq<SqlValue>) -> bool {
    exists|pk: Seq<char>| #[trigger]
        db.clocks.dom().contains((table, pk, SENTINEL@)) && row == seq![
            SqlValue::Text(pk),
            SqlValue::Integer(length_of(db, table, pk)),
        ]
}

/// Whether the rows that a database lists as sentinels are the sentinels of a table, in whatever
/// order.
pub open spec fn lists_sentinels(db: Database, order: Order, table: Seq<char>) -> bool {
    let rows = order(db, StatementView::SelectSentinels { table });
    &&& forall|pk: Seq<char>| #[trigger]
        db.clocks.dom().contains((table, pk, SENTINEL@)) ==> rows.contains(
            seq![SqlValue::Text(pk), SqlValue::Integer(length_of(db, table, pk))],
        )
    &&& forall|i: int| 0 <= i < rows.len() ==> is_sentinel_row(db, table, #[trigger] rows[i])
}

proof fn lemma_live_members(rows: Rows)
    ensures
        forall|pk: Seq<char>| #[trigger]
            live_pks(rows).contains(pk) <==> exists|i: int|
                #![trigger rows[i]]
                0 <= i < rows.len() && alive(cell(rows[i], 1).integer_or(0)) && cell(
                    rows[i],
                    0,
                ).text_or_empty() == pk,
    decreases rows.len(),
{
    if rows.len() > 0 {
        let rest = rows.drop_last();
        lemma_live_members(rest);
        assert forall|pk: Seq<char>| #[trigger] live_pks(rows).contains(pk) <==> exists|i: int|
            #![trigger rows[i]]
            0 <= i < rows.len() && alive(cell(rows[i], 1).integer_or(0)) && cell(
                rows[i],
                0,
            ).text_or_empty() == pk by {
            let last = rows.len() - 1;
            let shorter = live_pks(rest);
            if live_pks(rows).contains(pk) {
                let k = choose|k: int| 0 <= k < live_pks(rows).len() && live_pks(rows)[k] == pk;
                if k < shorter.len() {
                    assert(shorter[k] == pk);
                    assert(shorter.contains(pk));
                    let i = choose|i: int|
                        #![trigger rest[i]]
                        0 <= i < rest.len() && alive(cell(rest[i], 1).integer_or(0)) && cell(
                            rest[i],
                            0,
                        ).text_or_empty() == pk;
                    assert(rows[i] == rest[i]);
                } else {
                    assert(rows[last] == rows.last());
                }
            }
            if exists|i: int|
                #![trigger rows[i]]
                0 <= i < rows.len() && alive(cell(rows[i], 1).integer_or(0)) && cell(
                    rows[i],
                    0,
                ).text_or_empty() == pk {
                let i = choose|i: int|
                    #![trigger rows[i]]
                    0 <= i < rows.len() && alive(cell(rows[i], 1).integer_or(0)) && cell(
                        rows[i],
                        0,
                    ).text_or_empty() == pk;
                if i < last {
                    assert(rest[i] == rows[i]);
                    assert(shorter.contains(pk));
                    let k = choose|k: int| 0 <= k < shorter.len() && shorter[k] == pk;
                    assert(live_pks(rows)[k] == pk);
                } else {
                    assert(live_pks(rows)[live_pks(rows).len() - 1] == pk);
                }
            }
        }
    }
}

/// The living rows in a listing of sentinels are those with the causal length of a living row.
pub proof fn lemma_live_rows(db: Database, order: Order, table: Seq<char>)
    requires
        lists_sentinels(db, order, table),
    ensures
        forall|pk: Seq<char>| #[trigger]
            live_pks(order(db, StatementView::SelectSentinels { table })).contains(pk) <==> alive(
                length_of(db, table, pk),
            ),
{
    let rows = order(db, StatementView::SelectSentinels { table });
    lemma_live_members(rows);
    assert forall|pk: Seq<char>| #[trigger] live_pks(rows).contains(pk) <==> alive(
        length_of(db, table, pk),
    ) by {
        if live_pks(rows).contains(pk) {
            let i = choose|i: int|
                #![trigger rows[i]]
                0 <= i < rows.len() && alive(cell(rows[i], 1).integer_or(0)) && cell(
                    rows[i],
                    0,
                ).text_or_empty() == pk;
            let own = choose|own: Seq<char>| #[trigger]
                db.clocks.dom().contains((table, own, SENTINEL@)) && rows[i] == seq![
                    SqlValue::Text(own),
                    SqlValue::Integer(length_of(db, table, own)),
                ];
            assert(own == pk);
        }
        if alive(length_of(db, table, pk)) {
            assert(db.clocks.dom().contains((table, pk, SENTINEL@)));
            let row = seq![SqlValue::Text(pk), SqlValue::Integer(length_of(db, table, pk))];
            assert(rows.contains(row));
            let i = choose|i: int| 0 <= i < rows.len() && rows[i] == row;
            assert(alive(cell(rows[i], 1).integer_or(0)) && cell(rows[i], 0).text_or_empty()
                == pk);
        }
    }
}

/// Where in a list, from a place on, a key is found first.
pub open spec fn place_in(pks: Seq<Seq<char>>, from: int, pk: Seq<char>) -> int
    decreases pks.len() - from,
{
    if 0 <= from < pks.len() && pks[from] != pk {
        place_in(pks, from + 1, pk)
    } else {
        from
    }
}

/// The places of the keys in a list, from one on.
pub open spec fn places_from(pks: Seq<Seq<char>>, from: int) -> spec_fn(Seq<char>) -> Option<int> {
    |pk: Seq<char>|
        if pks.skip(from).contains(pk) {
            Some(place_in(pks, from, pk))
        } else {
            None
        }
}

/// The places of the living rows of a table in the order in which a database lists them.
pub open spec fn living_places(db: Database, order: Order, table: Seq<char>) -> spec_fn(
    Seq<char>,
) -> Option<int> {
    |pk: Seq<char>|
        if alive(length_of(db, table, pk)) {
            Some(place_in(live_pks(order(db, StatementView::SelectSentinels { table })), 0, pk))
        } else {
            None
        }
}

/// From `db` to `after` a clock entry that was missing, for a column of a row that has a place, has
/// been made, of version one and with that place for its number; any other entry is as it was.
pub open spec fn backfilled_at(
    db: Database,
    after: Database,
    table: Seq<char>,
    column: Seq<char>,
    places: spec_fn(Seq<char>) -> Option<int>,
    db_ver: i64,
    site: Seq<u8>,
    at: (Seq<char>, Seq<char>, Seq<char>),
) -> bool {
    if at.0 == table && at.2 == column && places(at.1) is Some && !db.clocks.dom().contains(at) {
        stamped(after, at.0, at.1, at.2, 1, db_ver, site, places(at.1)->0)
    } else {
        after.clocks.dom().contains(at) == db.clocks.dom().contains(at) && (
        db.clocks.dom().contains(at) ==> after.clocks[at] == db.clocks[at])
    }
}

/// From `db` to `after` the rows with a place that lacked a clock entry for a column have got one,
/// of
/// version one; nothing else has changed.
pub open spec fn backfilled(
    db: Database,
    after: Database,
    table: Seq<char>,
    column: Seq<char>,
    places: spec_fn(Seq<char>) -> Option<int>,
    db_ver: i64,
    site: Seq<u8>,
) -> bool {
    forall|at: (Seq<char>, Seq<char>, Seq<char>)| #[trigger]
        backfilled_at(db, after, table, column, places, db_ver, site, at)
}

proof fn lemma_backfill(
    db: Database,
    order: Order,
    table: Seq<char>,
    column: Seq<char>,
    pks: Seq<Seq<char>>,
    db_ver: i64,
    site: Seq<u8>,
    from: int,
)
    requires
        db.clock_tables.contains(table),
        0 <= from <= pks.len() <= i64::MAX,
    ensures
        ({
            let (outcome, after) = converse(
                backfill_script(table, column, pks, db_ver, site, from),
                db,
                order,
            );
            &&& outcome == Some(Ok::<(), ErrorView>(()))
            &&& after == (Database { clocks: after.clocks, ..db })
            &&& backfilled(
                db,
                after,
                table,
                column,
                places_from(pks, from),
                db_ver,
                site,
            )
        }),
    decreases pks.len() - from,
{
    let rest = pks.skip(from);
    if from < pks.len() {
        let pk = pks[from];
        let stamp = StampView {
            pk,
            column,
            col_ver: 1,
            db_ver,
            site_id: site,
            seq: from as i64,
        };
        let next = if db.clocks.dom().contains((table, pk, column)) {
            db
        } else {
            db.with_clock(table, stamp)
        };
        lemma_backfill(next, order, table, column, pks, db_ver, site, from + 1);
        let tail = pks.skip(from + 1);
        let after = converse(
            backfill_script(table, column, pks, db_ver, site, from + 1),
            next,
            order,
        ).1;
        assert forall|p: Seq<char>| #[trigger] rest.contains(p) <==> p == pk || tail.contains(
            p,
        ) by {
            if rest.contains(p) {
                let i = choose|i: int| 0 <= i < rest.len() && rest[i] == p;
                if i > 0 {
                    assert(tail[i - 1] == p);
                }
            }
            if tail.contains(p) {
                let i = choose|i: int| 0 <= i < tail.len() && tail[i] == p;
                assert(rest[i + 1] == p);
            }
            assert(rest[0] == pk);
        }
        let wanted = places_from(pks, from);
        let left = places_from(pks, from + 1);
        assert forall|at: (Seq<char>, Seq<char>, Seq<char>)| #[trigger]
            backfilled_at(db, after, table, column, wanted, db_ver, site, at) by {
            assert(backfilled_at(next, after, table, column, left, db_ver, site, at));
            assert(at == (at.0, at.1, at.2));
            assert(rest.contains(at.1) <==> at.1 == pk || tail.contains(at.1));
        }
    } else {
        assert(rest =~= Seq::empty());
    }
}

/// A database after the backfill of a column for the rows in `pks`.
spec fn filled(
    db: Database,
    order: Order,
    table: Seq<char>,
    column: Seq<char>,
    pks: Seq<Seq<char>>,
) -> Database {
    if pks.len() == 0 {
        db
    } else {
        converse(
            backfill_script(table, column, pks, next_version(db), db.site->0, 0),
            bumped(db),
            order,
        ).1
    }
}

proof fn lemma_filled(
    db: Database,
    order: Order,
    table: Seq<char>,
    column: Seq<char>,
    pks: Seq<Seq<char>>,
)
    requires
        can_track(db, table),
        pks.len() <= i64::MAX,
    ensures
        ({
            let after = filled(db, order, table, column, pks);
            &&& after == (Database { clocks: after.clocks, version: after.version, ..db })
            &&& after.version == (if pks.len() == 0 {
                db.version
            } else {
                bumped(db).version
            })
            &&& backfilled(
                db,
                after,
                table,
                column,
                places_from(pks, 0),
                next_version(db),
                db.site->0,
            )
        }),
{
    let after = filled(db, order, table, column, pks);
    let wanted = places_from(pks, 0);
    if pks.len() > 0 {
        let start = bumped(db);
        lemma_backfill(start, order, table, column, pks, next_version(db), db.site->0, 0);
        assert forall|at: (Seq<char>, Seq<char>, Seq<char>)| #[trigger]
            backfilled_at(db, after, table, column, wanted, next_version(db), db.site->0, at) by {
            assert(backfilled_at(
                start,
                after,
                table,
                column,
                wanted,
                next_version(db),
                db.site->0,
                at,
            ));
        }
    }
}

proof fn lemma_add_column(
    tables: Seq<TableView>,
    db: Database,
    order: Order,
    table: Seq<char>,
    column: Seq<char>,
)
    requires
        can_track(db, table),
        column != SENTINEL@,
        live_pks(order(db, StatementView::SelectSentinels { table })).len() <= i64::MAX,
        stored_version(db) < i64::MAX,
    ensures
        ({
            let pks = live_pks(order(db, StatementView::SelectSentinels { table }));
            converse(add_column_script(tables, table, column), db, order) == (
                Some(Ok::<(), ErrorView>(())),
                with_identity(
                    filled(db, order, table, column, pks),
                    (stored_version(db) + 1) as i64,
                    fingerprint_of(tables),
                ),
            )
        }),
{
    let pks = live_pks(order(db, StatementView::SelectSentinels { table }));
    lemma_site(db, order);
    let after = filled(db, order, table, column, pks);
    lemma_filled(db, order, table, column, pks);
    assert(stored_version(after) == stored_version(db));
    law_bump_raises_version(tables, after, order);
    if pks.len() > 0 {
        lemma_next_version(db, order);
        lemma_backfill(bumped(db), order, table, column, pks, next_version(db), db.site->0, 0);
    }
}

/// Adding a column gives every living row that lacks a clock entry for it one of version one, all
/// of one database version and by this site, numbered in the order in which the rows are listed.
/// Dead rows and all other entries stay as they are. The schema version is raised by one and the
/// fingerprint is stored. The version of the database is raised exactly if there are living rows.
pub proof fn law_add_column_backfills(
    tables: Seq<TableView>,
    db: Database,
    order: Order,
    table: Seq<char>,
    column: Seq<char>,
)
    requires
        can_track(db, table),
        column != SENTINEL@,
        lists_sentinels(db, order, table),
        live_pks(order(db, StatementView::SelectSentinels { table })).len() <= i64::MAX,
        stored_version(db) < i64::MAX,
    ensures
        ({
            let (outcome, after) = converse(add_column_script(tables, table, column), db, order);
            &&& outcome == Some(Ok::<(), ErrorView>(()))
            &&& after.state == with_identity(
                db,
                (stored_version(db) + 1) as i64,
                fingerprint_of(tables),
            ).state
            &&& after == (Database {
                clocks: after.clocks,
                version: after.version,
                state: after.state,
                ..db
            })
            &&& after.version == (if exists|pk: Seq<char>| alive(#[trigger] length_of(db, table,
                pk)) {
                bumped(db).version
            } else {
                db.version
            })
            &&& backfilled(
                db,
                after,
                table,
                column,
                living_places(db, order, table),
                next_version(db),
                db.site->0,
            )
        }),
{
    let pks = live_pks(order(db, StatementView::SelectSentinels { table }));
    lemma_add_column(tables, db, order, table, column);
    lemma_filled(db, order, table, column, pks);
    lemma_live_rows(db, order, table);
    let done = filled(db, order, table, column, pks);
    let after = converse(add_column_script(tables, table, column), db, order).1;
    let wanted = living_places(db, order, table);
    let listed = places_from(pks, 0);
    assert(pks.skip(0) =~= pks);
    if pks.len() > 0 {
        assert(pks.contains(pks[0]));
        assert(alive(length_of(db, table, pks[0])));
    } else {
        assert forall|pk: Seq<char>| !alive(#[trigger] length_of(db, table, pk)) by {
            assert(!pks.contains(pk));
        }
    }
    assert forall|at: (Seq<char>, Seq<char>, Seq<char>)| #[trigger]
        backfilled_at(db, after, table, column, wanted, next_version(db), db.site->0, at) by {
        assert(backfilled_at(
            db,
            done,
            table,
            column,
            listed,
            next_version(db),
            db.site->0,
            at,
        ));
        assert(pks.contains(at.1) <==> alive(length_of(db, table, at.1)));
    }
}

/// A second backfill has nothing left to do.
proof fn lemma_backfilled_again(
    db: Database,
    once: Database,
    twice: Database,
    order: Order,
    table: Seq<char>,
    column: Seq<char>,
    first: i64,
    second: i64,
    site: Seq<u8>,
)
    requires
        column != SENTINEL@,
        backfilled(
            db,
            once,
            table,
            column,
            living_places(db, order, table),
            first,
            site,
        ),
        backfilled(
            once,
            twice,
            table,
            column,
            living_places(once, order, table),
            second,
            site,
        ),
    ensures
        twice.clocks == once.clocks,
{
    let before = living_places(db, order, table);
    let lives = living_places(once, order, table);
    assert forall|at: (Seq<char>, Seq<char>, Seq<char>)|
        #![trigger twice.clocks.dom().contains(at)]
        #![trigger twice.clocks[at]]
        twice.clocks.dom().contains(at) == once.clocks.dom().contains(at) && (
        once.clocks.dom().contains(at) ==> twice.clocks[at] == once.clocks[at]) by {
        let sentinel = (table, at.1, SENTINEL@);
        assert(backfilled_at(db, once, table, column, before, first, site, sentinel));
        assert(length_of(once, table, at.1) == length_of(db, table, at.1));
        assert(backfilled_at(db, once, table, column, before, first, site, at));
        assert(backfilled_at(once, twice, table, column, lives, second, site, at));
        assert(at == (at.0, at.1, at.2));
    }
    assert(twice.clocks =~= once.clocks);
}

/// Adding a column again adds no clock entry and changes none.
pub proof fn law_add_column_again_keeps_clocks(
    tables: Seq<TableView>,
    db: Database,
    order: Order,
    table: Seq<char>,
    column: Seq<char>,
)
    requires
        can_track(db, table),
        column != SENTINEL@,
        stored_version(db) < i64::MAX - 1,
        lists_sentinels(db, order, table),
        live_pks(order(db, StatementView::SelectSentinels { table })).len() <= i64::MAX,
        ({
            let once = converse(add_column_script(tables, table, column), db, order).1;
            lists_sentinels(once, order, table) && live_pks(
                order(once, StatementView::SelectSentinels { table }),
            ).len() <= i64::MAX
        }),
    ensures
        ({
            let once = converse(add_column_script(tables, table, column), db, order).1;
            converse(add_column_script(tables, table, column), once, order).1.clocks
                == once.clocks
        }),
{
    law_add_column_backfills(tables, db, order, table, column);
    let once = converse(add_column_script(tables, table, column), db, order).1;
    assert(stored_version(once) == stored_version(db) + 1) by {
        lemma_identity_keys();
        lemma_signed_bytes((stored_version(db) + 1) as i64);
    }
    law_add_column_backfills(tables, once, order, table, column);
    let twice = converse(add_column_script(tables, table, column), once, order).1;
    lemma_backfilled_again(
        db,
        once,
        twice,
        order,
        table,
        column,
        next_version(db),
        next_version(once),
        db.site->0,
    );
}

/// Dropping a column removes its clock entries and no others. The schema version is raised by one
/// and the fingerprint is stored.
pub proof fn law_drop_column_removes_its_clocks(
    tables: Seq<TableView>,
    db: Database,
    order: Order,
    table: Seq<char>,
    column: Seq<char>,
)
    requires
        db.clock_tables.contains(table),
        column != SENTINEL@,
        stored_version(db) < i64::MAX,
    ensures
        ({
            let (outcome, after) = converse(drop_column_script(tables, table, column), db, order);
            &&& outcome == Some(Ok::<(), ErrorView>(()))
            &&& after == (Database {
                clocks: after.clocks,
                ..with_identity(db, (stored_version(db) + 1) as i64, fingerprint_of(tables))
            })
            &&& forall|t: Seq<char>, p: Seq<char>, c: Seq<char>| #[trigger]
                after.clocks.dom().contains((t, p, c)) <==> db.clocks.dom().contains((t, p, c))
                    && !(t == table && c == column)
            &&& forall|t: Seq<char>, p: Seq<char>, c: Seq<char>|
                after.clocks.dom().contains((t, p, c)) ==> #[trigger] after.clocks[(t, p, c)]
                    == db.clocks[(t, p, c)]
        }),
{
    let dropped = db.without(
        |at: (Seq<char>, Seq<char>, Seq<char>)| at.0 == table && at.2 == column,
    );
    assert(stored_version(dropped) == stored_version(db));
    law_bump_raises_version(tables, dropped, order);
}

/// Dropping a column again drops no clock entry and changes none.
pub proof fn law_drop_column_again_keeps_clocks(
    tables: Seq<TableView>,
    db: Database,
    order: Order,
    table: Seq<char>,
    column: Seq<char>,
)
    requires
        db.clock_tables.contains(table),
        column != SENTINEL@,
        stored_version(db) < i64::MAX - 1,
    ensures
        ({
            let once = converse(drop_column_script(tables, table, column), db, order).1;
            let (outcome, twice) = converse(
                drop_column_script(tables, table, column),
                once,
                order,
            );
            outcome == Some(Ok::<(), ErrorView>(())) && twice.clocks == once.clocks
        }),
{
    law_drop_column_removes_its_clocks(tables, db, order, table, column);
    let once = converse(drop_column_script(tables, table, column), db, order).1;
    assert(stored_version(once) == stored_version(db) + 1) by {
        lemma_identity_keys();
        lemma_signed_bytes((stored_version(db) + 1) as i64);
    }
    law_drop_column_removes_its_clocks(tables, once, order, table, column);
    let twice = converse(drop_column_script(tables, table, column), once, order).1;
    assert forall|at: (Seq<char>, Seq<char>, Seq<char>)|
        #![trigger twice.clocks.dom().contains(at)]
        #![trigger twice.clocks[at]]
        twice.clocks.dom().contains(at) == once.clocks.dom().contains(at) && (
        once.clocks.dom().contains(at) ==> twice.clocks[at] == once.clocks[at]) by {
        assert(at == (at.0, at.1, at.2));
        assert(once.clocks.dom().contains((at.0, at.1, at.2)) ==> !(at.0 == table && at.2
            == column));
        assert(twice.clocks.dom().contains((at.0, at.1, at.2)) ==> twice.clocks[(
            at.0,
            at.1,
            at.2,
        )] == once.clocks[(at.0, at.1, at.2)]);
    }
    assert(twice.clocks =~= once.clocks);
}

/// Renaming a table whose new name has a clock table is refused and changes nothing. Otherwise all
/// clock entries of the table are found under its new name, as they were, the schema version is
/// raised by one and the fingerprint is stored.
pub proof fn law_rename_keeps_history(
    tables: Seq<TableView>,
    db: Database,
    order: Order,
    old_table: Seq<char>,
    new_table: Seq<char>,
)
    requires
        db.clock_tables.contains(old_table),
        stored_version(db) < i64::MAX,
    ensures
        ({
            let (outcome, after) = converse(
                rename_script(tables, old_table, new_table),
                db,
                order,
            );
            &&& db.clock_tables.contains(new_table) ==> outcome == Some(
                Err::<(), ErrorView>(
                    ErrorView::Backend(
                        new_table + "__crr_clock"@
                            + " already exists; rename the clock table before init() runs under the new name, or migrate manually"@,
                    ),
                ),
            ) && after == db
            &&& !db.clock_tables.contains(new_table) ==> {
                &&& outcome == Some(Ok::<(), ErrorView>(()))
                &&& after == (Database {
                    clocks: after.clocks,
                    clock_tables: db.clock_tables.remove(old_table).insert(new_table),
                    ..with_identity(db, (stored_version(db) + 1) as i64, fingerprint_of(tables))
                })
                &&& forall|p: Seq<char>, c: Seq<char>|
                    #![trigger after.clocks.dom().contains((new_table, p, c))]
                    after.clocks.dom().contains((new_table, p, c)) == db.clocks.dom().contains(
                        (old_table, p, c),
                    ) && (db.clocks.dom().contains((old_table, p, c)) ==> after.clocks[(
                        new_table,
                        p,
                        c,
                    )] == db.clocks[(old_table, p, c)])
                &&& forall|t: Seq<char>, p: Seq<char>, c: Seq<char>|
                    t != old_table && t != new_table ==> #[trigger] after.clocks.dom().contains(
                        (t, p, c),
                    ) == db.clocks.dom().contains((t, p, c)) && (db.clocks.dom().contains((t, p, c))
                        ==> after.clocks[(t, p, c)] == db.clocks[(t, p, c)])
            }
        }),
{
    if !db.clock_tables.contains(new_table) {
        let renamed = db.perform(StatementView::RenameClock { old_table, new_table }, order).1;
        assert(stored_version(renamed) == stored_version(db));
        law_bump_raises_version(tables, renamed, order);
    }
}

/// A change of keys that gives two rows one key, or a row a key that does not hold a value for
/// each key column, is refused before anything is written.
pub proof fn law_change_pk_refuses_first(
    tables: Seq<TableView>,
    db: Database,
    order: Order,
    table: Seq<char>,
    shape: PkView,
    mapping: Seq<RecodingView>,
    i: int,
)
    requires
        0 <= i < mapping.len(),
        mapping[i].new_pk is Some,
        given(mapping, i, mapping[i].new_pk->0) || !decodes(
            shape,
            mapping[i].new_pk->0,
        ),
    ensures
        ({
            let (outcome, after) = converse(
                change_pk_script(tables, table, shape, mapping),
                db,
                order,
            );
            &&& outcome is Some
            &&& outcome->0 is Err
            &&& after == db
        }),
{
    lemma_flaw_found(shape, mapping, i, 0);
}

proof fn lemma_flaw_found(shape: PkView, mapping: Seq<RecodingView>, i: int, from: int)
    requires
        0 <= from <= i < mapping.len(),
        flaw(shape, mapping, i) is Some,
    ensures
        first_flaw(shape, mapping, from) is Some,
    decreases i - from,
{
    if from < i && flaw(shape, mapping, from) is None {
        lemma_flaw_found(shape, mapping, i, from + 1);
    }
}

/// Whether a change of keys gives each new key once, and each with a value for each key column.
pub open spec fn recodable(shape: PkView, mapping: Seq<RecodingView>) -> bool {
    &&& forall|i: int|
        0 <= i < mapping.len() && (#[trigger] mapping[i]).new_pk is Some ==> decodes(
            shape,
            mapping[i].new_pk->0,
        )
    &&& forall|i: int, j: int|
        0 <= i < j < mapping.len() && (#[trigger] mapping[i]).new_pk is Some ==> (
        #[trigger] mapping[j]).new_pk != mapping[i].new_pk
}

/// Nothing is found wrong with a change of keys that gives each new key once, and each with a value
/// for each key column; and with any other something is.
pub proof fn law_sound_mappings_are_accepted(shape: PkView, mapping: Seq<RecodingView>)
    ensures
        first_flaw(shape, mapping, 0) is None <==> recodable(shape, mapping),
{
    if first_flaw(shape, mapping, 0) is None {
        assert forall|i: int|
            0 <= i < mapping.len() && (#[trigger] mapping[i]).new_pk is Some implies decodes(
            shape,
            mapping[i].new_pk->0,
        ) by {
            lemma_no_flaw(shape, mapping, i, 0);
        }
        assert forall|i: int, j: int|
            0 <= i < j < mapping.len() && (#[trigger] mapping[i]).new_pk is Some implies (
        #[trigger] mapping[j]).new_pk != mapping[i].new_pk by {
            lemma_no_flaw(shape, mapping, j, 0);
            if mapping[j].new_pk == mapping[i].new_pk {
                assert(given(mapping, j, mapping[j].new_pk->0));
            }
        }
    } else {
        let i = lemma_first_flaw(shape, mapping, 0);
        if let Some(new_pk) = mapping[i].new_pk {
            if given(mapping, i, new_pk) {
                let k = choose|k: int| 0 <= k < i && (#[trigger] mapping[k]).new_pk == Some(new_pk);
                assert(mapping[i].new_pk == mapping[k].new_pk);
            }
        }
    }
}

proof fn lemma_first_flaw(shape: PkView, mapping: Seq<RecodingView>, from: int) -> (i: int)
    requires
        0 <= from,
        first_flaw(shape, mapping, from) is Some,
    ensures
        from <= i < mapping.len(),
        flaw(shape, mapping, i) == first_flaw(shape, mapping, from),
    decreases mapping.len() - from,
{
    if flaw(shape, mapping, from) is Some {
        from
    } else {
        lemma_first_flaw(shape, mapping, from + 1)
    }
}

proof fn lemma_flaw_first(shape: PkView, mapping: Seq<RecodingView>, i: int, from: int)
    requires
        0 <= from <= i < mapping.len(),
        flaw(shape, mapping, i) is Some,
        forall|k: int| from <= k < i ==> #[trigger] flaw(shape, mapping, k) is None,
    ensures
        first_flaw(shape, mapping, from) == flaw(shape, mapping, i),
    decreases i - from,
{
    if from < i {
        lemma_flaw_first(shape, mapping, i, from + 1);
    }
}

/// A change of keys is refused with the first thing that is wrong with it: a key that an earlier
/// row
/// is given, or one without a value for each key column; nothing is written.
pub proof fn law_change_pk_names_the_flaw(
    tables: Seq<TableView>,
    db: Database,
    order: Order,
    table: Seq<char>,
    shape: PkView,
    mapping: Seq<RecodingView>,
    i: int,
)
    requires
        0 <= i < mapping.len(),
        recodable(shape, mapping.take(i)),
        mapping[i].new_pk is Some,
        !recodable(shape, mapping.take(i + 1)),
    ensures
        ({
            let (outcome, after) = converse(
                change_pk_script(tables, table, shape, mapping),
                db,
                order,
            );
            let new_pk = mapping[i].new_pk->0;
            let taken = exists|k: int| 0 <= k < i && (#[trigger] mapping[k]).new_pk == Some(new_pk);
            &&& after == db
            &&& outcome == Some(
                Err::<(), ErrorView>(
                    ErrorView::Backend(
                        if taken {
                            "pk re-encode collision: two old keys map to "@ + debug_text(new_pk)
                        } else {
                            "re-encoded pk "@ + debug_text(new_pk)
                                + " does not decode into two components under separator "@
                                + debug_char(shape->sep)
                        },
                    ),
                ),
            )
        }),
{
    let (before, more) = (mapping.take(i), mapping.take(i + 1));
    assert forall|k: int| 0 <= k < i implies #[trigger] flaw(shape, mapping, k) is None by {
        assert(before[k] == mapping[k]);
        if let Some(new_pk) = mapping[k].new_pk {
            if given(mapping, k, new_pk) {
                let m = choose|m: int| 0 <= m < k && (#[trigger] mapping[m]).new_pk == Some(new_pk);
                assert(before[m] == mapping[m]);
                assert(before[k].new_pk != before[m].new_pk);
            }
        }
    }
    assert(flaw(shape, mapping, i) is Some) by {
        if flaw(shape, mapping, i) is None {
            assert forall|k: int|
                0 <= k < more.len() && (#[trigger] more[k]).new_pk is Some implies decodes(
                shape,
                more[k].new_pk->0,
            ) by {
                assert(more[k] == mapping[k]);
                if k < i {
                    assert(before[k] == mapping[k]);
                }
            }
            assert forall|k: int, m: int|
                0 <= k < m < more.len() && (#[trigger] more[k]).new_pk is Some implies (
            #[trigger] more[m]).new_pk != more[k].new_pk by {
                assert(more[k] == mapping[k] && more[m] == mapping[m]);
                assert(before[k] == mapping[k]);
                if m < i {
                    assert(before[m] == mapping[m]);
                } else if mapping[m].new_pk == mapping[k].new_pk {
                    assert(given(mapping, i, mapping[i].new_pk->0));
                }
            }
        }
    }
    lemma_flaw_first(shape, mapping, i, 0);
}

/// The sentinel is no column: neither adding nor dropping it changes anything, and both are
/// refused.
pub proof fn law_sentinel_is_reserved(
    tables: Seq<TableView>,
    db: Database,
    order: Order,
    table: Seq<char>,
)
    ensures
        ({
            let (added, after) = converse(
                add_column_script(tables, table, "__sentinel"@),
                db,
                order,
            );
            &&& added == Some(
                Err::<(), ErrorView>(
                    ErrorView::Backend("'__sentinel' is reserved and cannot be added as a column"@),
                ),
            )
            &&& after == db
        }),
        ({
            let (dropped, after) = converse(
                drop_column_script(tables, table, "__sentinel"@),
                db,
                order,
            );
            &&& dropped == Some(
                Err::<(), ErrorView>(
                    ErrorView::Backend("refusing to drop the reserved '__sentinel' column"@),
                ),
            )
            &&& after == db
        }),
{
}

/// The keys that are listed of a clock table are those that have a clock entry, each once.
pub proof fn law_stored_keys_are_listed(db: Database, order: Order, table: Seq<char>)
    requires
        db.clock_tables.contains(table),
        lists_pks(db, order, table),
        order(db, StatementView::SelectPks { table }).no_duplicates(),
        forall|i: int|
            0 <= i < order(db, StatementView::SelectPks { table }).len() ==> exists|
                pk: Seq<char>,
                column: Seq<char>,
            | #[trigger]
                db.clocks.dom().contains((table, pk, column)) && (#[trigger] order(
                    db,
                    StatementView::SelectPks { table },
                )[i]) == seq![SqlValue::Text(pk)],
    ensures
        ({
            let (outcome, after) = converse(stored_pks_script(table), db, order);
            let keys = outcome->0->Ok_0;
            &&& outcome is Some
            &&& outcome->0 is Ok
            &&& after == db
            &&& keys.no_duplicates()
            &&& forall|pk: Seq<char>| #[trigger]
                keys.contains(pk) <==> exists|column: Seq<char>| #[trigger]
                    db.clocks.dom().contains((table, pk, column))
        }),
{
    let rows = order(db, StatementView::SelectPks { table });
    let keys = converse(stored_pks_script(table), db, order).0->0->Ok_0;
    assert forall|i: int| 0 <= i < rows.len() implies rows[i] == seq![
        SqlValue::Text(#[trigger] keys[i]),
    ] && exists|column: Seq<char>| #[trigger] db.clocks.dom().contains((table, keys[i],
        column)) by {
        let (pk, column) = choose|pk: Seq<char>, column: Seq<char>| #[trigger]
            db.clocks.dom().contains((table, pk, column)) && rows[i] == seq![SqlValue::Text(pk)];
        assert(keys[i] == pk);
    }
    assert forall|pk: Seq<char>| #[trigger] keys.contains(pk) <==> exists|column: Seq<char>|
        #[trigger] db.clocks.dom().contains((table, pk, column)) by {
        if keys.contains(pk) {
            let i = choose|i: int| 0 <= i < keys.len() && keys[i] == pk;
            assert(keys[i] == pk);
        }
        if exists|column: Seq<char>| #[trigger] db.clocks.dom().contains((table, pk, column)) {
            let row = seq![SqlValue::Text(pk)];
            assert(rows.contains(row));
            let i = choose|i: int| 0 <= i < rows.len() && rows[i] == row;
            assert(rows[i][0] == SqlValue::Text(pk));
            assert(keys[i] == pk);
        }
    }
}

/// Whether a change of keys keeps out of the way of other rows: no old key is listed twice, and a
/// new key is an old one or one that no row of the table has or had.
pub open spec fn apart(db: Database, table: Seq<char>, mapping: Seq<RecodingView>) -> bool {
    &&& forall|i: int, j: int|
        0 <= i < j < mapping.len() ==> (#[trigger] mapping[i]).old_pk != (
        #[trigger] mapping[j]).old_pk
    &&& forall|i: int, column: Seq<char>|
        0 <= i < mapping.len() && (#[trigger] mapping[i]).new_pk is Some && !is_old(
            mapping,
            mapping[i].new_pk->0,
        ) ==> !#[trigger] db.clocks.dom().contains((table, mapping[i].new_pk->0, column))
}

/// Whether a change of keys can be made one key after the other: no old key is listed twice, and a
/// new key is the row's own or one that no row of the table has or had.
spec fn direct(db: Database, table: Seq<char>, mapping: Seq<RecodingView>) -> bool {
    &&& forall|i: int, j: int|
        0 <= i < j < mapping.len() ==> (#[trigger] mapping[i]).old_pk != (
        #[trigger] mapping[j]).old_pk
    &&& forall|i: int, j: int|
        0 <= i < mapping.len() && 0 <= j < mapping.len() && i != j ==> (
        #[trigger] mapping[i]).new_pk != Some((#[trigger] mapping[j]).old_pk)
    &&& forall|i: int, column: Seq<char>|
        0 <= i < mapping.len() && (#[trigger] mapping[i]).new_pk is Some && mapping[i].new_pk
            != Some(mapping[i].old_pk) ==> !#[trigger] db.clocks.dom().contains(
            (table, mapping[i].new_pk->0, column),
        )
}

/// No two rows are given one key.
spec fn distinct_new(mapping: Seq<RecodingView>) -> bool {
    forall|i: int, j: int|
        0 <= i < j < mapping.len() && (#[trigger] mapping[i]).new_pk is Some ==> (
        #[trigger] mapping[j]).new_pk != mapping[i].new_pk
}

/// A clock entry is where a recoding says it is.
spec fn recoded_at(
    db: Database,
    after: Database,
    table: Seq<char>,
    recoding: RecodingView,
    column: Seq<char>,
) -> bool {
    &&& recoding.new_pk matches Some(new_pk) ==> {
        &&& after.clocks.dom().contains((table, new_pk, column)) == db.clocks.dom().contains(
            (table, recoding.old_pk, column),
        )
        &&& db.clocks.dom().contains((table, recoding.old_pk, column)) ==> after.clocks[(
            table,
            new_pk,
            column,
        )] == db.clocks[(table, recoding.old_pk, column)]
    }
    &&& recoding.new_pk != Some(recoding.old_pk) ==> !after.clocks.dom().contains(
        (table, recoding.old_pk, column),
    )
}

/// A clock entry is as it was.
spec fn untouched_at(
    db: Database,
    after: Database,
    at: (Seq<char>, Seq<char>, Seq<char>),
) -> bool {
    after.clocks.dom().contains(at) == db.clocks.dom().contains(at) && (db.clocks.dom().contains(at)
        ==> after.clocks[at] == db.clocks[at])
}

/// Whether a key is neither an old nor a new one of the recodings from the one at `from` on.
spec fn not_in(mapping: Seq<RecodingView>, from: int, pk: Seq<char>) -> bool {
    forall|k: int|
        from <= k < mapping.len() ==> (#[trigger] mapping[k]).old_pk != pk && mapping[k].new_pk
            != Some(pk)
}

proof fn lemma_recode(
    start: Database,
    db: Database,
    order: Order,
    table: Seq<char>,
    mapping: Seq<RecodingView>,
    from: int,
)
    requires
        db.clock_tables.contains(table),
        0 <= from <= mapping.len(),
        direct(start, table, mapping),
        distinct_new(mapping),
        forall|k: int, column: Seq<char>|
            #![trigger mapping[k], start.clocks.dom().contains((table, mapping[k].old_pk, column))]
            from <= k < mapping.len() ==> untouched_at(
                start,
                db,
                (table, mapping[k].old_pk, column),
            ),
        forall|k: int, column: Seq<char>|
            from <= k < mapping.len() && (#[trigger] mapping[k]).new_pk is Some && mapping[k].new_pk
                != Some(mapping[k].old_pk) ==> !#[trigger] db.clocks.dom().contains(
                (table, mapping[k].new_pk->0, column),
            ),
    ensures
        ({
            let (outcome, after) = converse(recode_script(table, mapping, from), db, order);
            &&& outcome == Some(Ok::<(), ErrorView>(()))
            &&& after == (Database { clocks: after.clocks, ..db })
            &&& forall|k: int, column: Seq<char>|
                from <= k < mapping.len() ==> #[trigger] recoded_at(
                    db,
                    after,
                    table,
                    mapping[k],
                    column,
                )
            &&& forall|t: Seq<char>, p: Seq<char>, c: Seq<char>|
                t != table || not_in(mapping, from, p) ==> #[trigger] untouched_at(
                    db,
                    after,
                    (t, p, c),
                )
        }),
    decreases mapping.len() - from,
{
    if from < mapping.len() {
        let here = mapping[from];
        let statement = match here.new_pk {
            Some(new_pk) => StatementView::RewritePk { table, old_pk: here.old_pk, new_pk },
            None => StatementView::DropPk { table, pk: here.old_pk },
        };
        let (reply, next) = db.perform(statement, order);
        if let Some(new_pk) = here.new_pk {
            assert(!db.clashes(table, here.old_pk, new_pk));
        }
        assert(next == (Database { clocks: next.clocks, ..db }));
        assert forall|column: Seq<char>| #[trigger] recoded_at(
            db,
            next,
            table,
            here,
            column,
        ) by {}
        assert forall|t: Seq<char>, p: Seq<char>, c: Seq<char>|
            t != table || (p != here.old_pk
                && here.new_pk != Some(p)) implies #[trigger] untouched_at(
            db,
            next,
            (t, p, c),
        ) by {}
        assert forall|k: int, column: Seq<char>|
            #![trigger mapping[k], start.clocks.dom().contains((table, mapping[k].old_pk, column))]
            from + 1 <= k < mapping.len() implies untouched_at(
            start,
            next,
            (table, mapping[k].old_pk, column),
        ) by {
            assert(mapping[from].old_pk != mapping[k].old_pk);
            assert(mapping[from].new_pk != Some(mapping[k].old_pk));
            assert(untouched_at(db, next, (table, mapping[k].old_pk, column)));
            assert(untouched_at(start, db, (table, mapping[k].old_pk, column)));
        }
        assert forall|k: int, column: Seq<char>|
            from + 1 <= k < mapping.len() && (#[trigger] mapping[k]).new_pk is Some
                && mapping[k].new_pk != Some(
                mapping[k].old_pk,
            ) implies !#[trigger] next.clocks.dom().contains(
            (table, mapping[k].new_pk->0, column),
        ) by {
            assert(mapping[k].new_pk != Some(mapping[from].old_pk));
            if mapping[from].new_pk is Some {
                assert(mapping[k].new_pk != mapping[from].new_pk);
            }
            assert(untouched_at(db, next, (table, mapping[k].new_pk->0, column)));
            assert(!db.clocks.dom().contains((table, mapping[k].new_pk->0, column)));
        }
        lemma_recode(start, next, order, table, mapping, from + 1);
        let after = converse(recode_script(table, mapping, from + 1), next, order).1;
        assert forall|k: int, column: Seq<char>|
            from <= k < mapping.len() implies #[trigger] recoded_at(
            db,
            after,
            table,
            mapping[k],
            column,
        ) by {
            if k == from {
                assert(recoded_at(db, next, table, here, column));
                assert(not_in(mapping, from + 1, here.old_pk)) by {
                    assert forall|m: int| from + 1 <= m < mapping.len() implies (
                    #[trigger] mapping[m]).old_pk != here.old_pk && mapping[m].new_pk != Some(
                        here.old_pk,
                    ) by {
                        assert(mapping[from].old_pk != mapping[m].old_pk);
                        assert(mapping[m].new_pk != Some(mapping[from].old_pk));
                    }
                }
                assert(untouched_at(next, after, (table, here.old_pk, column)));
                if let Some(new_pk) = here.new_pk {
                    assert(not_in(mapping, from + 1, new_pk)) by {
                        assert forall|m: int| from + 1 <= m < mapping.len() implies (
                        #[trigger] mapping[m]).old_pk != new_pk && mapping[m].new_pk != Some(
                            new_pk,
                        ) by {
                            assert(mapping[from].new_pk != Some(mapping[m].old_pk));
                            assert(mapping[from].new_pk is Some);
                            assert(mapping[m].new_pk != mapping[from].new_pk);
                        }
                    }
                    assert(untouched_at(next, after, (table, new_pk, column)));
                }
            } else {
                assert(recoded_at(next, after, table, mapping[k], column));
                assert(mapping[from].old_pk != mapping[k].old_pk);
                assert(mapping[from].new_pk != Some(mapping[k].old_pk));
                assert(untouched_at(db, next, (table, mapping[k].old_pk, column)));
            }
        }
        assert forall|t: Seq<char>, p: Seq<char>, c: Seq<char>|
            t != table || not_in(mapping, from, p) implies #[trigger] untouched_at(
            db,
            after,
            (t, p, c),
        ) by {
            assert(t != table || not_in(mapping, from + 1, p)) by {
                if t == table {
                    assert forall|m: int| from + 1 <= m < mapping.len() implies (
                    #[trigger] mapping[m]).old_pk != p && mapping[m].new_pk != Some(p) by {}
                }
            }
            if t == table {
                assert(mapping[from].old_pk != p);
            }
            assert(untouched_at(db, next, (t, p, c)));
            assert(untouched_at(next, after, (t, p, c)));
        }
    }
}

proof fn lemma_no_flaw(shape: PkView, mapping: Seq<RecodingView>, i: int, from: int)
    requires
        0 <= from <= i < mapping.len(),
        first_flaw(shape, mapping, from) is None,
    ensures
        flaw(shape, mapping, i) is None,
    decreases i - from,
{
    if from < i {
        lemma_no_flaw(shape, mapping, i, from + 1);
    }
}

/// Whether the rows that a database lists as keys hold every key that the clock table has.
pub open spec fn lists_pks(db: Database, order: Order, table: Seq<char>) -> bool {
    forall|pk: Seq<char>, column: Seq<char>| #[trigger]
        db.clocks.dom().contains((table, pk, column)) ==> order(
            db,
            StatementView::SelectPks { table },
        ).contains(seq![SqlValue::Text(pk)])
}

proof fn lemma_longest(keys: Seq<Seq<char>>, i: int)
    requires
        0 <= i < keys.len(),
    ensures
        keys[i].len() <= longest(keys),
    decreases keys.len(),
{
    if i < keys.len() - 1 {
        lemma_longest(keys.drop_last(), i);
        assert(keys.drop_last()[i] == keys[i]);
    }
}

proof fn lemma_widest(mapping: Seq<RecodingView>, i: int)
    requires
        0 <= i < mapping.len(),
    ensures
        mapping[i].old_pk.len() <= widest(mapping),
        mapping[i].new_pk matches Some(new_pk) ==> new_pk.len() <= widest(mapping),
    decreases mapping.len(),
{
    if i < mapping.len() - 1 {
        lemma_widest(mapping.drop_last(), i);
        assert(mapping.drop_last()[i] == mapping[i]);
    }
}

/// Spare keys are longer than all other keys, and there is another one for each place.
proof fn lemma_spare(room: nat, i: int, j: int)
    requires
        i >= 0,
        j >= 0,
    ensures
        spare(room, i).len() > room,
        spare(room, i) == spare(room, j) ==> i == j,
{
    let filler = Seq::new(room + 1, |k: int| '~');
    assert(spare(room, i).skip(room as int + 1) =~= decimal(i as nat));
    assert(spare(room, j).skip(room as int + 1) =~= decimal(j as nat));
    lemma_decimal_number(i as nat);
    lemma_decimal_number(j as nat);
}

/// What is settled at the end is the recodings that had to wait.
proof fn lemma_settled(mapping: Seq<RecodingView>, room: nat, n: int)
    requires
        0 <= n <= mapping.len(),
    ensures
        forall|k: int|
            0 <= k < settled(mapping, room, n).len() ==> exists|i: int|
                0 <= i < n && #[trigger] crosses(mapping, i) && #[trigger] settled(
                    mapping,
                    room,
                    n,
                )[k] == (RecodingView { old_pk: spare(room, i), new_pk: mapping[i].new_pk }),
        forall|i: int|
            0 <= i < n && #[trigger] crosses(mapping, i) ==> settled(mapping, room, n).contains(
                RecodingView { old_pk: spare(room, i), new_pk: mapping[i].new_pk },
            ),
        forall|k: int, m: int|
            0 <= k < m < settled(mapping, room, n).len() ==> (#[trigger] settled(
                mapping,
                room,
                n,
            )[k]).old_pk != (#[trigger] settled(mapping, room, n)[m]).old_pk,
    decreases n,
{
    if n > 0 {
        lemma_settled(mapping, room, n - 1);
        let before = settled(mapping, room, n - 1);
        let after = settled(mapping, room, n);
        let own = RecodingView { old_pk: spare(room, n - 1), new_pk: mapping[n - 1].new_pk };
        assert forall|k: int| 0 <= k < after.len() implies exists|i: int|
            0 <= i < n && #[trigger] crosses(mapping, i) && #[trigger] after[k] == (RecodingView {
                old_pk: spare(room, i),
                new_pk: mapping[i].new_pk,
            }) by {
            if k < before.len() {
                assert(after[k] == before[k]);
                let i = choose|i: int|
                    0 <= i < n - 1 && #[trigger] crosses(mapping, i) && before[k] == (RecodingView {
                        old_pk: spare(room, i),
                        new_pk: mapping[i].new_pk,
                    });
                assert(crosses(mapping, i));
            } else {
                assert(crosses(mapping, n - 1));
            }
        }
        assert forall|i: int| 0 <= i < n && #[trigger] crosses(mapping, i) implies after.contains(
            RecodingView { old_pk: spare(room, i), new_pk: mapping[i].new_pk },
        ) by {
            let wanted = RecodingView { old_pk: spare(room, i), new_pk: mapping[i].new_pk };
            if i < n - 1 {
                assert(before.contains(wanted));
                let k = choose|k: int| 0 <= k < before.len() && before[k] == wanted;
                assert(after[k] == wanted);
            } else {
                assert(after[after.len() - 1] == wanted);
            }
        }
        assert forall|k: int, m: int| 0 <= k < m < after.len() implies (
        #[trigger] after[k]).old_pk != (#[trigger] after[m]).old_pk by {
            assert(after[k] == before[k]);
            if m < before.len() {
                assert(after[m] == before[m]);
            } else {
                let i = choose|i: int|
                    0 <= i < n - 1 && #[trigger] crosses(mapping, i) && before[k] == (RecodingView {
                        old_pk: spare(room, i),
                        new_pk: mapping[i].new_pk,
                    });
                lemma_spare(room, i, n - 1);
            }
        }
    }
}

/// Whether all keys, stored, old or new, have at most `room` characters.
spec fn roomy(db: Database, table: Seq<char>, mapping: Seq<RecodingView>, room: nat) -> bool {
    &&& forall|pk: Seq<char>, column: Seq<char>| #[trigger]
        db.clocks.dom().contains((table, pk, column)) ==> pk.len() <= room
    &&& forall|i: int|
        0 <= i < mapping.len() ==> (#[trigger] mapping[i]).old_pk.len() <= room && (
        mapping[i].new_pk matches Some(new_pk) ==> new_pk.len() <= room)
}

proof fn lemma_vacated_direct(
    db: Database,
    table: Seq<char>,
    mapping: Seq<RecodingView>,
    room: nat,
)
    requires
        apart(db, table, mapping),
        distinct_new(mapping),
        roomy(db, table, mapping, room),
    ensures
        direct(db, table, vacated(mapping, room)),
        distinct_new(vacated(mapping, room)),
{
    let first = vacated(mapping, room);
    assert forall|i: int, j: int| 0 <= i < j < first.len() implies (#[trigger] first[i]).old_pk != (
    #[trigger] first[j]).old_pk by {
        assert(mapping[i].old_pk != mapping[j].old_pk);
    }
    assert forall|i: int, j: int|
        0 <= i < first.len() && 0 <= j < first.len() && i != j implies (
    #[trigger] first[i]).new_pk != Some((#[trigger] first[j]).old_pk) by {
        lemma_spare(room, i, i);
        assert(mapping[j].old_pk.len() <= room);
        if !crosses(mapping, i) && mapping[i].new_pk == Some(mapping[j].old_pk) {
            assert(is_old(mapping, mapping[j].old_pk));
            assert(mapping[i].old_pk != mapping[j].old_pk);
        }
    }
    assert forall|i: int, column: Seq<char>|
        0 <= i < first.len() && (#[trigger] first[i]).new_pk is Some && first[i].new_pk != Some(
            first[i].old_pk,
        ) implies !#[trigger] db.clocks.dom().contains((table, first[i].new_pk->0, column)) by {
        lemma_spare(room, i, i);
        assert(mapping[i].old_pk.len() <= room);
        if !crosses(mapping, i) {
            assert(!is_old(mapping, mapping[i].new_pk->0));
        }
    }
    assert forall|i: int, j: int|
        0 <= i < j < first.len() && (#[trigger] first[i]).new_pk is Some implies (
    #[trigger] first[j]).new_pk != first[i].new_pk by {
        lemma_spare(room, i, j);
        lemma_spare(room, j, i);
        assert(mapping[i].old_pk.len() <= room);
        assert(mapping[j].old_pk.len() <= room);
    }
}

proof fn lemma_settled_direct(
    db: Database,
    middle: Database,
    table: Seq<char>,
    mapping: Seq<RecodingView>,
    room: nat,
)
    requires
        apart(db, table, mapping),
        distinct_new(mapping),
        roomy(db, table, mapping, room),
        forall|k: int, column: Seq<char>|
            0 <= k < mapping.len() ==> #[trigger] recoded_at(
                db,
                middle,
                table,
                vacated(mapping, room)[k],
                column,
            ),
    ensures
        direct(middle, table, settled(mapping, room, mapping.len() as int)),
        distinct_new(settled(mapping, room, mapping.len() as int)),
{
    let n = mapping.len() as int;
    let second = settled(mapping, room, n);
    lemma_settled(mapping, room, n);
    assert forall|k: int, m: int|
        0 <= k < second.len() && 0 <= m < second.len() && k != m implies (
    #[trigger] second[k]).new_pk != Some((#[trigger] second[m]).old_pk) by {
        let i = choose|i: int|
            0 <= i < n && #[trigger] crosses(mapping, i) && second[k] == (RecodingView {
                old_pk: spare(room, i),
                new_pk: mapping[i].new_pk,
            });
        let j = choose|j: int|
            0 <= j < n && #[trigger] crosses(mapping, j) && second[m] == (RecodingView {
                old_pk: spare(room, j),
                new_pk: mapping[j].new_pk,
            });
        lemma_spare(room, j, j);
        assert(mapping[i].old_pk.len() <= room);
    }
    assert forall|k: int, column: Seq<char>|
        0 <= k < second.len() && (#[trigger] second[k]).new_pk is Some && second[k].new_pk != Some(
            second[k].old_pk,
        ) implies !#[trigger] middle.clocks.dom().contains(
        (table, second[k].new_pk->0, column),
    ) by {
        let i = choose|i: int|
            0 <= i < n && #[trigger] crosses(mapping, i) && second[k] == (RecodingView {
                old_pk: spare(room, i),
                new_pk: mapping[i].new_pk,
            });
        let new_pk = mapping[i].new_pk->0;
        let j = choose|j: int| 0 <= j < n && (#[trigger] mapping[j]).old_pk == new_pk;
        lemma_spare(room, j, j);
        assert(mapping[j].old_pk.len() <= room);
        assert(i != j);
        assert(mapping[j].new_pk != mapping[i].new_pk) by {
            if i < j {
                assert(mapping[i].new_pk is Some && mapping[j].new_pk != mapping[i].new_pk);
            } else if mapping[j].new_pk is Some {
                assert(mapping[j].new_pk is Some && mapping[i].new_pk != mapping[j].new_pk);
            }
        }
        assert(recoded_at(db, middle, table, vacated(mapping, room)[j], column));
    }
    assert forall|k: int, m: int|
        0 <= k < m < second.len() && (#[trigger] second[k]).new_pk is Some implies (
    #[trigger] second[m]).new_pk != second[k].new_pk by {
        let i = choose|i: int|
            0 <= i < n && #[trigger] crosses(mapping, i) && second[k] == (RecodingView {
                old_pk: spare(room, i),
                new_pk: mapping[i].new_pk,
            });
        let j = choose|j: int|
            0 <= j < n && #[trigger] crosses(mapping, j) && second[m] == (RecodingView {
                old_pk: spare(room, j),
                new_pk: mapping[j].new_pk,
            });
        assert(second[k].old_pk != second[m].old_pk);
        if i < j {
            assert(mapping[i].new_pk is Some && mapping[j].new_pk != mapping[i].new_pk);
        } else {
            assert(mapping[j].new_pk is Some && mapping[i].new_pk != mapping[j].new_pk);
        }
    }
}

/// What a change of keys comes to.
spec fn moved(
    db: Database,
    after: Database,
    table: Seq<char>,
    mapping: Seq<RecodingView>,
) -> bool {
    &&& forall|k: int, column: Seq<char>|
        0 <= k < mapping.len() ==> #[trigger] moved_at(db, after, table, mapping, k, column)
    &&& forall|t: Seq<char>, p: Seq<char>, c: Seq<char>|
        t != table || not_in(mapping, 0, p) ==> #[trigger] untouched_at(db, after, (t, p, c))
}

/// A clock entry is found under the new key, and no longer under the old one unless another row has
/// got that.
spec fn moved_at(
    db: Database,
    after: Database,
    table: Seq<char>,
    mapping: Seq<RecodingView>,
    k: int,
    column: Seq<char>,
) -> bool {
    &&& mapping[k].new_pk matches Some(new_pk) ==> {
        &&& after.clocks.dom().contains((table, new_pk, column)) == db.clocks.dom().contains(
            (table, mapping[k].old_pk, column),
        )
        &&& db.clocks.dom().contains((table, mapping[k].old_pk, column)) ==> after.clocks[(
            table,
            new_pk,
            column,
        )] == db.clocks[(table, mapping[k].old_pk, column)]
    }
    &&& !given(mapping, mapping.len() as int, mapping[k].old_pk) ==> !after.clocks.dom().contains(
        (table, mapping[k].old_pk, column),
    )
}

proof fn lemma_detour(
    db: Database,
    middle: Database,
    after: Database,
    table: Seq<char>,
    mapping: Seq<RecodingView>,
    room: nat,
)
    requires
        apart(db, table, mapping),
        distinct_new(mapping),
        roomy(db, table, mapping, room),
        forall|k: int, column: Seq<char>|
            0 <= k < mapping.len() ==> #[trigger] recoded_at(
                db,
                middle,
                table,
                vacated(mapping, room)[k],
                column,
            ),
        forall|t: Seq<char>, p: Seq<char>, c: Seq<char>|
            t != table || not_in(vacated(mapping, room), 0, p) ==> #[trigger] untouched_at(
                db,
                middle,
                (t, p, c),
            ),
        ({
            let second = settled(mapping, room, mapping.len() as int);
            &&& forall|k: int, column: Seq<char>|
                0 <= k < second.len() ==> #[trigger] recoded_at(
                    middle,
                    after,
                    table,
                    second[k],
                    column,
                )
            &&& forall|t: Seq<char>, p: Seq<char>, c: Seq<char>|
                t != table || not_in(second, 0, p) ==> #[trigger] untouched_at(
                    middle,
                    after,
                    (t, p, c),
                )
        }),
    ensures
        moved(db, after, table, mapping),
{
    let n = mapping.len() as int;
    let first = vacated(mapping, room);
    let second = settled(mapping, room, n);
    lemma_settled(mapping, room, n);
    // A key that is short and given to no row that had to wait is not touched again.
    assert forall|p: Seq<char>|
        p.len() <= room && (forall|i: int|
            0 <= i < n && #[trigger] crosses(mapping, i) ==> mapping[i].new_pk != Some(
                p,
            )) implies #[trigger] not_in(second, 0, p) by {
        assert forall|k: int| 0 <= k < second.len() implies (#[trigger] second[k]).old_pk != p
            && second[k].new_pk != Some(p) by {
            let i = choose|i: int|
                0 <= i < n && #[trigger] crosses(mapping, i) && second[k] == (RecodingView {
                    old_pk: spare(room, i),
                    new_pk: mapping[i].new_pk,
                });
            lemma_spare(room, i, i);
        }
    }
    assert forall|k: int, column: Seq<char>| 0 <= k < n implies #[trigger] moved_at(
        db,
        after,
        table,
        mapping,
        k,
        column,
    ) by {
        assert(recoded_at(db, middle, table, first[k], column));
        assert(mapping[k].old_pk.len() <= room);
        lemma_spare(room, k, k);
        if crosses(mapping, k) {
            let own = RecodingView { old_pk: spare(room, k), new_pk: mapping[k].new_pk };
            assert(second.contains(own));
            let m = choose|m: int| 0 <= m < second.len() && second[m] == own;
            assert(recoded_at(middle, after, table, second[m], column));
        } else if let Some(new_pk) = mapping[k].new_pk {
            assert(not_in(second, 0, new_pk)) by {
                assert forall|i: int|
                    0 <= i < n && #[trigger] crosses(mapping, i) implies mapping[i].new_pk != Some(
                    new_pk,
                ) by {
                    if i < k {
                        assert(mapping[i].new_pk is Some && mapping[k].new_pk
                            != mapping[i].new_pk);
                    } else {
                        assert(mapping[k].new_pk is Some && i > k ==> mapping[i].new_pk
                            != mapping[k].new_pk);
                    }
                }
            }
            assert(untouched_at(middle, after, (table, new_pk, column)));
        }
        if !given(mapping, n, mapping[k].old_pk) {
            assert(mapping[k].new_pk != Some(mapping[k].old_pk));
            assert(not_in(second, 0, mapping[k].old_pk)) by {
                assert forall|i: int|
                    0 <= i < n && #[trigger] crosses(mapping, i) implies mapping[i].new_pk != Some(
                    mapping[k].old_pk,
                ) by {
                    assert(mapping[i].new_pk == mapping[i].new_pk);
                }
            }
            assert(untouched_at(middle, after, (table, mapping[k].old_pk, column)));
        }
    }
    assert forall|t: Seq<char>, p: Seq<char>, c: Seq<char>|
        t != table || not_in(mapping, 0, p) implies #[trigger] untouched_at(
        db,
        after,
        (t, p, c),
    ) by {
        if t != table {
            assert(untouched_at(db, middle, (t, p, c)));
            assert(untouched_at(middle, after, (t, p, c)));
        } else if exists|i: int| 0 <= i < n && crosses(mapping, i) && #[trigger] spare(room, i)
            == p {
            let i = choose|i: int|
                0 <= i < n && crosses(mapping, i) && #[trigger] spare(room, i) == p;
            lemma_spare(room, i, i);
            let own = RecodingView { old_pk: p, new_pk: mapping[i].new_pk };
            assert(second.contains(own));
            let m = choose|m: int| 0 <= m < second.len() && second[m] == own;
            assert(mapping[i].new_pk->0.len() <= room) by {
                assert(mapping[i].old_pk.len() <= room);
            }
            assert(recoded_at(middle, after, table, second[m], c));
            assert(!db.clocks.dom().contains((t, p, c)));
        } else {
            assert(not_in(first, 0, p)) by {
                assert forall|k: int| 0 <= k < first.len() implies (#[trigger] first[k]).old_pk != p
                    && first[k].new_pk != Some(p) by {
                    assert(mapping[k].old_pk != p && mapping[k].new_pk != Some(p));
                    assert(crosses(mapping, k) ==> spare(room, k) != p);
                }
            }
            assert(not_in(second, 0, p)) by {
                assert forall|k: int| 0 <= k < second.len() implies (
                #[trigger] second[k]).old_pk != p && second[k].new_pk != Some(p) by {
                    let i = choose|i: int|
                        0 <= i < n && #[trigger] crosses(mapping, i) && second[k]
                            == (RecodingView {
                            old_pk: spare(room, i),
                            new_pk: mapping[i].new_pk,
                        });
                    assert(spare(room, i) != p);
                    assert(mapping[i].old_pk != p && mapping[i].new_pk != Some(p));
                }
            }
            assert(untouched_at(db, middle, (t, p, c)));
            assert(untouched_at(middle, after, (t, p, c)));
        }
    }
}

proof fn lemma_move(
    db: Database,
    order: Order,
    table: Seq<char>,
    mapping: Seq<RecodingView>,
)
    requires
        db.clock_tables.contains(table),
        apart(db, table, mapping),
        distinct_new(mapping),
        lists_pks(db, order, table),
    ensures
        ({
            let (outcome, after) = converse(move_script(table, mapping), db, order);
            &&& outcome == Some(Ok::<(), ErrorView>(()))
            &&& after == (Database { clocks: after.clocks, ..db })
            &&& moved(db, after, table, mapping)
        }),
{
    if crossing(mapping) {
        let rows = order(db, StatementView::SelectPks { table });
        let stored = rows.map_values(|row: Seq<SqlValue>| cell(row, 0).text_or_empty());
        let room = longer(longest(stored), widest(mapping));
        assert(roomy(db, table, mapping, room)) by {
            assert forall|pk: Seq<char>, column: Seq<char>| #[trigger]
                db.clocks.dom().contains((table, pk, column)) implies pk.len() <= room by {
                let row = seq![SqlValue::Text(pk)];
                assert(rows.contains(row));
                let i = choose|i: int| 0 <= i < rows.len() && rows[i] == row;
                assert(stored[i] == pk);
                lemma_longest(stored, i);
            }
            assert forall|i: int| 0 <= i < mapping.len() implies (
            #[trigger] mapping[i]).old_pk.len() <= room && (mapping[i].new_pk matches Some(new_pk)
                ==> new_pk.len() <= room) by {
                lemma_widest(mapping, i);
            }
        }
        let first = vacated(mapping, room);
        let second = settled(mapping, room, mapping.len() as int);
        lemma_vacated_direct(db, table, mapping, room);
        lemma_recode(db, db, order, table, first, 0);
        let middle = converse(recode_script(table, first, 0), db, order).1;
        lemma_settled_direct(db, middle, table, mapping, room);
        lemma_recode(middle, middle, order, table, second, 0);
        let after = converse(recode_script(table, second, 0), middle, order).1;
        lemma_detour(db, middle, after, table, mapping, room);
    } else {
        assert(direct(db, table, mapping)) by {
            assert forall|i: int, j: int|
                0 <= i < mapping.len() && 0 <= j < mapping.len() && i != j implies (
            #[trigger] mapping[i]).new_pk != Some((#[trigger] mapping[j]).old_pk) by {
                assert(!crosses(mapping, i));
                assert(is_old(mapping, mapping[j].old_pk));
                assert(mapping[i].old_pk != mapping[j].old_pk);
            }
            assert forall|i: int, column: Seq<char>|
                0 <= i < mapping.len() && (#[trigger] mapping[i]).new_pk is Some
                    && mapping[i].new_pk != Some(
                    mapping[i].old_pk,
                ) implies !#[trigger] db.clocks.dom().contains(
                (table, mapping[i].new_pk->0, column),
            ) by {
                assert(!crosses(mapping, i));
            }
        }
        lemma_recode(db, db, order, table, mapping, 0);
        let after = converse(recode_script(table, mapping, 0), db, order).1;
        assert forall|k: int, column: Seq<char>|
            0 <= k < mapping.len() implies #[trigger] moved_at(
            db,
            after,
            table,
            mapping,
            k,
            column,
        ) by {
            assert(recoded_at(db, after, table, mapping[k], column));
        }
    }
}

/// A change of keys that gives each key once, and each with a value for each key column, and keeps
/// out of the way of other rows moves all clock entries
/// of each row to its new key, as they were, or drops them, also where rows trade keys; no other
/// entry changes. The schema version is raised by one and the fingerprint is stored.
pub proof fn law_change_pk_moves_clocks(
    tables: Seq<TableView>,
    db: Database,
    order: Order,
    table: Seq<char>,
    shape: PkView,
    mapping: Seq<RecodingView>,
)
    requires
        db.clock_tables.contains(table),
        stored_version(db) < i64::MAX,
        recodable(shape, mapping),
        apart(db, table, mapping),
        lists_pks(db, order, table),
    ensures
        ({
            let (outcome, after) = converse(
                change_pk_script(tables, table, shape, mapping),
                db,
                order,
            );
            &&& outcome == Some(Ok::<(), ErrorView>(()))
            &&& after == (Database {
                clocks: after.clocks,
                ..with_identity(db, (stored_version(db) + 1) as i64, fingerprint_of(tables))
            })
            &&& forall|k: int, new_pk: Seq<char>, column: Seq<char>|
                #![trigger mapping[k], after.clocks.dom().contains((table, new_pk, column))]
                0 <= k < mapping.len() && mapping[k].new_pk == Some(new_pk)
                    ==> after.clocks.dom().contains((table, new_pk, column))
                    == db.clocks.dom().contains((table, mapping[k].old_pk, column)) && (
                db.clocks.dom().contains((table, mapping[k].old_pk, column)) ==> after.clocks[(
                    table,
                    new_pk,
                    column,
                )] == db.clocks[(table, mapping[k].old_pk, column)])
            &&& forall|k: int, column: Seq<char>|
                #![trigger after.clocks.dom().contains((table, mapping[k].old_pk, column))]
                0 <= k < mapping.len() && !given(
                    mapping,
                    mapping.len() as int,
                    mapping[k].old_pk,
                ) ==> !after.clocks.dom().contains((table, mapping[k].old_pk, column))
            &&& forall|t: Seq<char>, p: Seq<char>, c: Seq<char>|
                #![trigger after.clocks.dom().contains((t, p, c))]
                t != table || (forall|k: int|
                    0 <= k < mapping.len() ==> (#[trigger] mapping[k]).old_pk != p
                        && mapping[k].new_pk != Some(p)) ==> after.clocks.dom().contains((t, p, c))
                    == db.clocks.dom().contains((t, p, c)) && (db.clocks.dom().contains((t, p, c))
                    ==> after.clocks[(t, p, c)] == db.clocks[(t, p, c)])
        }),
{
    law_sound_mappings_are_accepted(shape, mapping);
    lemma_move(db, order, table, mapping);
    let there = converse(move_script(table, mapping), db, order).1;
    assert(stored_version(there) == stored_version(db));
    law_bump_raises_version(tables, there, order);
    let after = converse(change_pk_script(tables, table, shape, mapping), db, order).1;
    assert(after.clocks == there.clocks);
    assert forall|k: int, new_pk: Seq<char>, column: Seq<char>|
        #![trigger mapping[k], after.clocks.dom().contains((table, new_pk, column))]
        0 <= k < mapping.len() && mapping[k].new_pk == Some(
            new_pk,
        ) implies after.clocks.dom().contains((table, new_pk, column)) == db.clocks.dom().contains(
        (table, mapping[k].old_pk, column),
    ) && (db.clocks.dom().contains((table, mapping[k].old_pk, column)) ==> after.clocks[(
        table,
        new_pk,
        column,
    )] == db.clocks[(table, mapping[k].old_pk, column)]) by {
        assert(moved_at(db, there, table, mapping, k, column));
    }
    assert forall|k: int, column: Seq<char>|
        #![trigger after.clocks.dom().contains((table, mapping[k].old_pk, column))]
        0 <= k < mapping.len() && !given(
            mapping,
            mapping.len() as int,
            mapping[k].old_pk,
        ) implies !after.clocks.dom().contains((table, mapping[k].old_pk, column)) by {
        assert(moved_at(db, there, table, mapping, k, column));
    }
    assert forall|t: Seq<char>, p: Seq<char>, c: Seq<char>|
        #![trigger after.clocks.dom().contains((t, p, c))]
        t != table || (forall|k: int|
            0 <= k < mapping.len() ==> (#[trigger] mapping[k]).old_pk != p && mapping[k].new_pk
                != Some(p)) implies after.clocks.dom().contains((t, p, c))
        == db.clocks.dom().contains((t, p, c)) && (db.clocks.dom().contains((t, p, c))
        ==> after.clocks[(t, p, c)] == db.clocks[(t, p, c)]) by {
        assert(t != table || not_in(mapping, 0, p));
        assert(untouched_at(db, there, (t, p, c)));
    }
}

} // verus!
