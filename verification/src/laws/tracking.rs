//! Laws of change tracking.
use vstd::prelude::*;

use crate::alive;
use crate::database::Database;
use crate::database::Order;
use crate::database::converse;
use crate::database::given_value;
use crate::database::group_converse;
use crate::gone;
use crate::helpers::col_ver_script;
use crate::helpers::decodes;
use crate::helpers::exists_script;
use crate::helpers::key_of;
use crate::json::json_of;
use crate::json::storable;
use crate::laws::convergence::outranks;
use crate::laws::replica::admits;
use crate::laws::replica::ages;
use crate::laws::replica::bumped;
use crate::laws::replica::lemma_col_ver;
use crate::laws::replica::lemma_key_value_fits;
use crate::laws::replica::lemma_next_version;
use crate::laws::replica::lemma_site;
use crate::laws::replica::lemma_sound_again;
use crate::laws::replica::lemma_table_of;
use crate::laws::replica::length_of;
use crate::laws::replica::next_version;
use crate::laws::replica::only_row;
use crate::laws::replica::row_kept;
use crate::laws::replica::row_of;
use crate::laws::replica::sound;
use crate::laws::replica::table_kept;
use crate::laws::replica::ver_of;
use crate::laws::replica::was_written;
use crate::laws::replica::written;
use crate::schema::SENTINEL;
use crate::schema::TableView;
use crate::schema::table_of;
use crate::schema::tracks;
use crate::state::next_version_script;
use crate::state::site_script;
use crate::statement::Key;
use crate::statement::StampView;
use crate::tracking::adopt_script;
use crate::tracking::deleted_length;
use crate::tracking::raise_columns_script;
use crate::tracking::seed_columns_script;
use crate::tracking::seed_script;
use crate::tracking::track_delete_script;
use crate::tracking::update_script;
use crate::value::ErrorView;
use crate::value::SqlValue;

verus! {

broadcast use {group_converse, lemma_table_of};

/// Whether a database can keep clocks of a table: it has a site, a version and the clock table.
pub open spec fn can_track(db: Database, table: Seq<char>) -> bool {
    &&& db.site is Some
    &&& db.version is Some
    &&& db.clock_tables.contains(table)
}

/// Whether nothing but the clocks and the version of a database have changed.
pub open spec fn only_clocks(db: Database, after: Database) -> bool {
    after == (Database { clocks: after.clocks, version: after.version, ..db })
}

/// Whether the clock entries of a database have not changed but for some columns of one row.
pub open spec fn only_columns(
    db: Database,
    after: Database,
    table: Seq<char>,
    pk: Seq<char>,
    columns: Set<Seq<char>>,
) -> bool {
    forall|t: Seq<char>, p: Seq<char>, c: Seq<char>|
        !(t == table && p == pk && columns.contains(c)) ==> (
        #[trigger] after.clocks.dom().contains((t, p, c)) == db.clocks.dom().contains((t, p, c))
            && (db.clocks.dom().contains((t, p, c)) ==> after.clocks[(t, p, c)] == db.clocks[(
            t,
            p,
            c,
        )]))
}

/// Whether the clock entry of a column is of a given version, by this site, of the database
/// version `db_ver`, and at the place `seq` within it.
pub open spec fn stamped(
    after: Database,
    table: Seq<char>,
    pk: Seq<char>,
    column: Seq<char>,
    col_ver: int,
    db_ver: i64,
    site: Seq<u8>,
    seq: int,
) -> bool {
    &&& after.clocks.dom().contains((table, pk, column))
    &&& after.clocks[(table, pk, column)].col_ver == col_ver
    &&& after.clocks[(table, pk, column)].db_ver == db_ver
    &&& after.clocks[(table, pk, column)].site_id == site
    &&& after.clocks[(table, pk, column)].seq == seq
}

/// Whether a column is not listed again after a place.
pub open spec fn listed_last(columns: Seq<Seq<char>>, i: int) -> bool {
    0 <= i < columns.len() && !columns.skip(i + 1).contains(columns[i])
}

/// A column that is listed is listed last somewhere.
proof fn lemma_listed_last(columns: Seq<Seq<char>>, column: Seq<char>, from: int) -> (i: int)
    requires
        0 <= from <= columns.len(),
        columns.skip(from).contains(column),
    ensures
        from <= i,
        listed_last(columns, i),
        columns[i] == column,
    decreases columns.len() - from,
{
    let rest = columns.skip(from);
    let k = choose|k: int| 0 <= k < rest.len() && rest[k] == column;
    let tail = columns.skip(from + 1);
    if tail.contains(column) {
        lemma_listed_last(columns, column, from + 1)
    } else {
        if k > 0 {
            assert(tail[k - 1] == column);
        }
        from
    }
}

proof fn lemma_seed_columns(
    db: Database,
    order: Order,
    table: Seq<char>,
    pk: Seq<char>,
    columns: Seq<Seq<char>>,
    db_ver: i64,
    site: Seq<u8>,
    from: int,
)
    requires
        db.clock_tables.contains(table),
        0 <= from <= columns.len() <= i64::MAX,
    ensures
        ({
            let (outcome, after) = converse(
                seed_columns_script(table, pk, columns, db_ver, site, from),
                db,
                order,
            );
            &&& outcome == Some(Ok::<(), ErrorView>(()))
            &&& after == (Database { clocks: after.clocks, ..db })
            &&& only_columns(db, after, table, pk, columns.skip(from).to_set())
            &&& forall|i: int|
                from <= i && #[trigger] listed_last(columns, i) ==> stamped(
                    after,
                    table,
                    pk,
                    columns[i],
                    1,
                    db_ver,
                    site,
                    i + 1,
                )
        }),
    decreases columns.len() - from,
{
    let rest = columns.skip(from);
    if from < columns.len() {
        let column = columns[from];
        let stamp = StampView {
            pk,
            column,
            col_ver: 1,
            db_ver,
            site_id: site,
            seq: (from + 1) as i64,
        };
        let next = db.with_clock(table, stamp);
        lemma_seed_columns(next, order, table, pk, columns, db_ver, site, from + 1);
        let after = converse(
            seed_columns_script(table, pk, columns, db_ver, site, from + 1),
            next,
            order,
        ).1;
        let tail = columns.skip(from + 1);
        assert forall|c: Seq<char>| #[trigger] rest.contains(c) <==> c == column || tail.contains(
            c,
        ) by {
            if rest.contains(c) {
                let i = choose|i: int| 0 <= i < rest.len() && rest[i] == c;
                if i > 0 {
                    assert(tail[i - 1] == c);
                }
            }
            if tail.contains(c) {
                let i = choose|i: int| 0 <= i < tail.len() && tail[i] == c;
                assert(rest[i + 1] == c);
            }
            assert(rest[0] == column);
        }
        assert forall|c: Seq<char>| rest.to_set().contains(c) == rest.contains(c) by {}
        assert forall|c: Seq<char>| tail.to_set().contains(c) == tail.contains(c) by {}
        assert forall|i: int| from <= i && #[trigger] listed_last(columns, i) implies stamped(
            after,
            table,
            pk,
            columns[i],
            1,
            db_ver,
            site,
            i + 1,
        ) by {
            if i == from {
                assert(!tail.to_set().contains(column));
                assert(after.clocks.dom().contains((table, pk, column))
                    == next.clocks.dom().contains((table, pk, column)));
            }
        }
        assert(only_columns(db, after, table, pk, rest.to_set())) by {
            assert forall|t: Seq<char>, p: Seq<char>, c: Seq<char>|
                !(t == table && p == pk && rest.to_set().contains(c)) implies (
            #[trigger] after.clocks.dom().contains((t, p, c)) == db.clocks.dom().contains((t, p, c))
                && (db.clocks.dom().contains((t, p, c)) ==> after.clocks[(t, p, c)] == db.clocks[(
                t,
                p,
                c,
            )])) by {
                assert(rest.contains(c) || !tail.contains(c));
                assert(next.clocks.dom().contains((t, p, c)) == db.clocks.dom().contains(
                    (t, p, c),
                ));
            }
        }
    } else {
        assert(rest =~= Seq::empty());
    }
}

/// Tracking a row gives it the causal length and its columns version one, numbered in the order in
/// which they are listed, in one step of the database version; no other clock entry and none of the
/// application's rows change.
pub proof fn law_seed_marks_row(
    db: Database,
    order: Order,
    table: Seq<char>,
    pk: Seq<char>,
    cl: i64,
    columns: Seq<Seq<char>>,
)
    requires
        can_track(db, table),
        columns.len() <= i64::MAX,
        !columns.contains(SENTINEL@),
    ensures
        ({
            let (outcome, after) = converse(seed_script(table, pk, cl, columns), db, order);
            let db_ver = next_version(db);
            &&& outcome == Some(Ok::<(), ErrorView>(()))
            &&& only_clocks(db, after)
            &&& after.version == bumped(db).version
            &&& only_columns(db, after, table, pk, columns.to_set().insert(SENTINEL@))
            &&& stamped(after, table, pk, SENTINEL@, cl as int, db_ver, db.site->0, 0)
            &&& forall|i: int| #[trigger]
                listed_last(columns, i) ==> stamped(
                    after,
                    table,
                    pk,
                    columns[i],
                    1,
                    db_ver,
                    db.site->0,
                    i + 1,
                )
            &&& forall|c: Seq<char>| #[trigger]
                columns.contains(c) ==> after.clocks.dom().contains((table, pk, c))
                    && after.clocks[(table, pk, c)].col_ver == 1 && after.clocks[(
                    table,
                    pk,
                    c,
                )].db_ver == db_ver
        }),
{
    lemma_site(db, order);
    lemma_next_version(db, order);
    let db_ver = next_version(db);
    let site = db.site->0;
    let stamp = crate::tracking::sentinel_stamp(pk, cl, db_ver, site);
    let marked = bumped(db).with_clock(table, stamp);
    lemma_seed_columns(marked, order, table, pk, columns, db_ver, site, 0);
    assert(columns.skip(0) =~= columns);
    let after = converse(seed_script(table, pk, cl, columns), db, order).1;
    assert forall|c: Seq<char>| #[trigger] columns.contains(c) implies after.clocks.dom().contains(
        (table, pk, c),
    ) && after.clocks[(table, pk, c)].col_ver == 1 && after.clocks[(table, pk, c)].db_ver
        == db_ver by {
        let i = lemma_listed_last(columns, c, 0);
        assert(listed_last(columns, i));
    }
    assert(!columns.to_set().contains(SENTINEL@));
    assert(after.clocks.dom().contains((table, pk, SENTINEL@)) == marked.clocks.dom().contains(
        (table, pk, SENTINEL@),
    ));
    assert forall|t: Seq<char>, p: Seq<char>, c: Seq<char>|
        !(t == table && p == pk && columns.to_set().insert(SENTINEL@).contains(c)) implies (
    #[trigger] after.clocks.dom().contains((t, p, c)) == db.clocks.dom().contains((t, p, c)) && (
    db.clocks.dom().contains((t, p, c)) ==> after.clocks[(t, p, c)] == db.clocks[(t, p, c)])) by {
        assert(marked.clocks.dom().contains((t, p, c)) == db.clocks.dom().contains((t, p, c)));
    }
}

proof fn lemma_raise_columns(
    db: Database,
    order: Order,
    table: Seq<char>,
    pk: Seq<char>,
    columns: Seq<Seq<char>>,
    db_ver: i64,
    site: Seq<u8>,
    from: int,
)
    requires
        db.clock_tables.contains(table),
        0 <= from <= columns.len() <= i64::MAX,
        columns.no_duplicates(),
        forall|i: int|
            from <= i < columns.len() ==> ver_of(db, table, pk, #[trigger] columns[i]) < i64::MAX,
    ensures
        ({
            let (outcome, after) = converse(
                raise_columns_script(table, pk, columns, db_ver, site, from),
                db,
                order,
            );
            &&& outcome == Some(Ok::<(), ErrorView>(()))
            &&& after == (Database { clocks: after.clocks, ..db })
            &&& only_columns(db, after, table, pk, columns.skip(from).to_set())
            &&& forall|i: int|
                from <= i < columns.len() ==> stamped(
                    after,
                    table,
                    pk,
                    #[trigger] columns[i],
                    ver_of(db, table, pk, columns[i]) + 1,
                    db_ver,
                    site,
                    i,
                )
        }),
    decreases columns.len() - from,
{
    let rest = columns.skip(from);
    if from < columns.len() {
        let column = columns[from];
        lemma_col_ver(db, order, table, pk, column);
        let ver = ver_of(db, table, pk, column);
        let stamp = StampView {
            pk,
            column,
            col_ver: (ver + 1) as i64,
            db_ver,
            site_id: site,
            seq: from as i64,
        };
        let next = db.with_clock(table, stamp);
        assert forall|i: int| from + 1 <= i < columns.len() implies ver_of(
            next,
            table,
            pk,
            #[trigger] columns[i],
        ) == ver_of(db, table, pk, columns[i]) by {
            assert(columns[i] != column);
        }
        lemma_raise_columns(next, order, table, pk, columns, db_ver, site, from + 1);
        let after = converse(
            raise_columns_script(table, pk, columns, db_ver, site, from + 1),
            next,
            order,
        ).1;
        let tail = columns.skip(from + 1);
        assert forall|c: Seq<char>| #[trigger] tail.contains(c) implies rest.contains(c) by {
            let i = choose|i: int| 0 <= i < tail.len() && tail[i] == c;
            assert(rest[i + 1] == c);
        }
        assert(rest[0] == column);
        assert(rest.contains(column));
        assert(!tail.contains(column)) by {
            if tail.contains(column) {
                let i = choose|i: int| 0 <= i < tail.len() && tail[i] == column;
                assert(columns[from + 1 + i] == column);
            }
        }
        assert forall|c: Seq<char>| rest.to_set().contains(c) == rest.contains(c) by {}
        assert forall|c: Seq<char>| tail.to_set().contains(c) == tail.contains(c) by {}
        assert(after.clocks.dom().contains((table, pk, column)) == next.clocks.dom().contains(
            (table, pk, column),
        ));
        assert(only_columns(db, after, table, pk, rest.to_set())) by {
            assert forall|t: Seq<char>, p: Seq<char>, c: Seq<char>|
                !(t == table && p == pk && rest.to_set().contains(c)) implies (
            #[trigger] after.clocks.dom().contains((t, p, c)) == db.clocks.dom().contains((t, p, c))
                && (db.clocks.dom().contains((t, p, c)) ==> after.clocks[(t, p, c)] == db.clocks[(
                t,
                p,
                c,
            )])) by {
                assert(rest.contains(c) || !tail.contains(c));
                assert(next.clocks.dom().contains((t, p, c)) == db.clocks.dom().contains(
                    (t, p, c),
                ));
            }
        }
    } else {
        assert(rest =~= Seq::empty());
    }
}

/// Tracking an update raises the version of each changed column by one, numbered in the order in
/// which they are listed, in one step of the database version; no other clock entry and none of the application's rows change.
pub proof fn law_update_raises_columns(
    db: Database,
    order: Order,
    table: Seq<char>,
    pk: Seq<char>,
    columns: Seq<Seq<char>>,
)
    requires
        can_track(db, table),
        columns.len() <= i64::MAX,
        columns.no_duplicates(),
        forall|i: int|
            0 <= i < columns.len() ==> ver_of(db, table, pk, #[trigger] columns[i]) < i64::MAX,
    ensures
        ({
            let (outcome, after) = converse(update_script(table, pk, columns), db, order);
            &&& outcome == Some(Ok::<(), ErrorView>(()))
            &&& only_clocks(db, after)
            &&& after.version == bumped(db).version
            &&& only_columns(db, after, table, pk, columns.to_set())
            &&& forall|i: int|
                0 <= i < columns.len() ==> stamped(
                    after,
                    table,
                    pk,
                    #[trigger] columns[i],
                    ver_of(db, table, pk, columns[i]) + 1,
                    next_version(db),
                    db.site->0,
                    i,
                )
        }),
{
    lemma_site(db, order);
    lemma_next_version(db, order);
    let start = bumped(db);
    assert forall|c: Seq<char>| ver_of(start, table, pk, c) == ver_of(db, table, pk, c) by {}
    lemma_raise_columns(start, order, table, pk, columns, next_version(db), db.site->0, 0);
    assert(columns.skip(0) =~= columns);
}

/// Tracking a deletion takes the causal length of the row to the next even number above it, so
/// that the row is dead; its column clocks are preserved.
pub proof fn law_delete_marks_row_dead(
    db: Database,
    order: Order,
    table: Seq<char>,
    pk: Seq<char>,
)
    requires
        can_track(db, table),
        0 <= length_of(db, table, pk) < i64::MAX - 1,
    ensures
        ({
            let (outcome, after) = converse(track_delete_script(table, pk), db, order);
            &&& outcome == Some(Ok::<(), ErrorView>(()))
            &&& only_clocks(db, after)
            &&& after.version == bumped(db).version
            &&& only_columns(db, after, table, pk, set![SENTINEL@])
            &&& stamped(
                after,
                table,
                pk,
                SENTINEL@,
                deleted_length(length_of(db, table, pk)),
                next_version(db),
                db.site->0,
                0,
            )
            &&& gone(length_of(after, table, pk))
            &&& length_of(after, table, pk) > length_of(db, table, pk)
            &&& forall|cl: i64|
                length_of(db, table, pk) < cl < length_of(after, table, pk) ==> !#[trigger] gone(cl)
        }),
{
    lemma_site(db, order);
    lemma_next_version(db, order);
    let start = bumped(db);
    lemma_col_ver(start, order, table, pk, SENTINEL@);
    assert(length_of(start, table, pk) == length_of(db, table, pk));
}

/// Adopting a row that is not in its table, or is tracked as alive, changes nothing, nor does
/// adopting a key text without a value for each key column. Adopting any other row brings its causal
/// length to the next one, which is that of a living row, with its columns at version one.
pub proof fn law_adopt_repairs_row(
    tables: Seq<TableView>,
    db: Database,
    order: Order,
    table: TableView,
    pk: Seq<char>,
    columns: Seq<Seq<char>>,
)
    requires
        table_of(tables, table.name) == Some(table),
        can_track(db, table.name),
        db.tables.contains(table.name),
        columns.len() <= i64::MAX,
        !columns.contains(SENTINEL@),
        length_of(db, table.name, pk) >= 0,
    ensures
        ({
            let (outcome, after) = converse(
                adopt_script(tables, table.name, pk, columns),
                db,
                order,
            );
            let cl = length_of(db, table.name, pk);
            &&& outcome == Some(Ok::<(), ErrorView>(()))
            &&& !decodes(table.pk, pk) || !db.rows.contains((table.name, key_of(table.pk, pk)))
                || alive(cl) ==> after == db
            &&& decodes(table.pk, pk) && db.rows.contains((table.name, key_of(table.pk, pk))) && !alive(cl) ==> {
                &&& after == converse(
                    seed_script(table.name, pk, (cl + 1) as i64, columns),
                    db,
                    order,
                ).1
                &&& length_of(after, table.name, pk) == cl + 1
                &&& alive(length_of(after, table.name, pk))
                &&& forall|c: Seq<char>| #[trigger]
                    columns.contains(c) ==> ver_of(after, table.name, pk, c) == 1
            }
        }),
{
    let cl = length_of(db, table.name, pk);
    lemma_col_ver(db, order, table.name, pk, SENTINEL@);
    if !alive(cl) {
        law_seed_marks_row(db, order, table.name, pk, (cl + 1) as i64, columns);
    }
}

/// A row that was tracked as alive is alive, also where its sentinel is listed as a column; the
/// application's rows are as they were.
proof fn lemma_seeded_alive(
    db: Database,
    order: Order,
    table: Seq<char>,
    pk: Seq<char>,
    cl: i64,
    columns: Seq<Seq<char>>,
)
    requires
        alive(cl),
        columns.len() <= i64::MAX,
        converse(seed_script(table, pk, cl, columns), db, order).0 == Some(
            Ok::<(), ErrorView>(()),
        ),
    ensures
        ({
            let after = converse(seed_script(table, pk, cl, columns), db, order).1;
            &&& after.rows == db.rows
            &&& after.tables == db.tables
            &&& after.clock_tables.contains(table)
            &&& alive(length_of(after, table, pk))
        }),
{
    let (site, sited) = converse(site_script(), db, order);
    assert(site is Some && site->0 is Ok);
    assert(sited == (Database { site: sited.site, ..db }));
    let (db_ver, counted) = converse(next_version_script(), sited, order);
    assert(db_ver is Some && db_ver->0 is Ok);
    assert(counted == (Database { version: counted.version, ..sited }));
    let stamp = crate::tracking::sentinel_stamp(pk, cl, db_ver->0->Ok_0, site->0->Ok_0);
    let marked = counted.with_clock(table, stamp);
    assert(db.clock_tables.contains(table));
    lemma_seed_columns(
        marked,
        order,
        table,
        pk,
        columns,
        db_ver->0->Ok_0,
        site->0->Ok_0,
        0,
    );
    assert(columns.skip(0) =~= columns);
    let after = converse(seed_script(table, pk, cl, columns), db, order).1;
    if columns.contains(SENTINEL@) {
        let i = lemma_listed_last(columns, SENTINEL@, 0);
        assert(listed_last(columns, i));
    } else {
        assert(!columns.to_set().contains(SENTINEL@));
        assert(after.clocks.dom().contains((table, pk, SENTINEL@)) == marked.clocks.dom().contains(
            (table, pk, SENTINEL@),
        ));
    }
}

/// Repeated adoption is harmless: once a row was adopted, adopting it again changes nothing,
/// whatever the table, the key and the columns.
pub proof fn law_adopt_again_changes_nothing(
    tables: Seq<TableView>,
    db: Database,
    order: Order,
    table: Seq<char>,
    pk: Seq<char>,
    columns: Seq<Seq<char>>,
)
    requires
        columns.len() <= i64::MAX,
        length_of(db, table, pk) >= 0,
        converse(adopt_script(tables, table, pk, columns), db, order).0 == Some(
            Ok::<(), ErrorView>(()),
        ),
    ensures
        ({
            let once = converse(adopt_script(tables, table, pk, columns), db, order).1;
            converse(adopt_script(tables, table, pk, columns), once, order) == (
                Some(Ok::<(), ErrorView>(())),
                once,
            )
        }),
{
    let once = converse(adopt_script(tables, table, pk, columns), db, order).1;
    let (present, same) = converse(exists_script(tables, table, pk), db, order);
    assert(present is Some && same == db);
    if present->0 {
        let (cl, again) = converse(col_ver_script(table, pk, SENTINEL@), db, order);
        assert(cl is Some && again == db && cl->0 >= 0);
        if !alive(cl->0) {
            let next = (cl->0 + 1) as i64;
            assert(converse(adopt_script(tables, table, pk, columns), db, order) == converse(
                seed_script(table, pk, next, columns),
                db,
                order,
            ));
            lemma_seeded_alive(db, order, table, pk, next, columns);
            lemma_col_ver(once, order, table, pk, SENTINEL@);
            assert(converse(exists_script(tables, table, pk), once, order) == (
                Some(true),
                once,
            ));
        }
    }
}

/// Whether the values that a row is given fit in memory as JSON.
pub open spec fn fits(given: Seq<(Seq<char>, SqlValue)>) -> bool {
    forall|i: int| 0 <= i < given.len() ==> storable((#[trigger] given[i]).1)
}

proof fn lemma_given_fits(given: Seq<(Seq<char>, SqlValue)>, column: Seq<char>)
    requires
        fits(given),
    ensures
        given_value(given, column) matches Some(value) ==> storable(value),
    decreases given.len(),
{
    if given.len() > 0 {
        let rest = given.drop_last();
        assert forall|i: int| 0 <= i < rest.len() implies storable((#[trigger] rest[i]).1) by {
            assert(rest[i] == given[i]);
        }
        lemma_given_fits(rest, column);
        assert(given.last() == given[given.len() - 1]);
    }
}

/// A row that the application inserted is now tracked as alive with the causal length `cl`: its
/// columns are written with the values that it was given, the replica is sound, and no other row
/// has changed.
pub open spec fn taken_up(
    tables: Seq<TableView>,
    db: Database,
    inserted: Database,
    after: Database,
    table: TableView,
    pk: Seq<char>,
    columns: Seq<Seq<char>>,
    cl: int,
) -> bool {
    let row = row_of(after, table, pk);
    &&& sound(after, tables)
    &&& only_row(db, after, table, pk)
    &&& ages(db, after, 1)
    &&& admits(tables, db, after)
    &&& row.cl == cl
    &&& alive(row.cl)
    &&& forall|c: Seq<char>| #[trigger]
        columns.contains(c) ==> row.cells.dom().contains(c) && row.cells[c].ver == 1
            && row.cells[c].text == json_of(
            (inserted.cells)(table.name, key_of(table.pk, pk), c),
        ).text()
    &&& length_of(db, table.name, pk) == 0 ==> forall|c: Seq<char>| #[trigger]
        row.cells.dom().contains(c) ==> columns.contains(c)
}

proof fn lemma_taken_up(
    tables: Seq<TableView>,
    db: Database,
    order: Order,
    table: TableView,
    pk: Seq<char>,
    given: Seq<(Seq<char>, SqlValue)>,
    columns: Seq<Seq<char>>,
    cl: i64,
)
    requires
        sound(db, tables),
        table_of(tables, table.name) == Some(table),
        decodes(table.pk, pk),
        gone(length_of(db, table.name, pk)),
        alive(cl),
        fits(given),
        columns.len() <= i64::MAX,
        !columns.contains(SENTINEL@),
        forall|c: Seq<char>| #[trigger] columns.contains(c) ==> tracks(tables, table.name, c),
    ensures
        ({
            let inserted = db.with_row(table.name, key_of(table.pk, pk), given);
            let after = converse(seed_script(table.name, pk, cl, columns), inserted, order).1;
            taken_up(tables, db, inserted, after, table, pk, columns, cl as int)
        }),
{
    let key = key_of(table.pk, pk);
    let inserted = db.with_row(table.name, key, given);
    assert(table_kept(db, table));
    assert(row_kept(db, table, pk));
    law_seed_marks_row(inserted, order, table.name, pk, cl, columns);
    let after = converse(seed_script(table.name, pk, cl, columns), inserted, order).1;
    assert forall|c: Seq<char>| columns.to_set().contains(c) == columns.contains(c) by {}
    assert forall|c: Seq<char>|
        c != SENTINEL@ && !columns.contains(c) implies #[trigger] after.clocks.dom().contains(
        (table.name, pk, c),
    ) == db.clocks.dom().contains((table.name, pk, c)) && (db.clocks.dom().contains(
        (table.name, pk, c),
    ) ==> after.clocks[(table.name, pk, c)] == db.clocks[(table.name, pk, c)]) by {
        assert(!columns.to_set().insert(SENTINEL@).contains(c));
    }
    assert(length_of(after, table.name, pk) == cl);
    assert(row_kept(after, table, pk)) by {
        assert forall|c: Seq<char>| #[trigger]
            after.clocks.dom().contains((table.name, pk, c)) implies length_of(
            after,
            table.name,
            pk,
        ) >= 1 && after.clocks[(table.name, pk, c)].col_ver >= 0 by {
            if c != SENTINEL@ && !columns.contains(c) {
                assert(db.clocks.dom().contains((table.name, pk, c)));
            }
        }
    }
    assert forall|column: Seq<char>| storable(
        #[trigger] (after.cells)(table.name, key, column),
    ) by {
        lemma_given_fits(given, column);
        lemma_key_value_fits(key, column);
        assert(storable((db.defaults)(table.name, column)));
        assert(storable((db.cells)(table.name, key, column)));
    }
    assert(only_row(db, after, table, pk)) by {
        assert forall|t: Seq<char>, p: Seq<char>, c: Seq<char>|
            !(t == table.name && p == pk) implies (#[trigger] after.clocks.dom().contains((t, p, c))
            == db.clocks.dom().contains((t, p, c)) && (db.clocks.dom().contains((t, p, c))
            ==> after.clocks[(t, p, c)] == db.clocks[(t, p, c)])) by {
            assert(inserted.clocks.dom().contains((t, p, c)) == db.clocks.dom().contains(
                (t, p, c),
            ));
        }
    }
    lemma_sound_again(db, after, tables, table, pk);
    let row = row_of(after, table, pk);
    assert forall|c: Seq<char>| #[trigger] columns.contains(c) implies row.cells.dom().contains(c)
        && row.cells[c].ver == 1 && row.cells[c].text == json_of(
        (inserted.cells)(table.name, key, c),
    ).text() by {
        assert(was_written(after, table, pk, c));
    }
    if length_of(db, table.name, pk) == 0 {
        assert forall|c: Seq<char>| #[trigger] row.cells.dom().contains(c) implies columns.contains(
            c,
        ) by {
            assert(!db.clocks.dom().contains((table.name, pk, c)));
            assert(after.clocks.dom().contains((table.name, pk, c)));
        }
    }
}

/// A row that the application inserts and tracks is alive with the causal length one, its columns
/// are written with the values that it was given, and the replica stays sound; no other row
/// changes.
pub proof fn law_tracked_insert(
    tables: Seq<TableView>,
    db: Database,
    order: Order,
    table: TableView,
    pk: Seq<char>,
    given: Seq<(Seq<char>, SqlValue)>,
    columns: Seq<Seq<char>>,
)
    requires
        sound(db, tables),
        table_of(tables, table.name) == Some(table),
        decodes(table.pk, pk),
        gone(length_of(db, table.name, pk)),
        fits(given),
        columns.len() <= i64::MAX,
        !columns.contains(SENTINEL@),
        forall|c: Seq<char>| #[trigger] columns.contains(c) ==> tracks(tables, table.name, c),
    ensures
        ({
            let inserted = db.with_row(table.name, key_of(table.pk, pk), given);
            let after = converse(seed_script(table.name, pk, 1, columns), inserted, order).1;
            taken_up(tables, db, inserted, after, table, pk, columns, 1)
        }),
{
    lemma_taken_up(tables, db, order, table, pk, given, columns, 1);
}

/// A row that the application inserted without tracking it is repaired by adopting it: it is alive
/// with a causal length past that of its last deletion, its columns are written with the values
/// that it was given, and the replica is sound; no other row changes.
pub proof fn law_adopted_insert(
    tables: Seq<TableView>,
    db: Database,
    order: Order,
    table: TableView,
    pk: Seq<char>,
    given: Seq<(Seq<char>, SqlValue)>,
    columns: Seq<Seq<char>>,
)
    requires
        sound(db, tables),
        table_of(tables, table.name) == Some(table),
        decodes(table.pk, pk),
        gone(length_of(db, table.name, pk)),
        fits(given),
        columns.len() <= i64::MAX,
        !columns.contains(SENTINEL@),
        forall|c: Seq<char>| #[trigger] columns.contains(c) ==> tracks(tables, table.name, c),
    ensures
        ({
            let inserted = db.with_row(table.name, key_of(table.pk, pk), given);
            let after = converse(
                adopt_script(tables, table.name, pk, columns),
                inserted,
                order,
            ).1;
            let cl = length_of(db, table.name, pk) + 1;
            taken_up(tables, db, inserted, after, table, pk, columns, cl)
        }),
{
    let inserted = db.with_row(table.name, key_of(table.pk, pk), given);
    let cl = length_of(db, table.name, pk);
    assert(table_kept(db, table));
    assert(row_kept(db, table, pk));
    assert(length_of(inserted, table.name, pk) == cl);
    lemma_taken_up(tables, db, order, table, pk, given, columns, (cl + 1) as i64);
    law_adopt_repairs_row(tables, inserted, order, table, pk, columns);
}

/// A database with other values in a row.
pub open spec fn with_values(
    db: Database,
    table: Seq<char>,
    key: Key,
    values: spec_fn(Seq<char>) -> SqlValue,
) -> Database {
    Database {
        cells: |t: Seq<char>, k: Key, c: Seq<char>|
            if t == table && k == key {
                values(c)
            } else {
                (db.cells)(t, k, c)
            },
        ..db
    }
}

/// A living row that the application updates and tracks lives on with the new values, each of
/// which wins over the one that it took the place of, and the replica stays sound; no other row
/// changes.
pub proof fn law_tracked_update(
    tables: Seq<TableView>,
    db: Database,
    order: Order,
    table: TableView,
    pk: Seq<char>,
    values: spec_fn(Seq<char>) -> SqlValue,
    columns: Seq<Seq<char>>,
)
    requires
        sound(db, tables),
        table_of(tables, table.name) == Some(table),
        decodes(table.pk, pk),
        alive(length_of(db, table.name, pk)),
        forall|c: Seq<char>| storable(#[trigger] values(c)),
        columns.len() <= i64::MAX,
        columns.no_duplicates(),
        !columns.contains(SENTINEL@),
        forall|i: int|
            0 <= i < columns.len() ==> ver_of(db, table.name, pk, #[trigger] columns[i])
                < i64::MAX,
        forall|c: Seq<char>| #[trigger] columns.contains(c) ==> tracks(tables, table.name, c),
    ensures
        ({
            let updated = with_values(db, table.name, key_of(table.pk, pk), values);
            let after = converse(update_script(table.name, pk, columns), updated, order).1;
            let was = row_of(db, table, pk);
            let is = row_of(after, table, pk);
            &&& sound(after, tables)
            &&& only_row(db, after, table, pk)
            &&& ages(db, after, 1)
            &&& admits(tables, db, after)
            &&& is.cl == was.cl
            &&& forall|i: int|
                0 <= i < columns.len() ==> is.cells.dom().contains(#[trigger] columns[i])
                    && is.cells[columns[i]].text == json_of(values(columns[i])).text() && (
                was.cells.dom().contains(columns[i]) ==> outranks(
                    is.cells[columns[i]],
                    was.cells[columns[i]],
                ))
        }),
{
    let key = key_of(table.pk, pk);
    let updated = with_values(db, table.name, key, values);
    assert(table_kept(db, table));
    assert(row_kept(db, table, pk));
    assert forall|c: Seq<char>| ver_of(updated, table.name, pk, c) == ver_of(
        db,
        table.name,
        pk,
        c,
    ) by {}
    law_update_raises_columns(updated, order, table.name, pk, columns);
    let after = converse(update_script(table.name, pk, columns), updated, order).1;
    assert forall|c: Seq<char>| columns.to_set().contains(c) == columns.contains(c) by {}
    assert(!columns.to_set().contains(SENTINEL@));
    assert(after.clocks.dom().contains((table.name, pk, SENTINEL@)) == db.clocks.dom().contains(
        (table.name, pk, SENTINEL@),
    ));
    assert(length_of(after, table.name, pk) == length_of(db, table.name, pk));
    assert(row_kept(after, table, pk)) by {
        assert forall|c: Seq<char>| #[trigger]
            after.clocks.dom().contains((table.name, pk, c)) implies length_of(
            after,
            table.name,
            pk,
        ) >= 1 && after.clocks[(table.name, pk, c)].col_ver >= 0 by {
            if columns.contains(c) {
                let i = choose|i: int| 0 <= i < columns.len() && columns[i] == c;
                assert(stamped(
                    after,
                    table.name,
                    pk,
                    columns[i],
                    ver_of(updated, table.name, pk, columns[i]) + 1,
                    next_version(updated),
                    updated.site->0,
                    i,
                ));
                if db.clocks.dom().contains((table.name, pk, c)) {
                    assert(db.clocks[(table.name, pk, c)].col_ver >= 0);
                }
            } else {
                assert(!columns.to_set().contains(c));
                assert(db.clocks.dom().contains((table.name, pk, c)));
            }
        }
    }
    assert forall|column: Seq<char>| storable(
        #[trigger] (after.cells)(table.name, key, column),
    ) by {
        assert(storable(values(column)));
    }
    assert(only_row(db, after, table, pk)) by {
        assert forall|t: Seq<char>, p: Seq<char>, c: Seq<char>|
            !(t == table.name && p == pk) implies (#[trigger] after.clocks.dom().contains((t, p, c))
            == db.clocks.dom().contains((t, p, c)) && (db.clocks.dom().contains((t, p, c))
            ==> after.clocks[(t, p, c)] == db.clocks[(t, p, c)])) by {
            assert(updated.clocks.dom().contains((t, p, c)) == db.clocks.dom().contains(
                (t, p, c),
            ));
        }
    }
    lemma_sound_again(db, after, tables, table, pk);
    let was = row_of(db, table, pk);
    let is = row_of(after, table, pk);
    assert forall|i: int| 0 <= i < columns.len() implies is.cells.dom().contains(
        #[trigger] columns[i],
    ) && is.cells[columns[i]].text == json_of(values(columns[i])).text() && (
    was.cells.dom().contains(columns[i]) ==> outranks(
        is.cells[columns[i]],
        was.cells[columns[i]],
    )) by {
        let c = columns[i];
        assert(columns.contains(c));
        assert(stamped(
            after,
            table.name,
            pk,
            columns[i],
            ver_of(updated, table.name, pk, columns[i]) + 1,
            next_version(updated),
            updated.site->0,
            i,
        ));
        if db.clocks.dom().contains((table.name, pk, c)) {
            assert(db.clocks[(table.name, pk, c)].col_ver >= 0);
        }
        assert(was_written(after, table, pk, c));
        assert(is.cells[c] == written(after, table, pk, c));
    }
}

/// A row that the application deletes and tracks is dead with a greater causal length, and the
/// replica stays sound; no other row changes.
pub proof fn law_tracked_delete(
    tables: Seq<TableView>,
    db: Database,
    order: Order,
    table: TableView,
    pk: Seq<char>,
)
    requires
        sound(db, tables),
        table_of(tables, table.name) == Some(table),
        decodes(table.pk, pk),
        length_of(db, table.name, pk) < i64::MAX - 1,
    ensures
        ({
            let deleted = Database {
                rows: db.rows.remove((table.name, key_of(table.pk, pk))),
                ..db
            };
            let after = converse(track_delete_script(table.name, pk), deleted, order).1;
            &&& sound(after, tables)
            &&& only_row(db, after, table, pk)
            &&& ages(db, after, 1)
            &&& admits(tables, db, after)
            &&& gone(row_of(after, table, pk).cl)
            &&& row_of(after, table, pk).cl > row_of(db, table, pk).cl
        }),
{
    let key = key_of(table.pk, pk);
    let deleted = Database { rows: db.rows.remove((table.name, key)), ..db };
    assert(table_kept(db, table));
    assert(row_kept(db, table, pk));
    assert(length_of(deleted, table.name, pk) == length_of(db, table.name, pk));
    law_delete_marks_row_dead(deleted, order, table.name, pk);
    let after = converse(track_delete_script(table.name, pk), deleted, order).1;
    assert(row_kept(after, table, pk)) by {
        assert forall|c: Seq<char>| #[trigger]
            after.clocks.dom().contains((table.name, pk, c)) implies length_of(
            after,
            table.name,
            pk,
        ) >= 1 && after.clocks[(table.name, pk, c)].col_ver >= 0 by {
            if c != SENTINEL@ {
                assert(!set![SENTINEL@].contains(c));
                assert(db.clocks.dom().contains((table.name, pk, c)));
            }
        }
    }
    assert(only_row(db, after, table, pk)) by {
        assert forall|t: Seq<char>, p: Seq<char>, c: Seq<char>|
            !(t == table.name && p == pk) implies (#[trigger] after.clocks.dom().contains((t, p, c))
            == db.clocks.dom().contains((t, p, c)) && (db.clocks.dom().contains((t, p, c))
            ==> after.clocks[(t, p, c)] == db.clocks[(t, p, c)])) by {
            assert(deleted.clocks.dom().contains((t, p, c)) == db.clocks.dom().contains(
                (t, p, c),
            ));
        }
    }
    assert forall|column: Seq<char>| storable(
        #[trigger] (after.cells)(table.name, key, column),
    ) by {
        assert(storable((db.cells)(table.name, key, column)));
    }
    lemma_sound_again(db, after, tables, table, pk);
}

} // verus!
