//! What holds of every replica that was set up with empty tables and has since only been written to
//! with tracking, been given columns, and merged changes.
use vstd::prelude::*;

use crate::ChangeView;
use crate::alive;
use crate::clock_tables::init_script;
use crate::database::Database;
use crate::database::Order;
use crate::database::converse;
use crate::gone;
use crate::helpers::decodes;
use crate::helpers::key_of;
use crate::json::storable;
use crate::laws::convergence::lemma_meet_unique;
use crate::laws::exports::dated;
use crate::laws::exports::law_nothing_is_told_above_the_version;
use crate::laws::migration::backfilled_at;
use crate::laws::migration::law_add_column_backfills;
use crate::laws::migration::lists_sentinels;
use crate::laws::migration::living_places;
use crate::laws::replica::admits;
use crate::laws::replica::ages;
use crate::laws::replica::bumped;
use crate::laws::replica::law_apply_replays;
use crate::laws::replica::lemma_row_kept;
use crate::laws::replica::lemma_table_of;
use crate::laws::replica::length_of;
use crate::laws::replica::next_version;
use crate::laws::replica::row_kept;
use crate::laws::replica::row_of;
use crate::laws::replica::same_rows;
use crate::laws::replica::same_setup;
use crate::laws::replica::sendable;
use crate::laws::replica::sound;
use crate::laws::replica::table_kept;
use crate::laws::replica::trackable;
use crate::laws::replica::ver_of;
use crate::laws::replica::version_of;
use crate::laws::state::initialized;
use crate::laws::state::law_init_again_changes_nothing;
use crate::laws::state::law_init_of_what_is_set_up;
use crate::laws::state::law_init_sets_up;
use crate::laws::state::lemma_identity_keys;
use crate::laws::state::stored_version;
use crate::laws::state::with_identity;
use crate::laws::sync::incoming;
use crate::laws::sync::law_sync_joins_rows;
use crate::laws::sync::lists_news;
use crate::laws::sync::outgoing;
use crate::laws::sync::tidy;
use crate::laws::tracking::fits;
use crate::laws::tracking::law_adopted_insert;
use crate::laws::tracking::law_tracked_delete;
use crate::laws::tracking::law_tracked_insert;
use crate::laws::tracking::law_tracked_update;
use crate::laws::tracking::with_values;
use crate::laws::upkeep::law_init_makes_sound;
use crate::laws::upkeep::table_unused;
use crate::migrate::add_column_script;
use crate::migrate::live_pks;
use crate::schema::SENTINEL;
use crate::schema::TableView;
use crate::schema::fingerprint_of;
use crate::schema::table_of;
use crate::schema::tracks;
use crate::statement::StatementView;
use crate::tracking::adopt_script;
use crate::tracking::seed_script;
use crate::tracking::track_delete_script;
use crate::tracking::update_script;
use crate::value::ErrorView;
use crate::value::SqlValue;

verus! {

broadcast use lemma_table_of;

/// Something that happens to a replica.
pub enum Deed {
    /// The application inserts a row and tracks it.
    Insert {
        table: Seq<char>,
        pk: Seq<char>,
        given: Seq<(Seq<char>, SqlValue)>,
        columns: Seq<Seq<char>>,
    },
    /// The application inserts a row, and it is adopted.
    Adopt {
        table: Seq<char>,
        pk: Seq<char>,
        given: Seq<(Seq<char>, SqlValue)>,
        columns: Seq<Seq<char>>,
    },
    /// The application updates a row and tracks the columns.
    Update {
        table: Seq<char>,
        pk: Seq<char>,
        values: spec_fn(Seq<char>) -> SqlValue,
        columns: Seq<Seq<char>>,
    },
    /// The application deletes a row and tracks it.
    Delete { table: Seq<char>, pk: Seq<char> },
    /// A column is added, and the rows that live are given clock entries for it.
    AddColumn { table: Seq<char>, column: Seq<char> },
    /// Changes are merged.
    Merge { changes: Seq<ChangeView>, now: Seq<char> },
}

/// A replica after something has happened to it.
pub open spec fn done_to(tables: Seq<TableView>, db: Database, order: Order, deed: Deed) -> Database {
    match deed {
        Deed::Insert { table, pk, given, columns } => converse(
            seed_script(table, pk, 1, columns),
            db.with_row(table, key_of(table_of(tables, table)->0.pk, pk), given),
            order,
        ).1,
        Deed::Adopt { table, pk, given, columns } => converse(
            adopt_script(tables, table, pk, columns),
            db.with_row(table, key_of(table_of(tables, table)->0.pk, pk), given),
            order,
        ).1,
        Deed::Update { table, pk, values, columns } => converse(
            update_script(table, pk, columns),
            with_values(db, table, key_of(table_of(tables, table)->0.pk, pk), values),
            order,
        ).1,
        Deed::Delete { table, pk } => converse(
            track_delete_script(table, pk),
            Database {
                rows: db.rows.remove((table, key_of(table_of(tables, table)->0.pk, pk))),
                ..db
            },
            order,
        ).1,
        Deed::AddColumn { table, column } => converse(
            add_column_script(tables, table, column),
            db,
            order,
        ).1,
        Deed::Merge { changes, now } => incoming(tables, db, order, changes, now),
    }
}

/// Whether columns are known ones of a table, and as many as can be numbered.
pub open spec fn known(tables: Seq<TableView>, table: Seq<char>, columns: Seq<Seq<char>>) -> bool {
    &&& columns.len() <= i64::MAX
    &&& !columns.contains(SENTINEL@)
    &&& forall|c: Seq<char>| #[trigger] columns.contains(c) ==> tracks(tables, table, c)
}

/// By how much a deed can raise the version of a replica.
pub open spec fn cost(deed: Deed) -> int {
    match deed {
        Deed::Merge { changes, now } => 2 * changes.len() as int,
        _ => 1,
    }
}

/// Whether something can happen to a replica: an insert is of a row that does not live and an update
/// of one that does, both with columns that are known; keys have a value for each key column; values
/// fit in memory as JSON; the database lists what it is asked for; and the numbers stay those that
/// it can hold.
pub open spec fn feasible(
    tables: Seq<TableView>,
    db: Database,
    order: Order,
    deed: Deed,
) -> bool {
    &&& version_of(db) + cost(deed) <= i64::MAX
    &&& match deed {
        Deed::Insert { table, pk, given, columns } => {
            &&& table_of(tables, table) is Some
            &&& decodes(table_of(tables, table)->0.pk, pk)
            &&& gone(length_of(db, table, pk))
            &&& fits(given)
            &&& known(tables, table, columns)
        },
        Deed::Adopt { table, pk, given, columns } => {
            &&& table_of(tables, table) is Some
            &&& decodes(table_of(tables, table)->0.pk, pk)
            &&& gone(length_of(db, table, pk))
            &&& fits(given)
            &&& known(tables, table, columns)
        },
        Deed::Update { table, pk, values, columns } => {
            &&& table_of(tables, table) is Some
            &&& decodes(table_of(tables, table)->0.pk, pk)
            &&& alive(length_of(db, table, pk))
            &&& forall|c: Seq<char>| storable(#[trigger] values(c))
            &&& known(tables, table, columns)
            &&& columns.no_duplicates()
            &&& forall|i: int|
                0 <= i < columns.len() ==> ver_of(db, table, pk, #[trigger] columns[i]) < i64::MAX
        },
        Deed::Delete { table, pk } => {
            &&& table_of(tables, table) is Some
            &&& decodes(table_of(tables, table)->0.pk, pk)
            &&& length_of(db, table, pk) < i64::MAX - 1
        },
        Deed::AddColumn { table, column } => {
            &&& table_of(tables, table) is Some
            &&& column != SENTINEL@
            &&& tracks(tables, table, column)
            &&& lists_sentinels(db, order, table)
            &&& live_pks(order(db, StatementView::SelectSentinels { table })).len() <= i64::MAX
            &&& stored_version(db) < i64::MAX
        },
        Deed::Merge { changes, now } => {
            forall|i: int| 0 <= i < changes.len() ==> sendable(tables, #[trigger] changes[i])
        },
    }
}

/// A replica after a history, of what was set up from `db`.
pub open spec fn lived(
    tables: Seq<TableView>,
    db: Database,
    order: Order,
    history: Seq<Deed>,
) -> Database
    decreases history.len(),
{
    if history.len() == 0 {
        converse(init_script(tables), db, order).1
    } else {
        done_to(tables, lived(tables, db, order, history.drop_last()), order, history.last())
    }
}

/// Whether each thing in a history could happen when it did.
pub open spec fn plausible(
    tables: Seq<TableView>,
    db: Database,
    order: Order,
    history: Seq<Deed>,
) -> bool
    decreases history.len(),
{
    history.len() > 0 ==> {
        &&& plausible(tables, db, order, history.drop_last())
        &&& feasible(
            tables,
            lived(tables, db, order, history.drop_last()),
            order,
            history.last(),
        )
    }
}

/// Whether a database can be set up as a replica that nothing has happened to yet.
pub open spec fn blank(tables: Seq<TableView>, db: Database) -> bool {
    &&& db.version is None
    &&& db.clocks.dom() =~= Set::empty()
    &&& forall|name: Seq<char>|
        #![trigger table_of(tables, name)]
        table_of(tables, name) is Some ==> table_unused(db, table_of(tables, name)->0)
}

/// Whether a replica is as all that can happen leaves it.
pub open spec fn orderly(tables: Seq<TableView>, db: Database) -> bool {
    sound(db, tables) && tidy(tables, db, 0) && dated(db) && initialized(db, tables) == db
}

proof fn lemma_orderly_again(tables: Seq<TableView>, db: Database, after: Database, steps: int)
    requires
        orderly(tables, db),
        sound(after, tables),
        initialized(after, tables) == after,
        ages(db, after, steps),
        admits(tables, db, after),
        steps >= 0,
        version_of(db) + steps <= i64::MAX,
    ensures
        orderly(tables, after),
{
    assert forall|t: Seq<char>, p: Seq<char>, c: Seq<char>| #[trigger]
        after.clocks.dom().contains((t, p, c)) implies 0 < after.clocks[(t, p, c)].db_ver
        <= version_of(after) by {
        if db.clocks.dom().contains((t, p, c)) {
            assert(db.clocks[(t, p, c)].db_ver <= version_of(db));
        }
    }
    assert forall|name: Seq<char>, pk: Seq<char>, column: Seq<char>|
        table_of(tables, name) is Some && #[trigger] after.clocks.dom().contains(
            (name, pk, column),
        ) implies {
        &&& after.clocks[(name, pk, column)].db_ver > 0
        &&& decodes(table_of(tables, name)->0.pk, pk)
        &&& tracks(tables, name, column)
    } by {
        if db.clocks.dom().contains((name, pk, column)) {
            assert(decodes(table_of(tables, name)->0.pk, pk));
        }
    }
}

/// What is set up for a schema stays so while its setup stays as it was.
proof fn lemma_set_up(tables: Seq<TableView>, db: Database, after: Database)
    requires
        initialized(db, tables) == db,
        same_setup(db, after),
        after.version is Some,
    ensures
        initialized(after, tables) == after,
{
    assert(initialized(db, tables).clock_tables == db.clock_tables);
    assert(initialized(db, tables).state == db.state);
    assert(initialized(after, tables).state == initialized(db, tables).state);
}

proof fn lemma_added_keeps(
    tables: Seq<TableView>,
    db: Database,
    after: Database,
    table: Seq<char>,
    column: Seq<char>,
)
    requires
        orderly(tables, db),
        table_of(tables, table) is Some,
        column != SENTINEL@,
        tracks(tables, table, column),
        version_of(db) < i64::MAX,
        after == (Database {
            clocks: after.clocks,
            version: after.version,
            state: after.state,
            ..db
        }),
        after.state == with_identity(
            db,
            (stored_version(db) + 1) as i64,
            fingerprint_of(tables),
        ).state,
        after.version == (if exists|pk: Seq<char>| alive(#[trigger] length_of(db, table, pk)) {
            bumped(db).version
        } else {
            db.version
        }),
        forall|t: Seq<char>, p: Seq<char>| #[trigger]
            length_of(after, t, p) == length_of(db, t, p),
        forall|t: Seq<char>, p: Seq<char>, c: Seq<char>| #[trigger]
            db.clocks.dom().contains((t, p, c)) ==> after.clocks.dom().contains((t, p, c))
                && after.clocks[(t, p, c)] == db.clocks[(t, p, c)],
        forall|t: Seq<char>, p: Seq<char>, c: Seq<char>| #[trigger]
            after.clocks.dom().contains((t, p, c)) && !db.clocks.dom().contains((t, p, c)) ==> {
                &&& t == table
                &&& c == column
                &&& alive(length_of(db, t, p))
                &&& after.clocks[(t, p, c)].col_ver == 1
                &&& after.clocks[(t, p, c)].db_ver == next_version(db)
            },
    ensures
        orderly(tables, after),
{
    assert(ages(db, after, 1)) by {
        assert forall|t: Seq<char>, p: Seq<char>, c: Seq<char>| #[trigger]
            after.clocks.dom().contains((t, p, c)) implies {
            ||| db.clocks.dom().contains((t, p, c)) && after.clocks[(t, p, c)].db_ver
                == db.clocks[(t, p, c)].db_ver
            ||| version_of(db) < after.clocks[(t, p, c)].db_ver <= version_of(after)
        } by {
            if !db.clocks.dom().contains((t, p, c)) {
                assert(alive(length_of(db, table, p)));
            }
        }
    }
    assert forall|t: Seq<char>, p: Seq<char>, c: Seq<char>| #[trigger]
        after.clocks.dom().contains((t, p, c)) implies db.clocks.dom().contains((t, p, c))
        || trackable(tables, t, p, c) by {
        if !db.clocks.dom().contains((t, p, c)) {
            assert(db.clocks.dom().contains((t, p, SENTINEL@)));
        }
    }
    assert(initialized(after, tables) == after) by {
        lemma_identity_keys();
        assert(initialized(db, tables).clock_tables == db.clock_tables);
        assert(initialized(after, tables).state =~= after.state);
    }
    assert forall|name: Seq<char>|
        #![trigger table_of(tables, name)]
        table_of(tables, name) is Some implies table_kept(after, table_of(tables, name)->0) by {
        let other = table_of(tables, name)->0;
        assert(table_kept(db, other));
        assert forall|pk: Seq<char>| #[trigger] decodes(other.pk, pk) implies row_kept(
            after,
            other,
            pk,
        ) by {
            assert(row_kept(db, other, pk));
            assert(length_of(after, other.name, pk) == length_of(db, other.name, pk));
        }
    }
    lemma_orderly_again(tables, db, after, 1);
}

/// A replica to which a column is added stays orderly, and keeps its rows and what was written.
pub proof fn lemma_added(
    tables: Seq<TableView>,
    db: Database,
    order: Order,
    table: Seq<char>,
    column: Seq<char>,
)
    requires
        orderly(tables, db),
        feasible(tables, db, order, Deed::AddColumn { table, column }),
    ensures
        ({
            let after = done_to(tables, db, order, Deed::AddColumn { table, column });
            &&& orderly(tables, after)
            &&& after.rows == db.rows
            &&& after.cells == db.cells
            &&& forall|t: Seq<char>, p: Seq<char>| #[trigger]
                length_of(after, t, p) == length_of(db, t, p)
            &&& forall|t: Seq<char>, p: Seq<char>, c: Seq<char>| #[trigger]
                db.clocks.dom().contains((t, p, c)) ==> after.clocks.dom().contains((t, p, c))
                    && after.clocks[(t, p, c)] == db.clocks[(t, p, c)]
        }),
{
    let after = done_to(tables, db, order, Deed::AddColumn { table, column });
    let places = living_places(db, order, table);
    assert(table_kept(db, table_of(tables, table)->0));
    law_add_column_backfills(tables, db, order, table, column);
    assert forall|t: Seq<char>, p: Seq<char>, c: Seq<char>|
        #![trigger after.clocks.dom().contains((t, p, c))]
        #![trigger db.clocks.dom().contains((t, p, c))]
        backfilled_at(
            db,
            after,
            table,
            column,
            places,
            next_version(db),
            db.site->0,
            (t, p, c),
        ) by {}
    assert forall|t: Seq<char>, p: Seq<char>| #[trigger]
        length_of(after, t, p) == length_of(db, t, p) by {
        assert(after.clocks.dom().contains((t, p, SENTINEL@)) == db.clocks.dom().contains(
            (t, p, SENTINEL@),
        ));
    }
    assert forall|t: Seq<char>, p: Seq<char>, c: Seq<char>| #[trigger]
        after.clocks.dom().contains((t, p, c)) && !db.clocks.dom().contains((t, p, c)) implies {
        &&& t == table
        &&& c == column
        &&& alive(length_of(db, t, p))
        &&& after.clocks[(t, p, c)].col_ver == 1
        &&& after.clocks[(t, p, c)].db_ver == next_version(db)
    } by {}
    lemma_added_keeps(tables, db, after, table, column);
}

pub proof fn lemma_done(tables: Seq<TableView>, db: Database, order: Order, deed: Deed)
    requires
        orderly(tables, db),
        feasible(tables, db, order, deed),
    ensures
        orderly(tables, done_to(tables, db, order, deed)),
{
    let after = done_to(tables, db, order, deed);
    match deed {
        Deed::Insert { table, pk, given, columns } => {
            let spec = table_of(tables, table)->0;
            law_tracked_insert(tables, db, order, spec, pk, given, columns);
            lemma_set_up(tables, db, after);
            lemma_orderly_again(tables, db, after, 1);
        },
        Deed::Adopt { table, pk, given, columns } => {
            let spec = table_of(tables, table)->0;
            law_adopted_insert(tables, db, order, spec, pk, given, columns);
            lemma_set_up(tables, db, after);
            lemma_orderly_again(tables, db, after, 1);
        },
        Deed::Update { table, pk, values, columns } => {
            let spec = table_of(tables, table)->0;
            law_tracked_update(tables, db, order, spec, pk, values, columns);
            lemma_set_up(tables, db, after);
            lemma_orderly_again(tables, db, after, 1);
        },
        Deed::Delete { table, pk } => {
            let spec = table_of(tables, table)->0;
            law_tracked_delete(tables, db, order, spec, pk);
            lemma_set_up(tables, db, after);
            lemma_orderly_again(tables, db, after, 1);
        },
        Deed::AddColumn { table, column } => {
            lemma_added(tables, db, order, table, column);
        },
        Deed::Merge { changes, now } => {
            law_apply_replays(tables, db, order, changes, now);
            lemma_set_up(tables, db, after);
            lemma_orderly_again(tables, db, after, 2 * changes.len() as int);
        },
    }
}

/// A replica that was set up with empty tables stays sound, tidy and set up, with all its clock
/// entries of versions up to its own, whatever tracked writes, added columns and merges it goes
/// through.
pub proof fn law_lived_replicas_are_orderly(
    tables: Seq<TableView>,
    db: Database,
    order: Order,
    history: Seq<Deed>,
)
    requires
        blank(tables, db),
        plausible(tables, db, order, history),
    ensures
        orderly(tables, lived(tables, db, order, history)),
    decreases history.len(),
{
    if history.len() == 0 {
        law_init_makes_sound(tables, db, order);
        law_init_sets_up(tables, db, order);
        law_init_again_changes_nothing(tables, db, order);
        let after = initialized(db, tables);
        assert(after.clocks.dom() =~= Set::empty());
    } else {
        law_lived_replicas_are_orderly(tables, db, order, history.drop_last());
        lemma_done(
            tables,
            lived(tables, db, order, history.drop_last()),
            order,
            history.last(),
        );
    }
}

/// Setting up a replica again, whatever tracked writes, added columns and merges it went through
/// since, changes nothing.
pub proof fn law_init_again_after_writes(
    tables: Seq<TableView>,
    db: Database,
    order: Order,
    history: Seq<Deed>,
)
    requires
        blank(tables, db),
        plausible(tables, db, order, history),
    ensures
        converse(init_script(tables), lived(tables, db, order, history), order) == (
            Some(Ok::<(), ErrorView>(())),
            lived(tables, db, order, history),
        ),
{
    law_lived_replicas_are_orderly(tables, db, order, history);
    law_init_of_what_is_set_up(tables, lived(tables, db, order, history), order);
}

/// A replica that was set up with empty tables, whatever tracked writes, added columns and merges it
/// went through since, tells nothing from its own version on.
pub proof fn law_lived_replicas_tell_nothing_from_their_version(
    tables: Seq<TableView>,
    db: Database,
    order: Order,
    history: Seq<Deed>,
    since: i64,
)
    requires
        blank(tables, db),
        plausible(tables, db, order, history),
        version_of(lived(tables, db, order, history)) <= since,
        forall|name: Seq<char>| #[trigger]
            table_of(tables, name) is Some ==> lists_news(
                lived(tables, db, order, history),
                order,
                name,
                since,
            ),
    ensures
        outgoing(tables, lived(tables, db, order, history), order, since).len() == 0,
{
    law_lived_replicas_are_orderly(tables, db, order, history);
    law_nothing_is_told_above_the_version(
        tables,
        lived(tables, db, order, history),
        order,
        since,
    );
}

/// Whether no replica learns anything from what another one tells.
pub open spec fn at_rest(
    tables: Seq<TableView>,
    replicas: Seq<Database>,
    order: Order,
    now: Seq<char>,
) -> bool {
    forall|i: int, j: int|
        #![trigger replicas[i], replicas[j]]
        0 <= i < replicas.len() && 0 <= j < replicas.len() ==> same_rows(
            tables,
            replicas[j],
            incoming(tables, replicas[j], order, outgoing(tables, replicas[i], order, 0), now),
        )
}

/// Two orderly replicas that learn nothing from each other hold the same rows.
pub proof fn lemma_rest_agrees(
    tables: Seq<TableView>,
    a: Database,
    b: Database,
    order: Order,
    now: Seq<char>,
)
    requires
        orderly(tables, a),
        orderly(tables, b),
        forall|name: Seq<char>| #[trigger]
            table_of(tables, name) is Some ==> lists_news(a, order, name, 0) && lists_news(
                b,
                order,
                name,
                0,
            ),
        same_rows(tables, a, incoming(tables, a, order, outgoing(tables, b, order, 0), now)),
        same_rows(tables, b, incoming(tables, b, order, outgoing(tables, a, order, 0), now)),
    ensures
        same_rows(tables, a, b),
{
    law_sync_joins_rows(tables, a, b, order, 0, now);
    law_sync_joins_rows(tables, b, a, order, 0, now);
    let after_a = incoming(tables, a, order, outgoing(tables, b, order, 0), now);
    let after_b = incoming(tables, b, order, outgoing(tables, a, order, 0), now);
    assert(same_rows(tables, a, after_a));
    assert(same_rows(tables, b, after_b));
    assert forall|name: Seq<char>, pk: Seq<char>|
        table_of(tables, name) is Some && decodes(
            table_of(tables, name)->0.pk,
            pk,
        ) implies #[trigger] row_of(a, table_of(tables, name)->0, pk) == row_of(
        b,
        table_of(tables, name)->0,
        pk,
    ) by {
        let table = table_of(tables, name)->0;
        assert(table_kept(a, table));
        assert(table_kept(b, table));
        lemma_row_kept(a, table, pk);
        lemma_row_kept(b, table, pk);
        let row_a = row_of(a, table_of(tables, name)->0, pk);
        let row_b = row_of(b, table_of(tables, name)->0, pk);
        assert(row_a == row_of(after_a, table_of(tables, name)->0, pk));
        assert(row_b == row_of(after_b, table_of(tables, name)->0, pk));
        lemma_meet_unique(row_a, row_b, row_a, row_b);
    }
}

/// Replicas that were set up with empty tables and have each lived through some history of tracked
/// writes, added columns and merges agree on all rows once none of them learns anything from what
/// another one tells: on causal lengths and, of living rows, on the value, version and site of each
/// write.
pub proof fn law_replicas_at_rest_agree(
    tables: Seq<TableView>,
    starts: Seq<Database>,
    histories: Seq<Seq<Deed>>,
    replicas: Seq<Database>,
    order: Order,
    now: Seq<char>,
    i: int,
    j: int,
)
    requires
        starts.len() == replicas.len(),
        histories.len() == replicas.len(),
        forall|k: int|
            #![trigger replicas[k]]
            0 <= k < replicas.len() ==> {
                &&& blank(tables, starts[k])
                &&& plausible(tables, starts[k], order, histories[k])
                &&& replicas[k] == lived(tables, starts[k], order, histories[k])
                &&& forall|name: Seq<char>| #[trigger]
                    table_of(tables, name) is Some ==> lists_news(replicas[k], order, name, 0)
            },
        at_rest(tables, replicas, order, now),
        0 <= i < replicas.len(),
        0 <= j < replicas.len(),
    ensures
        same_rows(tables, replicas[i], replicas[j]),
{
    let a = replicas[i];
    let b = replicas[j];
    law_lived_replicas_are_orderly(tables, starts[i], order, histories[i]);
    law_lived_replicas_are_orderly(tables, starts[j], order, histories[j]);
    lemma_rest_agrees(tables, a, b, order, now);
}

} // verus!
