//! Laws of the sync state and of setting up a database.
use vstd::prelude::*;

use crate::clock_tables::clock_tables_script;
use crate::clock_tables::init_rest_script;
use crate::clock_tables::init_script;
use crate::database::Database;
use crate::database::Order;
use crate::database::converse;
use crate::database::group_converse;
use crate::flow::command;
use crate::schema::TableView;
use crate::schema::fingerprint_of;
use crate::state::SCHEMA_FINGERPRINT_KEY;
use crate::state::SCHEMA_VERSION_KEY;
use crate::state::big_endian;
use crate::state::bump_script;
use crate::state::lemma_big_endian;
use crate::state::lemma_signed_bytes;
use crate::state::next_version_script;
use crate::state::schema_version_script;
use crate::state::signed_bytes;
use crate::state::signed_number;
use crate::state::site_script;
use crate::state::state_script;
use crate::state::store_fingerprint_script;
use crate::state::stored_fingerprint_script;
use crate::state::version_script;
use crate::statement::StatementView;
use crate::value::ErrorView;
use crate::value::SqlValue;

verus! {

broadcast use group_converse;

/// What is stored in the sync state under a key is what is read from it, and what is stored under
/// other keys stays.
pub proof fn law_sync_state_reads_back(
    db: Database,
    order: Order,
    key: Seq<char>,
    value: Seq<u8>,
    other: Seq<char>,
)
    ensures
        ({
            let (outcome, after) = converse(
                command(StatementView::PutState { key, value }),
                db,
                order,
            );
            &&& outcome == Some(Ok::<(), ErrorView>(()))
            &&& converse(state_script(key), after, order) == (Some(Some(value)), after)
            &&& other != key ==> converse(state_script(other), after, order).0 == converse(
                state_script(other),
                db,
                order,
            ).0
        }),
{
}

/// The schema version that a database holds, zero where it holds none.
pub open spec fn stored_version(db: Database) -> i64 {
    if db.state.dom().contains(SCHEMA_VERSION_KEY@) {
        match signed_number(db.state[SCHEMA_VERSION_KEY@]) {
            Some(version) => version,
            None => 0,
        }
    } else {
        0
    }
}

/// A database with a schema version and a fingerprint.
pub open spec fn with_identity(db: Database, version: i64, fingerprint: u64) -> Database {
    Database {
        state: db.state.insert(SCHEMA_VERSION_KEY@, signed_bytes(version)).insert(
            SCHEMA_FINGERPRINT_KEY@,
            big_endian(fingerprint),
        ),
        ..db
    }
}

/// The two keys of the schema's identity differ.
pub proof fn lemma_identity_keys()
    ensures
        SCHEMA_VERSION_KEY@ != SCHEMA_FINGERPRINT_KEY@,
{
    reveal_strlit("schema_version");
    reveal_strlit("schema_fingerprint");
    assert(SCHEMA_VERSION_KEY@.len() != SCHEMA_FINGERPRINT_KEY@.len());
}

/// Raising the schema version leaves it one higher and stores the fingerprint of the schema; the
/// two are then read back.
pub proof fn law_bump_raises_version(tables: Seq<TableView>, db: Database, order: Order)
    requires
        stored_version(db) < i64::MAX,
    ensures
        ({
            let next = (stored_version(db) + 1) as i64;
            let (outcome, after) = converse(bump_script(tables), db, order);
            &&& outcome == Some(Ok::<i64, ErrorView>(next))
            &&& after == with_identity(db, next, fingerprint_of(tables))
            &&& converse(schema_version_script(), after, order) == (Some(next), after)
            &&& converse(stored_fingerprint_script(), after, order) == (
                Some(Some(fingerprint_of(tables))),
                after,
            )
        }),
{
    lemma_identity_keys();
    let next = (stored_version(db) + 1) as i64;
    lemma_signed_bytes(next);
    lemma_big_endian(fingerprint_of(tables), Seq::empty());
    assert(converse(schema_version_script(), db, order) == (Some(stored_version(db)), db));
}

/// A database with the fingerprint of a schema, and the schema version one if it had none.
pub open spec fn with_fingerprint(db: Database, tables: Seq<TableView>) -> Database {
    let stored = db.state.insert(SCHEMA_FINGERPRINT_KEY@, big_endian(fingerprint_of(tables)));
    Database {
        state: if db.state.dom().contains(SCHEMA_VERSION_KEY@) {
            stored
        } else {
            stored.insert(SCHEMA_VERSION_KEY@, signed_bytes(1))
        },
        ..db
    }
}

/// Storing the fingerprint leaves the schema version as it is, or starts it at one.
pub proof fn law_fingerprint_is_stored(tables: Seq<TableView>, db: Database, order: Order)
    ensures
        ({
            let (outcome, after) = converse(store_fingerprint_script(tables), db, order);
            &&& outcome == Some(Ok::<(), ErrorView>(()))
            &&& after == with_fingerprint(db, tables)
            &&& converse(stored_fingerprint_script(), after, order) == (
                Some(Some(fingerprint_of(tables))),
                after,
            )
            &&& stored_version(after) == (if db.state.dom().contains(SCHEMA_VERSION_KEY@) {
                stored_version(db)
            } else {
                1
            })
        }),
{
    lemma_identity_keys();
    lemma_signed_bytes(1);
    lemma_big_endian(fingerprint_of(tables), Seq::empty());
}

/// The names of all tables from the one at `from` on.
pub open spec fn names_from(tables: Seq<TableView>, from: int) -> Set<Seq<char>> {
    Set::new(|name: Seq<char>| exists|i: int| from <= i < tables.len() && tables[i].name == name)
}

proof fn lemma_clock_tables(tables: Seq<TableView>, db: Database, order: Order, from: int)
    requires
        0 <= from <= tables.len(),
    ensures
        converse(clock_tables_script(tables, from), db, order) == (
            Some(Ok::<(), ErrorView>(())),
            Database { clock_tables: db.clock_tables.union(names_from(tables, from)), ..db },
        ),
    decreases tables.len() - from,
{
    if from < tables.len() {
        let made = Database { clock_tables: db.clock_tables.insert(tables[from].name), ..db };
        lemma_clock_tables(tables, made, order, from + 1);
        assert forall|name: Seq<char>| #[trigger] names_from(tables, from).contains(name) == (name
            == tables[from].name || names_from(tables, from + 1).contains(name)) by {
            if names_from(tables, from).contains(name) && name != tables[from].name {
                let i = choose|i: int| from <= i < tables.len() && tables[i].name == name;
                assert(from + 1 <= i);
            }
            if names_from(tables, from + 1).contains(name) {
                let i = choose|i: int| from + 1 <= i < tables.len() && tables[i].name == name;
                assert(from <= i);
            }
        }
        assert(made.clock_tables.union(names_from(tables, from + 1)) =~= db.clock_tables.union(
            names_from(tables, from),
        ));
    } else {
        assert(names_from(tables, from) =~= Set::empty());
        assert(db.clock_tables.union(names_from(tables, from)) =~= db.clock_tables);
    }
}

/// A database that was set up for a schema.
pub open spec fn initialized(db: Database, tables: Seq<TableView>) -> Database {
    with_fingerprint(
        Database {
            version: Some(
                match db.version {
                    Some(version) => version,
                    None => SqlValue::Integer(0),
                },
            ),
            site: Some(
                match db.site {
                    Some(site) => site,
                    None => db.draw,
                },
            ),
            clock_tables: db.clock_tables.union(names_from(tables, 0)),
            ..db
        },
        tables,
    )
}

/// Setting up a database gives it a version, a site and the clock tables that it lacks, and stores
/// the fingerprint of the schema.
pub proof fn law_init_sets_up(tables: Seq<TableView>, db: Database, order: Order)
    ensures
        converse(init_script(tables), db, order) == (
            Some(Ok::<(), ErrorView>(())),
            initialized(db, tables),
        ),
{
    let versioned = Database {
        version: Some(
            match db.version {
                Some(version) => version,
                None => SqlValue::Integer(0),
            },
        ),
        ..db
    };
    let sited = Database {
        site: Some(
            match db.site {
                Some(site) => site,
                None => db.draw,
            },
        ),
        ..versioned
    };
    lemma_clock_tables(tables, sited, order, 0);
    let tabled = Database {
        clock_tables: db.clock_tables.union(names_from(tables, 0)),
        ..sited
    };
    law_fingerprint_is_stored(tables, tabled, order);
    assert(converse(init_rest_script(tables), sited, order) == (
        Some(Ok::<(), ErrorView>(())),
        initialized(db, tables),
    ));
}

/// Setting up a database without a version and an identity, of one that draws sixteen bytes where
/// it
/// is asked for them, gives it the version zero and an identity of sixteen bytes, and a clock table
/// for each table, empty if nothing was left of it; the application's tables are not touched.
pub proof fn law_init_of_a_new_database(tables: Seq<TableView>, db: Database, order: Order)
    requires
        db.version is None,
        db.site is None,
        db.draw.len() == 16,
        forall|i: int, pk: Seq<char>, column: Seq<char>|
            0 <= i < tables.len() ==> !#[trigger] db.clocks.dom().contains(
                (tables[i].name, pk, column),
            ),
    ensures
        ({
            let (outcome, after) = converse(init_script(tables), db, order);
            let (site, same) = converse(site_script(), after, order);
            &&& outcome == Some(Ok::<(), ErrorView>(()))
            &&& converse(version_script(0), after, order) == (
                Some(Ok::<i64, ErrorView>(0)),
                after,
            )
            &&& site is Some
            &&& site->0 is Ok
            &&& site->0->Ok_0.len() == 16
            &&& same == after
            &&& forall|i: int|
                0 <= i < tables.len() ==> after.clock_tables.contains((#[trigger] tables[i]).name)
            &&& forall|i: int, pk: Seq<char>, column: Seq<char>|
                0 <= i < tables.len() ==> !#[trigger] after.clocks.dom().contains(
                    (tables[i].name, pk, column),
                )
            &&& after.tables == db.tables
            &&& after.rows == db.rows
            &&& after.cells == db.cells
        }),
{
    law_init_sets_up(tables, db, order);
    let after = initialized(db, tables);
    assert forall|i: int| 0 <= i < tables.len() implies after.clock_tables.contains(
        (#[trigger] tables[i]).name,
    ) by {
        lemma_named(tables, i, 0);
    }
    assert(after.version == Some(SqlValue::Integer(0)));
    assert(after.site == Some(db.draw));
}

proof fn lemma_named(tables: Seq<TableView>, i: int, from: int)
    requires
        0 <= from <= i < tables.len(),
    ensures
        names_from(tables, from).contains(tables[i].name),
    decreases i - from,
{
    if from < i {
        lemma_named(tables, i, from + 1);
    }
}

/// Setting up a database that is set up for the schema changes nothing.
pub proof fn law_init_of_what_is_set_up(tables: Seq<TableView>, db: Database, order: Order)
    requires
        initialized(db, tables) == db,
    ensures
        converse(init_script(tables), db, order) == (Some(Ok::<(), ErrorView>(())), db),
{
    law_init_sets_up(tables, db, order);
}

/// Setting up a database is idempotent.
pub proof fn law_init_again_changes_nothing(tables: Seq<TableView>, db: Database, order: Order)
    ensures
        ({
            let once = converse(init_script(tables), db, order).1;
            initialized(once, tables) == once && converse(init_script(tables), once, order) == (
                Some(Ok::<(), ErrorView>(())),
                once,
            )
        }),
{
    law_init_sets_up(tables, db, order);
    let once = initialized(db, tables);
    law_init_sets_up(tables, once, order);
    let twice = initialized(once, tables);
    lemma_identity_keys();
    assert(once.clock_tables.union(names_from(tables, 0)) =~= once.clock_tables);
    assert(twice.state =~= once.state);
    assert(twice == once);
}

/// A replica has one identity: the first time that it is asked for, it is drawn if there is none,
/// and it is the same ever after. Nothing else changes.
pub proof fn law_site_is_drawn_once(db: Database, order: Order)
    ensures
        ({
            let (outcome, after) = converse(site_script(), db, order);
            &&& outcome is Some
            &&& outcome->0 is Ok
            &&& after.site == Some(outcome->0->Ok_0)
            &&& outcome->0->Ok_0 == (match db.site {
                Some(site) => site,
                None => db.draw,
            })
            &&& after == (Database { site: after.site, ..db })
            &&& converse(site_script(), after, order) == (outcome, after)
        }),
{
}

/// The database version is counted up by one, and is then what is read; to read it changes nothing.
pub proof fn law_version_counts_up(db: Database, order: Order, version: i64)
    requires
        db.version == Some(SqlValue::Integer(version)),
        version < i64::MAX,
    ensures
        ({
            let (outcome, after) = converse(next_version_script(), db, order);
            let next = (version + 1) as i64;
            &&& outcome == Some(Ok::<i64, ErrorView>(next))
            &&& after == (Database { version: Some(SqlValue::Integer(next)), ..db })
            &&& converse(version_script(0), db, order) == (
                Some(Ok::<i64, ErrorView>(version)),
                db,
            )
            &&& converse(version_script(0), after, order) == (
                Some(Ok::<i64, ErrorView>(next)),
                after,
            )
        }),
{
}

/// What is stored in the sync state is read as bytes; what was never stored is not there. The
/// schema
/// version of a database that holds none is zero.
pub proof fn law_missing_state_is_not_there(db: Database, order: Order, key: Seq<char>)
    ensures
        !db.state.dom().contains(key) ==> converse(state_script(key), db, order) == (
            Some(None::<Seq<u8>>),
            db,
        ),
        !db.state.dom().contains("schema_version"@) ==> converse(
            schema_version_script(),
            db,
            order,
        ) == (Some(0i64), db),
        !db.state.dom().contains("schema_fingerprint"@) ==> converse(
            stored_fingerprint_script(),
            db,
            order,
        ) == (Some(None::<u64>), db),
{
}

} // verus!
