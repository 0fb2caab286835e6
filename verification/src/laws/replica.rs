//! Replicas: databases with the library's bookkeeping, and what the operations do to them.
use vstd::prelude::*;

use crate::ChangeView;
use crate::ChangesetView;
use crate::MergeResult;
use crate::alive;
use crate::database::Clock;
use crate::database::Database;
use crate::database::Order;
use crate::database::converse;
use crate::database::given_value;
use crate::database::group_converse;
use crate::database::raised_version;
use crate::gone;
use crate::helpers::clock_script;
use crate::helpers::col_ver_script;
use crate::helpers::decodes;
use crate::helpers::defaults_at;
use crate::helpers::delete_script;
use crate::helpers::key_of;
use crate::helpers::read_script;
use crate::helpers::skeleton_script;
use crate::helpers::write_script;
use crate::json::json_of;
use crate::json::storable;
use crate::json::stored_form;
use crate::json::value_of;
use crate::laws::convergence::RowView;
use crate::laws::convergence::Written;
use crate::laws::convergence::brought;
use crate::laws::convergence::contested;
use crate::laws::convergence::is_sentinel;
use crate::laws::convergence::kept;
use crate::laws::convergence::law_conflicts_resolve;
use crate::laws::convergence::law_length_grows;
use crate::laws::convergence::law_merge_any_order;
use crate::laws::convergence::lemma_replay_append;
use crate::laws::convergence::merged;
use crate::laws::convergence::outranks;
use crate::laws::convergence::replay;
use crate::merge::Existence;
use crate::merge::Gate;
use crate::merge::Verdict;
use crate::merge::apply_changeset_script;
use crate::merge::apply_script;
use crate::merge::column_script;
use crate::merge::contest_script;
use crate::merge::enter_script;
use crate::merge::existence;
use crate::merge::existence_script;
use crate::merge::gate;
use crate::merge::mark_script;
use crate::merge::merge_script;
use crate::merge::prevails;
use crate::merge::revive_script;
use crate::merge::sentinel_script;
use crate::merge::take_script;
use crate::merge::verdict_script;
use crate::merge::with_peer;
use crate::schema::PkView;
use crate::schema::SENTINEL;
use crate::schema::SkeletonView;
use crate::schema::TableView;
use crate::schema::fingerprint_of;
use crate::schema::table_from;
use crate::schema::table_of;
use crate::schema::tracks;
use crate::state::next_version_script;
use crate::state::site_script;
use crate::statement::Key;
use crate::text::Ranking;
use crate::text::codes;
use crate::text::lemma_before_total;
use crate::text::lemma_codes_injective;
use crate::text::lemma_halves_join;
use crate::text::ranking;
use crate::value::ErrorView;
use crate::value::SqlValue;

verus! {

broadcast use group_converse;

/// The version of a clock entry, zero where there is none.
pub open spec fn ver_of(db: Database, table: Seq<char>, pk: Seq<char>, column: Seq<char>) -> i64 {
    if db.clocks.dom().contains((table, pk, column)) {
        db.clocks[(table, pk, column)].col_ver
    } else {
        0
    }
}

/// The causal length of a row.
pub open spec fn length_of(db: Database, table: Seq<char>, pk: Seq<char>) -> i64 {
    ver_of(db, table, pk, SENTINEL@)
}

/// What a row of a table holds in a column, and by which write.
pub open spec fn written(db: Database, table: TableView, pk: Seq<char>, column: Seq<char>) -> Written {
    Written {
        ver: db.clocks[(table.name, pk, column)].col_ver,
        text: json_of((db.cells)(table.name, key_of(table.pk, pk), column)).text(),
        site: db.clocks[(table.name, pk, column)].site_id,
    }
}

/// Whether a column of a row that lives was written.
pub open spec fn was_written(db: Database, table: TableView, pk: Seq<char>, column: Seq<char>) -> bool {
    &&& alive(length_of(db, table.name, pk))
    &&& column != SENTINEL@
    &&& ver_of(db, table.name, pk, column) >= 1
}

/// A row of a replica: its causal length, and the values that were written to it while it lives.
pub open spec fn row_of(db: Database, table: TableView, pk: Seq<char>) -> RowView {
    RowView {
        cl: length_of(db, table.name, pk),
        cells: Map::new(
            |column: Seq<char>| was_written(db, table, pk, column),
            |column: Seq<char>| written(db, table, pk, column),
        ),
    }
}

/// Whether a row is as the bookkeeping leaves it: it is in its table exactly if its causal length
/// is that of a living row, a row without a sentinel has no other clock entries, and no version is
/// negative.
pub open spec fn row_kept(db: Database, table: TableView, pk: Seq<char>) -> bool {
    let cl = length_of(db, table.name, pk);
    &&& cl >= 0
    &&& db.rows.contains((table.name, key_of(table.pk, pk))) == alive(cl)
    &&& db.clocks.dom().contains((table.name, pk, SENTINEL@)) ==> cl >= 1
    &&& forall|column: Seq<char>| #[trigger]
        db.clocks.dom().contains((table.name, pk, column)) ==> cl >= 1 && db.clocks[(
            table.name,
            pk,
            column,
        )].col_ver >= 0
}

/// Whether a table of a replica is as the bookkeeping leaves it, and its values have JSON forms that
/// fit in memory.
pub open spec fn table_kept(db: Database, table: TableView) -> bool {
    &&& db.clock_tables.contains(table.name)
    &&& db.tables.contains(table.name)
    &&& forall|pk: Seq<char>| #[trigger] decodes(table.pk, pk) ==> row_kept(db, table, pk)
    &&& forall|key: Key, column: Seq<char>| storable(#[trigger] (db.cells)(table.name, key, column))
    &&& forall|column: Seq<char>| storable(#[trigger] (db.defaults)(table.name, column))
}

/// Whether the skeleton defaults of a table have JSON forms that fit in memory.
pub open spec fn skeleton_fits(table: TableView) -> bool {
    forall|i: int| #![trigger table.skeleton[i]]
        0 <= i < table.skeleton.len() ==> (table.skeleton[i].1 matches SkeletonView::Literal(value)
            ==> storable(value))
}

/// Whether a database is one that was set up for the tables and is as the bookkeeping leaves it.
pub open spec fn sound(db: Database, tables: Seq<TableView>) -> bool {
    &&& db.site is Some
    &&& db.version is Some
    &&& forall|name: Seq<char>|
        #![trigger table_of(tables, name)]
        table_of(tables, name) is Some ==> table_kept(db, table_of(tables, name)->0)
            && skeleton_fits(table_of(tables, name)->0)
}

/// Whether the value of a change has a JSON form that fits in memory.
pub open spec fn fitting(change: ChangeView) -> bool {
    storable(value_of(change.col_val))
}

/// Whether a change is one that a replica can tell of: its key text has a value for each key column,
/// and its value has a JSON form that fits in memory.
pub open spec fn sendable(tables: Seq<TableView>, change: ChangeView) -> bool {
    &&& table_of(tables, change.table_name) matches Some(table) ==> decodes(table.pk, change.pk)
    &&& fitting(change)
}

proof fn lemma_table_from(tables: Seq<TableView>, name: Seq<char>, from: int)
    ensures
        table_from(tables, name, from) matches Some(table) ==> table.name == name,
    decreases tables.len() - from,
{
    if 0 <= from < tables.len() && tables[from].name != name {
        lemma_table_from(tables, name, from + 1);
    }
}

/// A table that is found under a name has that name.
pub broadcast proof fn lemma_table_of(tables: Seq<TableView>, name: Seq<char>)
    ensures
        (#[trigger] table_of(tables, name)) matches Some(table) ==> table.name == name,
{
    lemma_table_from(tables, name, 0);
}

/// Two key texts that have a value for each key column stand for different rows.
pub proof fn lemma_key_injective(shape: PkView, a: Seq<char>, b: Seq<char>)
    requires
        decodes(shape, a),
        decodes(shape, b),
        key_of(shape, a) == key_of(shape, b),
    ensures
        a == b,
{
    match shape {
        PkView::Single { column } => {
            assert(key_of(shape, a)[0].1 == key_of(shape, b)[0].1);
        },
        PkView::Composite { columns, sep } => {
            lemma_halves_join(a, sep);
            lemma_halves_join(b, sep);
            assert(key_of(shape, a)[0].1 == key_of(shape, b)[0].1);
            assert(key_of(shape, a)[1].1 == key_of(shape, b)[1].1);
        },
    }
}

/// From `db` to `after` nothing has changed but the version and what belongs to one row.
pub open spec fn only_row(db: Database, after: Database, table: TableView, pk: Seq<char>) -> bool {
    let key = key_of(table.pk, pk);
    &&& after.site == db.site
    &&& after.version is Some == db.version is Some
    &&& after.state == db.state
    &&& after.clock_tables == db.clock_tables
    &&& after.tables == db.tables
    &&& after.defaults == db.defaults
    &&& forall|t: Seq<char>, p: Seq<char>, c: Seq<char>|
        !(t == table.name && p == pk) ==> (#[trigger] after.clocks.dom().contains((t, p, c))
            == db.clocks.dom().contains((t, p, c)) && (db.clocks.dom().contains((t, p, c))
            ==> after.clocks[(t, p, c)] == db.clocks[(t, p, c)]))
    &&& forall|t: Seq<char>, k: Key|
        !(t == table.name && k == key) ==> #[trigger] after.rows.contains((t, k))
            == db.rows.contains((t, k))
    &&& forall|t: Seq<char>, k: Key, c: Seq<char>|
        !(t == table.name && k == key) ==> #[trigger] (after.cells)(t, k, c) == (db.cells)(t, k, c)
}

/// What happens to one row does not bear on another.
proof fn lemma_elsewhere(
    db: Database,
    after: Database,
    table: TableView,
    pk: Seq<char>,
    other: TableView,
    other_pk: Seq<char>,
)
    requires
        only_row(db, after, table, pk),
        decodes(table.pk, pk),
        decodes(other.pk, other_pk),
        other.name == table.name ==> other == table,
        !(other == table && other_pk == pk),
    ensures
        row_of(after, other, other_pk) == row_of(db, other, other_pk),
        row_kept(after, other, other_pk) == row_kept(db, other, other_pk),
{
    let key = key_of(table.pk, pk);
    let other_key = key_of(other.pk, other_pk);
    if other == table && other_key == key {
        lemma_key_injective(table.pk, pk, other_pk);
    }
    assert(!(other.name == table.name && other_pk == pk));
    assert(!(other.name == table.name && other_key == key));
    assert forall|c: Seq<char>| ver_of(after, other.name, other_pk, c) == ver_of(
        db,
        other.name,
        other_pk,
        c,
    ) by {
        assert(after.clocks.dom().contains((other.name, other_pk, c)) == db.clocks.dom().contains(
            (other.name, other_pk, c),
        ));
    }
    let a = row_of(after, other, other_pk);
    let b = row_of(db, other, other_pk);
    assert forall|c: Seq<char>| #[trigger] a.cells.dom().contains(c) == b.cells.dom().contains(
        c,
    ) by {
        assert(ver_of(after, other.name, other_pk, c) == ver_of(db, other.name, other_pk, c));
    }
    assert forall|c: Seq<char>| a.cells.dom().contains(c) implies #[trigger] a.cells[c]
        == b.cells[c] by {
        assert(b.cells.dom().contains(c));
        assert(after.clocks.dom().contains((other.name, other_pk, c)));
    }
    assert(a.cells =~= b.cells);
    assert(length_of(after, other.name, other_pk) == length_of(db, other.name, other_pk));
    assert(after.rows.contains((other.name, other_key)) == db.rows.contains(
        (other.name, other_key),
    ));
    assert forall|c: Seq<char>| #[trigger]
        db.clocks.dom().contains((other.name, other_pk, c)) == after.clocks.dom().contains(
            (other.name, other_pk, c),
        ) by {}
    if row_kept(db, other, other_pk) {
        assert(after.clocks.dom().contains((other.name, other_pk, SENTINEL@))
            == db.clocks.dom().contains((other.name, other_pk, SENTINEL@)));
        assert(row_kept(after, other, other_pk));
    }
    if row_kept(after, other, other_pk) {
        assert(after.clocks.dom().contains((other.name, other_pk, SENTINEL@))
            == db.clocks.dom().contains((other.name, other_pk, SENTINEL@)));
        assert(row_kept(db, other, other_pk));
    }
}

/// What happens to one row does not bear on what another holds.
proof fn lemma_held_elsewhere(
    db: Database,
    after: Database,
    table: TableView,
    pk: Seq<char>,
    other: TableView,
    other_pk: Seq<char>,
    column: Seq<char>,
)
    requires
        only_row(db, after, table, pk),
        decodes(table.pk, pk),
        decodes(other.pk, other_pk),
        other.name == table.name ==> other == table,
        !(other == table && other_pk == pk),
    ensures
        held(after, other, other_pk, column) == held(db, other, other_pk, column),
{
    let key = key_of(table.pk, pk);
    let other_key = key_of(other.pk, other_pk);
    if other == table && other_key == key {
        lemma_key_injective(table.pk, pk, other_pk);
    }
    assert(after.clocks.dom().contains((other.name, other_pk, column)) == db.clocks.dom().contains(
        (other.name, other_pk, column),
    ));
    assert((after.cells)(other.name, other_key, column) == (db.cells)(
        other.name,
        other_key,
        column,
    ));
}

/// A replica is sound again after something happened to one row, if that row is.
pub proof fn lemma_sound_again(
    db: Database,
    after: Database,
    tables: Seq<TableView>,
    table: TableView,
    pk: Seq<char>,
)
    requires
        sound(db, tables),
        table_of(tables, table.name) == Some(table),
        decodes(table.pk, pk),
        only_row(db, after, table, pk),
        row_kept(after, table, pk),
        forall|column: Seq<char>|
            storable(#[trigger] (after.cells)(table.name, key_of(table.pk, pk), column)),
    ensures
        sound(after, tables),
{
    broadcast use lemma_table_of;

    assert forall|name: Seq<char>|
        #![trigger table_of(tables, name)]
        table_of(tables, name) is Some implies table_kept(after, table_of(tables, name)->0)
        && skeleton_fits(table_of(tables, name)->0) by {
        let other = table_of(tables, name)->0;
        assert(table_kept(db, other));
        assert forall|p: Seq<char>| #[trigger] decodes(other.pk, p) implies row_kept(
            after,
            other,
            p,
        ) by {
            if !(other == table && p == pk) {
                lemma_elsewhere(db, after, table, pk, other, p);
            }
        }
        assert forall|key: Key, column: Seq<char>| storable(
            #[trigger] (after.cells)(other.name, key, column),
        ) by {
            if !(other.name == table.name && key == key_of(table.pk, pk)) {
                assert((after.cells)(other.name, key, column) == (db.cells)(
                    other.name,
                    key,
                    column,
                ));
            }
        }
    }
}

/// A database with its version raised.
pub open spec fn bumped(db: Database) -> Database {
    Database {
        version: match db.version {
            Some(version) => Some(raised_version(version)),
            None => None,
        },
        ..db
    }
}

/// The version that is read after it was raised.
pub open spec fn next_version(db: Database) -> i64 {
    raised_version(db.version->0).integer_or(1)
}

/// Whether a database is set up as it was: with the same site, the same sync state, the same clock
/// tables and the same tables of the application.
pub open spec fn same_setup(db: Database, after: Database) -> bool {
    &&& after.site == db.site
    &&& after.state == db.state
    &&& after.clock_tables == db.clock_tables
    &&& after.tables == db.tables
    &&& after.defaults == db.defaults
}

/// Whether the version of a database is a number.
pub open spec fn numbered(db: Database) -> bool {
    db.version matches Some(version) && version is Integer
}

/// The version of a database.
pub open spec fn version_of(db: Database) -> i64 {
    db.version->0->Integer_0
}

/// Whether a clock entry can be one of a known column, with a key text that has a value for each
/// key column.
pub open spec fn trackable(
    tables: Seq<TableView>,
    name: Seq<char>,
    pk: Seq<char>,
    column: Seq<char>,
) -> bool {
    &&& table_of(tables, name) is Some
    &&& decodes(table_of(tables, name)->0.pk, pk)
    &&& tracks(tables, name, column)
}

/// Whether a database has come to `after` by raising its version at most `steps` times: the version
/// has not become smaller, and each clock entry is of the version that it was of, or of a version
/// that has come since.
pub open spec fn ages(db: Database, after: Database, steps: int) -> bool {
    numbered(db) && version_of(db) + steps <= i64::MAX ==> {
        &&& numbered(after)
        &&& version_of(db) <= version_of(after) <= version_of(db) + steps
        &&& forall|t: Seq<char>, p: Seq<char>, c: Seq<char>| #[trigger]
            after.clocks.dom().contains((t, p, c)) ==> {
                ||| db.clocks.dom().contains((t, p, c)) && after.clocks[(t, p, c)].db_ver
                    == db.clocks[(t, p, c)].db_ver
                ||| version_of(db) < after.clocks[(t, p, c)].db_ver <= version_of(after)
            }
    }
}

pub proof fn lemma_ages_trans(a: Database, b: Database, c: Database, m: int, n: int)
    requires
        ages(a, b, m),
        ages(b, c, n),
        m >= 0,
        n >= 0,
    ensures
        ages(a, c, m + n),
{
    if numbered(a) && version_of(a) + m + n <= i64::MAX {
        assert forall|t: Seq<char>, p: Seq<char>, k: Seq<char>| #[trigger]
            c.clocks.dom().contains((t, p, k)) implies {
            ||| a.clocks.dom().contains((t, p, k)) && c.clocks[(t, p, k)].db_ver == a.clocks[(
                t,
                p,
                k,
            )].db_ver
            ||| version_of(a) < c.clocks[(t, p, k)].db_ver <= version_of(c)
        } by {
            if b.clocks.dom().contains((t, p, k)) {
                assert(b.clocks.dom().contains((t, p, k)));
            }
        }
    }
}

/// Whether all clock entries that a database has got are of known columns, with key texts that have
/// a value for each key column.
pub open spec fn admits(tables: Seq<TableView>, db: Database, after: Database) -> bool {
    forall|t: Seq<char>, p: Seq<char>, c: Seq<char>| #[trigger]
        after.clocks.dom().contains((t, p, c)) ==> db.clocks.dom().contains((t, p, c))
            || trackable(tables, t, p, c)
}

pub proof fn lemma_admits_trans(tables: Seq<TableView>, a: Database, b: Database, c: Database)
    requires
        admits(tables, a, b),
        admits(tables, b, c),
    ensures
        admits(tables, a, c),
{
    assert forall|t: Seq<char>, p: Seq<char>, k: Seq<char>| #[trigger]
        c.clocks.dom().contains((t, p, k)) implies a.clocks.dom().contains((t, p, k)) || trackable(
        tables,
        t,
        p,
        k,
    ) by {
        if b.clocks.dom().contains((t, p, k)) {
            assert(b.clocks.dom().contains((t, p, k)));
        }
    }
}

pub proof fn lemma_next_version(db: Database, order: Order)
    requires
        db.version is Some,
    ensures
        converse(next_version_script(), db, order) == (
            Some(Ok::<i64, ErrorView>(next_version(db))),
            bumped(db),
        ),
{
}

pub proof fn lemma_site(db: Database, order: Order)
    requires
        db.site is Some,
    ensures
        converse(site_script(), db, order) == (
            Some(Ok::<Seq<u8>, ErrorView>(db.site->0)),
            db,
        ),
{
}

pub proof fn lemma_col_ver(
    db: Database,
    order: Order,
    table: Seq<char>,
    pk: Seq<char>,
    column: Seq<char>,
)
    requires
        db.clock_tables.contains(table),
    ensures
        converse(col_ver_script(table, pk, column), db, order) == (
            Some(ver_of(db, table, pk, column)),
            db,
        ),
{
}

/// The site of a clock entry, no bytes where there is none.
pub open spec fn site_of(db: Database, table: Seq<char>, pk: Seq<char>, column: Seq<char>) -> Seq<u8> {
    if db.clocks.dom().contains((table, pk, column)) {
        db.clocks[(table, pk, column)].site_id
    } else {
        Seq::empty()
    }
}

/// What a row of a table holds in a column, by whichever clock entry, also one of version zero.
pub open spec fn held(db: Database, table: TableView, pk: Seq<char>, column: Seq<char>) -> Written {
    Written {
        ver: ver_of(db, table.name, pk, column),
        text: json_of((db.cells)(table.name, key_of(table.pk, pk), column)).text(),
        site: site_of(db, table.name, pk, column),
    }
}

proof fn lemma_clock(
    db: Database,
    order: Order,
    table: Seq<char>,
    pk: Seq<char>,
    column: Seq<char>,
)
    requires
        db.clock_tables.contains(table),
    ensures
        converse(clock_script(table, pk, column), db, order) == (
            Some((ver_of(db, table, pk, column), site_of(db, table, pk, column))),
            db,
        ),
{
}

proof fn lemma_read(
    tables: Seq<TableView>,
    db: Database,
    order: Order,
    table: TableView,
    pk: Seq<char>,
    column: Seq<char>,
)
    requires
        table_of(tables, table.name) == Some(table),
        db.tables.contains(table.name),
        decodes(table.pk, pk),
        db.rows.contains((table.name, key_of(table.pk, pk))),
        storable((db.cells)(table.name, key_of(table.pk, pk), column)),
    ensures
        converse(read_script(tables, table.name, pk, column), db, order) == (
            Some(json_of((db.cells)(table.name, key_of(table.pk, pk), column))),
            db,
        ),
{
}

/// The table of a change and its clock table are there, and what they hold fits in memory.
spec fn fitted(tables: Seq<TableView>, db: Database, table: TableView, pk: Seq<char>) -> bool {
    &&& table_of(tables, table.name) == Some(table)
    &&& decodes(table.pk, pk)
    &&& db.site is Some
    &&& db.version is Some
    &&& db.clock_tables.contains(table.name)
    &&& db.tables.contains(table.name)
    &&& forall|column: Seq<char>|
        storable(#[trigger] (db.cells)(table.name, key_of(table.pk, pk), column))
    &&& forall|column: Seq<char>| storable(#[trigger] (db.defaults)(table.name, column))
    &&& skeleton_fits(table)
}

/// The row of a change is in its table and its clock table, and is as the bookkeeping leaves it.
spec fn ready(tables: Seq<TableView>, db: Database, table: TableView, pk: Seq<char>) -> bool {
    fitted(tables, db, table, pk) && row_kept(db, table, pk)
}

/// A conversation about one row ended well: nothing else was touched, and the row is now `row`.
spec fn brings<T>(
    tables: Seq<TableView>,
    db: Database,
    result: (Option<T>, Database),
    table: TableView,
    pk: Seq<char>,
    row: RowView,
) -> bool {
    &&& result.0 is Some
    &&& only_row(db, result.1, table, pk)
    &&& ready(tables, result.1, table, pk)
    &&& row_of(result.1, table, pk) == row
}

/// The clock entry that a column change leaves where it is taken over.
pub open spec fn own_clock(db: Database, change: ChangeView) -> Clock {
    Clock {
        col_ver: change.col_ver,
        db_ver: next_version(db),
        site_id: change.site_id,
        seq: change.seq,
    }
}

proof fn lemma_take(
    tables: Seq<TableView>,
    db: Database,
    order: Order,
    table: TableView,
    change: ChangeView,
)
    requires
        ready(tables, db, table, change.pk),
        alive(length_of(db, table.name, change.pk)),
        change.table_name == table.name,
        change.col_ver >= 0,
        !is_sentinel(change),
        storable(value_of(change.col_val)),
        change.col_ver == 0 ==> ver_of(db, table.name, change.pk, change.col_name) == 0,
        tracks(tables, table.name, change.col_name),
    ensures
        converse(take_script(tables, change), db, order).0 == Some(
            Ok::<Verdict, ErrorView>(Verdict::Applied),
        ),
        brings(
            tables,
            db,
            converse(take_script(tables, change), db, order),
            table,
            change.pk,
            RowView {
                cl: length_of(db, table.name, change.pk),
                cells: if change.col_ver >= 1 {
                    row_of(db, table, change.pk).cells.insert(change.col_name, brought(change))
                } else {
                    row_of(db, table, change.pk).cells
                },
            },
        ),
        forall|c: Seq<char>| #[trigger]
            held(converse(take_script(tables, change), db, order).1, table, change.pk, c) == (if c
                == change.col_name {
                brought(change)
            } else {
                held(db, table, change.pk, c)
            }),
        ages(db, converse(take_script(tables, change), db, order).1, 1),
        admits(tables, db, converse(take_script(tables, change), db, order).1),
        converse(take_script(tables, change), db, order).1.clocks == db.clocks.insert(
            (table.name, change.pk, change.col_name),
            own_clock(db, change),
        ),
        converse(take_script(tables, change), db, order).1.version == bumped(db).version,
        converse(take_script(tables, change), db, order).1.rows == db.rows,
        forall|c: Seq<char>|
            #![trigger (converse(take_script(tables, change), db, order).1.cells)(
                table.name,
                key_of(table.pk, change.pk),
                c,
            )]
            (converse(take_script(tables, change), db, order).1.cells)(
                table.name,
                key_of(table.pk, change.pk),
                c,
            ) == (if c == change.col_name {
                value_of(change.col_val)
            } else {
                (db.cells)(table.name, key_of(table.pk, change.pk), c)
            }),
{
    let key = key_of(table.pk, change.pk);
    let stored = db.with_cell(table.name, key, change.col_name, value_of(change.col_val));
    lemma_next_version(stored, order);
    let (outcome, after) = converse(take_script(tables, change), db, order);
    assert(converse(
        write_script(tables, table.name, change.pk, change.col_name, change.col_val),
        db,
        order,
    ) == (Some(()), stored));
    let mark = Clock {
        col_ver: change.col_ver,
        db_ver: next_version(stored),
        site_id: change.site_id,
        seq: change.seq,
    };
    assert(after.clocks == db.clocks.insert((table.name, change.pk, change.col_name), mark));
    assert(after.rows == db.rows);
    assert(after.cells == stored.cells);
    assert(length_of(after, table.name, change.pk) == length_of(db, table.name, change.pk));
    let before = row_of(db, table, change.pk);
    let now = row_of(after, table, change.pk);
    let want = if change.col_ver >= 1 {
        before.cells.insert(change.col_name, brought(change))
    } else {
        before.cells
    };
    assert(now.cells =~= want);
    assert forall|column: Seq<char>| storable(
        #[trigger] (after.cells)(table.name, key, column),
    ) by {
        if column != change.col_name {
            assert(storable((db.cells)(table.name, key, column)));
        }
    }
    assert(row_kept(after, table, change.pk)) by {
        assert forall|column: Seq<char>| #[trigger]
            after.clocks.dom().contains((table.name, change.pk, column)) implies length_of(
            after,
            table.name,
            change.pk,
        ) >= 1 && after.clocks[(table.name, change.pk, column)].col_ver >= 0 by {
            if column != change.col_name {
                assert(db.clocks.dom().contains((table.name, change.pk, column)));
            }
        }
    }
}

/// A column change won exactly if it outranks what the row holds in its column, and then took its
/// place; otherwise nothing has changed.
spec fn contest_ends(
    db: Database,
    result: (Option<Result<Verdict, ErrorView>>, Database),
    table: TableView,
    change: ChangeView,
) -> bool {
    let wins = outranks(brought(change), held(db, table, change.pk, change.col_name));
    let key = key_of(table.pk, change.pk);
    &&& result.0->0->Ok_0 == Verdict::Applied <==> wins
    &&& !wins ==> result.1 == db
    &&& wins ==> result.1.clocks == db.clocks.insert(
        (table.name, change.pk, change.col_name),
        own_clock(db, change),
    ) && result.1.version == bumped(db).version && result.1.rows == db.rows
    &&& forall|c: Seq<char>| #[trigger]
        (result.1.cells)(table.name, key, c) == (if c == change.col_name && wins {
            value_of(change.col_val)
        } else {
            (db.cells)(table.name, key, c)
        })
    &&& forall|c: Seq<char>| #[trigger]
        held(result.1, table, change.pk, c) == (if c == change.col_name && wins {
            brought(change)
        } else {
            held(db, table, change.pk, c)
        })
}

/// A column change of a living row is joined with what the row holds.
proof fn lemma_contest(
    tables: Seq<TableView>,
    db: Database,
    order: Order,
    table: TableView,
    change: ChangeView,
)
    requires
        ready(tables, db, table, change.pk),
        alive(length_of(db, table.name, change.pk)),
        change.table_name == table.name,
        !is_sentinel(change),
        storable(value_of(change.col_val)),
        tracks(tables, table.name, change.col_name),
    ensures
        converse(contest_script(tables, change), db, order).0->0 is Ok,
        converse(contest_script(tables, change), db, order).0->0->Ok_0 != Verdict::Unknown,
        brings(
            tables,
            db,
            converse(contest_script(tables, change), db, order),
            table,
            change.pk,
            RowView {
                cl: length_of(db, table.name, change.pk),
                cells: contested(row_of(db, table, change.pk).cells, change),
            },
        ),
        contest_ends(db, converse(contest_script(tables, change), db, order), table, change),
        ages(db, converse(contest_script(tables, change), db, order).1, 1),
        admits(tables, db, converse(contest_script(tables, change), db, order).1),
{
    let key = key_of(table.pk, change.pk);
    let ver = ver_of(db, table.name, change.pk, change.col_name);
    let site = site_of(db, table.name, change.pk, change.col_name);
    let row = row_of(db, table, change.pk);
    lemma_clock(db, order, table.name, change.pk, change.col_name);
    lemma_read(tables, db, order, table, change.pk, change.col_name);
    if change.col_ver > ver {
        lemma_take(tables, db, order, table, change);
    } else if change.col_ver == ver {
        let local = json_of((db.cells)(table.name, key, change.col_name));
        if prevails(stored_form(change.col_val), change.site_id, local, site) {
            lemma_take(tables, db, order, table, change);
        }
        if ver >= 1 {
            assert(row.cells.dom().contains(change.col_name));
            assert(row.cells[change.col_name] == written(db, table, change.pk, change.col_name));
        }
    } else if ver >= 1 {
        assert(row.cells.dom().contains(change.col_name));
    }
}

proof fn lemma_only_row_trans(
    a: Database,
    b: Database,
    c: Database,
    table: TableView,
    pk: Seq<char>,
)
    requires
        only_row(a, b, table, pk),
        only_row(b, c, table, pk),
    ensures
        only_row(a, c, table, pk),
{
    let key = key_of(table.pk, pk);
    assert forall|t: Seq<char>, p: Seq<char>, col: Seq<char>| !(t == table.name && p == pk) implies (
    #[trigger] c.clocks.dom().contains((t, p, col)) == a.clocks.dom().contains((t, p, col)) && (
    a.clocks.dom().contains((t, p, col)) ==> c.clocks[(t, p, col)] == a.clocks[(t, p, col)])) by {
        assert(b.clocks.dom().contains((t, p, col)) == a.clocks.dom().contains((t, p, col)));
    }
    assert forall|t: Seq<char>, k: Key| !(t == table.name && k == key) implies #[trigger] c.rows.contains(
        (t, k),
    ) == a.rows.contains((t, k)) by {
        assert(b.rows.contains((t, k)) == a.rows.contains((t, k)));
    }
    assert forall|t: Seq<char>, k: Key, col: Seq<char>|
        !(t == table.name && k == key) implies #[trigger] (c.cells)(t, k, col) == (a.cells)(
        t,
        k,
        col,
    ) by {
        assert((b.cells)(t, k, col) == (a.cells)(t, k, col));
    }
}

/// The causal length of a change as a clock entry.
pub open spec fn sentinel_clock(db: Database, change: ChangeView) -> Clock {
    Clock { col_ver: change.cl, db_ver: next_version(db), site_id: change.site_id, seq: 0 }
}

/// A database with the causal length of a change.
spec fn with_mark(db: Database, change: ChangeView) -> Database {
    Database {
        clocks: db.clocks.insert(
            (change.table_name, change.pk, SENTINEL@),
            sentinel_clock(db, change),
        ),
        ..bumped(db)
    }
}

proof fn lemma_mark(db: Database, order: Order, change: ChangeView)
    requires
        db.version is Some,
        db.clock_tables.contains(change.table_name),
    ensures
        converse(mark_script(change), db, order) == (
            Some(Ok::<(), ErrorView>(())),
            with_mark(db, change),
        ),
{
    lemma_next_version(db, order);
}

proof fn lemma_given_fits(skeleton: Seq<(Seq<char>, SkeletonView)>, now: Seq<char>, column: Seq<char>)
    requires
        forall|i: int| #![trigger skeleton[i]]
            0 <= i < skeleton.len() ==> (skeleton[i].1 matches SkeletonView::Literal(value)
                ==> storable(value)),
    ensures
        given_value(defaults_at(skeleton, now), column) matches Some(value) ==> storable(value),
    decreases skeleton.len(),
{
    if skeleton.len() > 0 {
        let rest = skeleton.drop_last();
        assert forall|i: int| #![trigger rest[i]] 0 <= i < rest.len() implies (
        rest[i].1 matches SkeletonView::Literal(value) ==> storable(value)) by {
            assert(rest[i] == skeleton[i]);
        }
        lemma_given_fits(rest, now, column);
        assert(defaults_at(skeleton, now).drop_last() =~= defaults_at(rest, now));
        assert(defaults_at(skeleton, now).last() == (
            skeleton.last().0,
            skeleton.last().1.at(now),
        ));
        assert(skeleton.last() == skeleton[skeleton.len() - 1]);
    }
}

pub proof fn lemma_key_value_fits(key: Key, column: Seq<char>)
    ensures
        crate::database::key_value(key, column) matches Some(value) ==> storable(value),
    decreases key.len(),
{
    if key.len() > 0 {
        lemma_key_value_fits(key.drop_last(), column);
    }
}

/// A database with the skeleton of a row.
spec fn with_skeleton_row(db: Database, table: TableView, pk: Seq<char>, now: Seq<char>) -> Database {
    db.with_row(table.name, key_of(table.pk, pk), defaults_at(table.skeleton, now))
}

proof fn lemma_skeleton(
    tables: Seq<TableView>,
    db: Database,
    order: Order,
    table: TableView,
    pk: Seq<char>,
    now: Seq<char>,
)
    requires
        fitted(tables, db, table, pk),
    ensures
        converse(skeleton_script(tables, table.name, pk, now), db, order) == (
            Some(()),
            with_skeleton_row(db, table, pk, now),
        ),
        forall|column: Seq<char>|
            storable(
                #[trigger] (with_skeleton_row(db, table, pk, now).cells)(
                    table.name,
                    key_of(table.pk, pk),
                    column,
                ),
            ),
{
    let key = key_of(table.pk, pk);
    let after = with_skeleton_row(db, table, pk, now);
    assert forall|column: Seq<char>| storable(
        #[trigger] (after.cells)(table.name, key, column),
    ) by {
        lemma_given_fits(table.skeleton, now, column);
        lemma_key_value_fits(key, column);
        assert(storable((db.cells)(table.name, key, column)));
        assert(storable((db.defaults)(table.name, column)));
    }
}

/// The row of a change was created, and has no values yet.
proof fn lemma_created(
    tables: Seq<TableView>,
    db: Database,
    after: Database,
    table: TableView,
    change: ChangeView,
    now: Seq<char>,
)
    requires
        ready(tables, db, table, change.pk),
        change.table_name == table.name,
        length_of(db, table.name, change.pk) == 0,
        alive(change.cl),
        after == with_mark(with_skeleton_row(db, table, change.pk, now), change),
        forall|column: Seq<char>|
            storable(
                #[trigger] (after.cells)(table.name, key_of(table.pk, change.pk), column),
            ),
    ensures
        brings(
            tables,
            db,
            (Some(()), after),
            table,
            change.pk,
            RowView { cl: change.cl, cells: Map::empty() },
        ),
{
    let pk = change.pk;
    let key = key_of(table.pk, pk);
    assert(after.clocks.dom() =~= db.clocks.dom().insert((table.name, pk, SENTINEL@)));
    assert(length_of(after, table.name, pk) == change.cl);
    assert forall|column: Seq<char>| column != SENTINEL@ implies !after.clocks.dom().contains(
        (table.name, pk, column),
    ) by {
        assert(!db.clocks.dom().contains((table.name, pk, column)));
    }
    assert(row_of(after, table, pk).cells =~= Map::empty());
    assert(after.rows.contains((table.name, key)));
    assert(row_kept(after, table, pk)) by {
        assert forall|column: Seq<char>| #[trigger]
            after.clocks.dom().contains((table.name, pk, column)) implies length_of(
            after,
            table.name,
            pk,
        ) >= 1 && after.clocks[(table.name, pk, column)].col_ver >= 0 by {
            assert(column == SENTINEL@);
        }
    }
}

/// The row of a change was made anew, on what is left without it, and has no values yet.
proof fn lemma_revived(
    tables: Seq<TableView>,
    db: Database,
    bare: Database,
    after: Database,
    table: TableView,
    change: ChangeView,
    now: Seq<char>,
)
    requires
        ready(tables, db, table, change.pk),
        change.table_name == table.name,
        length_of(db, table.name, change.pk) > 0,
        alive(change.cl),
        bare == db || bare == without_row(db, table, change.pk),
        after == with_mark(
            with_skeleton_row(bare, table, change.pk, now).with_zeroed(table.name, change.pk),
            change,
        ),
        forall|column: Seq<char>|
            storable(
                #[trigger] (after.cells)(table.name, key_of(table.pk, change.pk), column),
            ),
    ensures
        brings(
            tables,
            db,
            (Some(()), after),
            table,
            change.pk,
            RowView { cl: change.cl, cells: Map::empty() },
        ),
{
    let pk = change.pk;
    let key = key_of(table.pk, pk);
    assert(length_of(after, table.name, pk) == change.cl);
    assert forall|column: Seq<char>| column != SENTINEL@ implies ver_of(
        after,
        table.name,
        pk,
        column,
    ) == 0 by {}
    assert(row_of(after, table, pk).cells =~= Map::empty());
    assert(after.rows.contains((table.name, key)));
    assert(row_kept(after, table, pk)) by {
        assert forall|column: Seq<char>| #[trigger]
            after.clocks.dom().contains((table.name, pk, column)) implies length_of(
            after,
            table.name,
            pk,
        ) >= 1 && after.clocks[(table.name, pk, column)].col_ver >= 0 by {
            if column != SENTINEL@ {
                assert(db.clocks.dom().contains((table.name, pk, column)));
            }
        }
    }
}

/// A database without a row.
spec fn without_row(db: Database, table: TableView, pk: Seq<char>) -> Database {
    Database { rows: db.rows.remove((table.name, key_of(table.pk, pk))), ..db }
}

/// The row of a change was deleted.
proof fn lemma_deleted(
    tables: Seq<TableView>,
    db: Database,
    after: Database,
    table: TableView,
    change: ChangeView,
)
    requires
        ready(tables, db, table, change.pk),
        change.table_name == table.name,
        change.cl >= 1,
        gone(change.cl),
        after == with_mark(without_row(db, table, change.pk), change),
    ensures
        brings(
            tables,
            db,
            (Some(()), after),
            table,
            change.pk,
            RowView { cl: change.cl, cells: Map::empty() },
        ),
{
    let pk = change.pk;
    assert(length_of(after, table.name, pk) == change.cl);
    assert(row_of(after, table, pk).cells =~= Map::empty());
    assert(row_kept(after, table, pk)) by {
        assert forall|column: Seq<char>| #[trigger]
            after.clocks.dom().contains((table.name, pk, column)) implies length_of(
            after,
            table.name,
            pk,
        ) >= 1 && after.clocks[(table.name, pk, column)].col_ver >= 0 by {
            if column != SENTINEL@ {
                assert(db.clocks.dom().contains((table.name, pk, column)));
            }
        }
    }
}

proof fn lemma_delete(
    tables: Seq<TableView>,
    db: Database,
    order: Order,
    table: TableView,
    pk: Seq<char>,
)
    requires
        fitted(tables, db, table, pk),
    ensures
        converse(delete_script(tables, table.name, pk), db, order) == (
            Some(()),
            without_row(db, table, pk),
        ),
        fitted(tables, without_row(db, table, pk), table, pk),
{
    let bare = without_row(db, table, pk);
    let key = key_of(table.pk, pk);
    assert forall|column: Seq<char>| storable(
        #[trigger] (bare.cells)(table.name, key, column),
    ) by {
        assert(storable((db.cells)(table.name, key, column)));
    }
    assert forall|column: Seq<char>| storable(#[trigger] (bare.defaults)(table.name, column)) by {
        assert(storable((db.defaults)(table.name, column)));
    }
}

proof fn lemma_revive(
    tables: Seq<TableView>,
    db: Database,
    order: Order,
    table: TableView,
    change: ChangeView,
    now: Seq<char>,
)
    requires
        fitted(tables, db, table, change.pk),
        change.table_name == table.name,
    ensures
        converse(revive_script(tables, change, now), db, order) == (
            Some(()),
            with_skeleton_row(db, table, change.pk, now).with_zeroed(table.name, change.pk),
        ),
{
    lemma_skeleton(tables, db, order, table, change.pk, now);
}

/// What a row that is made anew at the time `now` holds in a column.
pub open spec fn fresh_cell(
    db: Database,
    table: TableView,
    pk: Seq<char>,
    now: Seq<char>,
    column: Seq<char>,
) -> SqlValue {
    db.new_cell(table.name, key_of(table.pk, pk), defaults_at(table.skeleton, now), column)
}

/// A change with a greater causal length than the row's begins a new state of the row, without
/// values.
proof fn lemma_enter(
    tables: Seq<TableView>,
    db: Database,
    order: Order,
    table: TableView,
    change: ChangeView,
    now: Seq<char>,
)
    requires
        ready(tables, db, table, change.pk),
        change.table_name == table.name,
        change.cl > length_of(db, table.name, change.pk),
    ensures
        ({
            let local = length_of(db, table.name, change.pk);
            let entered = converse(enter_script(tables, change, now, local), db, order);
            &&& entered.0 == Some(Ok::<(), ErrorView>(()))
            &&& brings(
                tables,
                db,
                entered,
                table,
                change.pk,
                RowView { cl: change.cl, cells: Map::empty() },
            )
            &&& ages(db, entered.1, 1)
            &&& admits(tables, db, entered.1)
            &&& entered.1.clocks.dom().contains((table.name, change.pk, SENTINEL@))
            &&& entered.1.clocks[(table.name, change.pk, SENTINEL@)] == sentinel_clock(db, change)
            &&& alive(change.cl) ==> forall|c: Seq<char>| #[trigger]
                (entered.1.cells)(table.name, key_of(table.pk, change.pk), c) == fresh_cell(
                    db,
                    table,
                    change.pk,
                    now,
                    c,
                )
        }),
{
    let pk = change.pk;
    let local = length_of(db, table.name, pk);
    match existence(local, change.cl) {
        Existence::Stale => {},
        Existence::Create => {
            lemma_skeleton(tables, db, order, table, pk, now);
            let made = with_skeleton_row(db, table, pk, now);
            lemma_mark(made, order, change);
            lemma_created(tables, db, with_mark(made, change), table, change, now);
        },
        Existence::Resurrect => {
            lemma_skeleton(tables, db, order, table, pk, now);
            lemma_revive(tables, db, order, table, change, now);
            let zeroed = with_skeleton_row(db, table, pk, now).with_zeroed(table.name, pk);
            lemma_mark(zeroed, order, change);
            lemma_revived(tables, db, db, with_mark(zeroed, change), table, change, now);
        },
        Existence::Delete => {
            lemma_delete(tables, db, order, table, pk);
            let bare = without_row(db, table, pk);
            lemma_mark(bare, order, change);
            lemma_deleted(tables, db, with_mark(bare, change), table, change);
        },
        Existence::Advance => {
            lemma_delete(tables, db, order, table, pk);
            let bare = without_row(db, table, pk);
            lemma_skeleton(tables, bare, order, table, pk, now);
            lemma_revive(tables, bare, order, table, change, now);
            let zeroed = with_skeleton_row(bare, table, pk, now).with_zeroed(table.name, pk);
            lemma_mark(zeroed, order, change);
            lemma_revived(tables, db, bare, with_mark(zeroed, change), table, change, now);
        },
    }
}

/// A change of a row's existence does to the row what [`merged`] says.
proof fn lemma_sentinel(
    tables: Seq<TableView>,
    db: Database,
    order: Order,
    table: TableView,
    change: ChangeView,
    now: Seq<char>,
)
    requires
        ready(tables, db, table, change.pk),
        change.table_name == table.name,
        is_sentinel(change),
    ensures
        converse(sentinel_script(tables, change, now), db, order).0->0 is Ok,
        converse(sentinel_script(tables, change, now), db, order).0->0->Ok_0 != Verdict::Unknown,
        brings(
            tables,
            db,
            converse(sentinel_script(tables, change, now), db, order),
            table,
            change.pk,
            merged(row_of(db, table, change.pk), change),
        ),
        change.cl <= length_of(db, table.name, change.pk) ==> converse(
            sentinel_script(tables, change, now),
            db,
            order,
        ) == (Some(Ok::<Verdict, ErrorView>(Verdict::Skipped)), db),
        change.cl > length_of(db, table.name, change.pk) ==> ({
            let (outcome, after) = converse(sentinel_script(tables, change, now), db, order);
            &&& outcome == Some(Ok::<Verdict, ErrorView>(Verdict::Applied))
            &&& after.clocks.dom().contains((table.name, change.pk, SENTINEL@))
            &&& after.clocks[(table.name, change.pk, SENTINEL@)] == sentinel_clock(db, change)
        }),
        ages(db, converse(sentinel_script(tables, change, now), db, order).1, 1),
        admits(tables, db, converse(sentinel_script(tables, change, now), db, order).1),
{
    lemma_col_ver(db, order, table.name, change.pk, SENTINEL@);
    if change.cl > length_of(db, table.name, change.pk) {
        lemma_enter(tables, db, order, table, change, now);
    }
}

/// What a column change leaves behind, besides the row that it makes.
spec fn column_ends(
    db: Database,
    result: (Option<Result<Verdict, ErrorView>>, Database),
    table: TableView,
    change: ChangeView,
) -> bool {
    match gate(length_of(db, table.name, change.pk), change.cl) {
        Gate::Shut => result == (Some(Ok::<Verdict, ErrorView>(Verdict::Skipped)), db),
        Gate::Open => contest_ends(db, result, table, change) && !outranks(
            brought(change),
            held(result.1, table, change.pk, change.col_name),
        ) && (result.0->0->Ok_0 == Verdict::Applied ==> taken(result.1, table, change)),
        Gate::Enter => {
            &&& alive(change.cl) ==> !outranks(
                brought(change),
                held(result.1, table, change.pk, change.col_name),
            )
            &&& !alive(change.cl) || change.col_ver < 0 ==> result.0 == Some(
                Ok::<Verdict, ErrorView>(Verdict::Skipped),
            )
            &&& alive(change.cl) && change.col_ver >= 1 ==> result.0 == Some(
                Ok::<Verdict, ErrorView>(Verdict::Applied),
            ) && taken(result.1, table, change)
        },
    }
}

/// Whether a row holds the value of a column change, with the clock entry that the change brought,
/// of the version to which the database has come.
pub open spec fn taken(after: Database, table: TableView, change: ChangeView) -> bool {
    let entry = after.clocks[(table.name, change.pk, change.col_name)];
    &&& after.rows.contains((table.name, key_of(table.pk, change.pk)))
    &&& (after.cells)(table.name, key_of(table.pk, change.pk), change.col_name) == value_of(
        change.col_val,
    )
    &&& after.clocks.dom().contains((table.name, change.pk, change.col_name))
    &&& entry.col_ver == change.col_ver
    &&& entry.site_id == change.site_id
    &&& entry.seq == change.seq
    &&& numbered(after) ==> entry.db_ver == version_of(after)
}

/// A change that won a column of a living row is taken over.
proof fn lemma_taken(
    tables: Seq<TableView>,
    db: Database,
    result: (Option<Result<Verdict, ErrorView>>, Database),
    table: TableView,
    change: ChangeView,
)
    requires
        ready(tables, db, table, change.pk),
        alive(length_of(db, table.name, change.pk)),
        contest_ends(db, result, table, change),
    ensures
        result.0->0->Ok_0 == Verdict::Applied ==> taken(result.1, table, change),
{
}

/// A change finds no write in a column of a row that has just begun a life.
proof fn lemma_unwritten(
    tables: Seq<TableView>,
    db: Database,
    table: TableView,
    pk: Seq<char>,
    column: Seq<char>,
)
    requires
        ready(tables, db, table, pk),
        alive(length_of(db, table.name, pk)),
        row_of(db, table, pk).cells == Map::<Seq<char>, Written>::empty(),
        column != SENTINEL@,
    ensures
        held(db, table, pk, column).ver == 0,
{
    assert(!row_of(db, table, pk).cells.dom().contains(column));
    assert(!was_written(db, table, pk, column));
    if db.clocks.dom().contains((table.name, pk, column)) {
        assert(db.clocks[(table.name, pk, column)].col_ver >= 0);
    }
}

/// A change of a column does to the row what [`merged`] says.
#[verifier::rlimit(40)]
proof fn lemma_column(
    tables: Seq<TableView>,
    db: Database,
    order: Order,
    table: TableView,
    change: ChangeView,
    now: Seq<char>,
)
    requires
        ready(tables, db, table, change.pk),
        change.table_name == table.name,
        !is_sentinel(change),
        storable(value_of(change.col_val)),
        tracks(tables, table.name, change.col_name),
    ensures
        converse(column_script(tables, change, now), db, order).0->0 is Ok,
        converse(column_script(tables, change, now), db, order).0->0->Ok_0 != Verdict::Unknown,
        brings(
            tables,
            db,
            converse(column_script(tables, change, now), db, order),
            table,
            change.pk,
            merged(row_of(db, table, change.pk), change),
        ),
        column_ends(
            db,
            converse(column_script(tables, change, now), db, order),
            table,
            change,
        ),
        ages(db, converse(column_script(tables, change, now), db, order).1, 2),
        admits(tables, db, converse(column_script(tables, change, now), db, order).1),
{
    let pk = change.pk;
    let local = length_of(db, table.name, pk);
    lemma_col_ver(db, order, table.name, pk, SENTINEL@);
    match gate(local, change.cl) {
        Gate::Shut => {},
        Gate::Open => {
            lemma_contest(tables, db, order, table, change);
            law_conflicts_resolve(brought(change), brought(change));
            let result = converse(contest_script(tables, change), db, order);
            lemma_taken(tables, db, result, table, change);
        },
        Gate::Enter => {
            lemma_enter(tables, db, order, table, change, now);
            let entered = converse(enter_script(tables, change, now, local), db, order).1;
            if alive(change.cl) {
                lemma_contest(tables, entered, order, table, change);
                let last = converse(contest_script(tables, change), entered, order);
                lemma_taken(tables, entered, last, table, change);
                lemma_unwritten(tables, entered, table, pk, change.col_name);
                lemma_only_row_trans(db, entered, last.1, table, pk);
                lemma_ages_trans(db, entered, last.1, 1, 1);
                lemma_admits_trans(tables, db, entered, last.1);
                law_conflicts_resolve(brought(change), brought(change));
                assert(converse(column_script(tables, change, now), db, order) == last);
            }
        },
    }
}

/// Whether nothing has changed but the version of a database and the clock entries under one key.
pub open spec fn only_entries(db: Database, after: Database, table: Seq<char>, pk: Seq<char>) -> bool {
    &&& after == (Database { clocks: after.clocks, version: after.version, ..db })
    &&& after.version is Some == db.version is Some
    &&& forall|t: Seq<char>, p: Seq<char>, c: Seq<char>|
        !(t == table && p == pk) ==> (#[trigger] after.clocks.dom().contains((t, p, c))
            == db.clocks.dom().contains((t, p, c)) && (db.clocks.dom().contains((t, p, c))
            ==> after.clocks[(t, p, c)] == db.clocks[(t, p, c)]))
}

proof fn lemma_only_entries_trans(
    a: Database,
    b: Database,
    c: Database,
    table: Seq<char>,
    pk: Seq<char>,
)
    requires
        only_entries(a, b, table, pk),
        only_entries(b, c, table, pk),
    ensures
        only_entries(a, c, table, pk),
{
    assert forall|t: Seq<char>, p: Seq<char>, k: Seq<char>| !(t == table && p == pk) implies (
    #[trigger] c.clocks.dom().contains((t, p, k)) == a.clocks.dom().contains((t, p, k)) && (
    a.clocks.dom().contains((t, p, k)) ==> c.clocks[(t, p, k)] == a.clocks[(t, p, k)])) by {
        assert(b.clocks.dom().contains((t, p, k)) == a.clocks.dom().contains((t, p, k)));
    }
}

proof fn lemma_malformed_enter(
    tables: Seq<TableView>,
    db: Database,
    order: Order,
    table: TableView,
    change: ChangeView,
    now: Seq<char>,
    local: i64,
)
    requires
        table_of(tables, table.name) == Some(table),
        !decodes(table.pk, change.pk),
        change.table_name == table.name,
        db.version is Some,
        db.clock_tables.contains(table.name),
    ensures
        ({
            let (outcome, after) = converse(
                enter_script(tables, change, now, local),
                db,
                order,
            );
            &&& outcome == Some(Ok::<(), ErrorView>(()))
            &&& only_entries(db, after, table.name, change.pk)
            &&& ages(db, after, 1)
        }),
{
    let what = existence(local, change.cl);
    let start = converse(existence_script(tables, change, now, what), db, order).1;
    assert(converse(existence_script(tables, change, now, what), db, order).0 == Some(()));
    assert(only_entries(db, start, table.name, change.pk));
    lemma_mark(start, order, change);
    assert(only_entries(start, with_mark(start, change), table.name, change.pk));
    lemma_only_entries_trans(db, start, with_mark(start, change), table.name, change.pk);
    assert(ages(db, start, 0));
    assert(ages(start, with_mark(start, change), 1));
    lemma_ages_trans(db, start, with_mark(start, change), 0, 1);
}

/// A change whose key text lacks a value for a key column touches no row of the application and no
/// clock entry of another key; it does nothing unless its causal length is news.
pub proof fn law_malformed_keys_touch_no_rows(
    tables: Seq<TableView>,
    db: Database,
    order: Order,
    change: ChangeView,
    now: Seq<char>,
)
    requires
        sound(db, tables),
        table_of(tables, change.table_name) is Some,
        !decodes(table_of(tables, change.table_name)->0.pk, change.pk),
    ensures
        ({
            let (outcome, after) = converse(verdict_script(tables, change, now), db, order);
            &&& outcome is Some
            &&& outcome->0 is Ok
            &&& outcome->0->Ok_0 == Verdict::Unknown <==> !tracks(
                tables,
                change.table_name,
                change.col_name,
            )
            &&& only_entries(db, after, change.table_name, change.pk)
            &&& ages(db, after, 1)
            &&& change.cl <= length_of(db, change.table_name, change.pk) ==> after == db
                && outcome->0->Ok_0 != Verdict::Applied
            &&& tracks(tables, change.table_name, change.col_name) && change.cl > length_of(
                db,
                change.table_name,
                change.pk,
            ) ==> length_of(after, change.table_name, change.pk) == change.cl
        }),
{
    broadcast use lemma_table_of;

    let table = table_of(tables, change.table_name)->0;
    assert(table_kept(db, table));
    if tracks(tables, change.table_name, change.col_name) {
        let local = length_of(db, table.name, change.pk);
        lemma_col_ver(db, order, table.name, change.pk, SENTINEL@);
        if change.cl > local {
            lemma_malformed_enter(tables, db, order, table, change, now, local);
            let entered = converse(enter_script(tables, change, now, local), db, order).1;
        }
    }
}

/// Entries under a key text that lacks a value for a key column bear on no row.
proof fn lemma_rows_apart(
    tables: Seq<TableView>,
    db: Database,
    after: Database,
    name: Seq<char>,
    pk: Seq<char>,
)
    requires
        sound(db, tables),
        only_entries(db, after, name, pk),
        table_of(tables, name) is Some,
        !decodes(table_of(tables, name)->0.pk, pk),
    ensures
        sound(after, tables),
        same_rows(tables, db, after),
{
    broadcast use lemma_table_of;

    assert forall|t: Seq<char>, p: Seq<char>|
        #![trigger length_of(after, t, p)]
        table_of(tables, t) is Some && decodes(table_of(tables, t)->0.pk, p) implies length_of(
        after,
        t,
        p,
    ) == length_of(db, t, p) && row_of(after, table_of(tables, t)->0, p) == row_of(
        db,
        table_of(tables, t)->0,
        p,
    ) && row_kept(after, table_of(tables, t)->0, p) by {
        let table = table_of(tables, t)->0;
        assert(table_kept(db, table));
        assert(row_kept(db, table, p));
        assert(!(t == name && p == pk));
        assert forall|c: Seq<char>| #[trigger]
            after.clocks.dom().contains((t, p, c)) == db.clocks.dom().contains((t, p, c)) && (
        db.clocks.dom().contains((t, p, c)) ==> after.clocks[(t, p, c)] == db.clocks[(
            t,
            p,
            c,
        )]) by {}
        assert(after.clocks.dom().contains((t, p, SENTINEL@)) == db.clocks.dom().contains(
            (t, p, SENTINEL@),
        ));
        assert forall|c: Seq<char>| was_written(after, table, p, c) == was_written(
            db,
            table,
            p,
            c,
        ) by {
            assert(after.clocks.dom().contains((t, p, c)) == db.clocks.dom().contains((t, p, c)));
        }
        assert(row_of(after, table, p).cells =~= row_of(db, table, p).cells);
    }
    assert forall|t: Seq<char>|
        #![trigger table_of(tables, t)]
        table_of(tables, t) is Some implies table_kept(after, table_of(tables, t)->0)
        && skeleton_fits(table_of(tables, t)->0) by {
        let table = table_of(tables, t)->0;
        assert(table_kept(db, table));
        assert forall|p: Seq<char>| #[trigger] decodes(table.pk, p) implies row_kept(
            after,
            table,
            p,
        ) by {
            assert(length_of(after, t, p) == length_of(db, t, p));
        }
    }
    assert forall|t: Seq<char>, p: Seq<char>|
        table_of(tables, t) is Some && decodes(
            table_of(tables, t)->0.pk,
            p,
        ) implies #[trigger] row_of(db, table_of(tables, t)->0, p) == row_of(
        after,
        table_of(tables, t)->0,
        p,
    ) by {
        assert(length_of(after, t, p) == length_of(db, t, p));
    }
}

/// A sound replica that merges a change stays sound. The row of the change becomes what [`merged`]
/// says, if its table and column are known; all other rows stay as they are, and so do all rows if
/// its key text lacks a value for a key column.
pub proof fn law_change_merges_into_its_row(
    tables: Seq<TableView>,
    db: Database,
    order: Order,
    change: ChangeView,
    now: Seq<char>,
)
    requires
        sound(db, tables),
        fitting(change),
    ensures
        ({
            let (outcome, after) = converse(verdict_script(tables, change, now), db, order);
            &&& outcome is Some
            &&& outcome->0 is Ok
            &&& outcome->0->Ok_0 == Verdict::Unknown <==> !tracks(
                tables,
                change.table_name,
                change.col_name,
            )
            &&& sound(after, tables)
            &&& same_setup(db, after)
            &&& ages(db, after, 2)
            &&& sendable(tables, change) ==> admits(tables, db, after)
            &&& forall|name: Seq<char>, pk: Seq<char>|
                #![trigger row_of(after, table_of(tables, name)->0, pk)]
                table_of(tables, name) is Some && decodes(table_of(tables, name)->0.pk, pk)
                    ==> row_of(after, table_of(tables, name)->0, pk) == (if name
                    == change.table_name && pk == change.pk && tracks(
                    tables,
                    name,
                    change.col_name,
                ) {
                    merged(row_of(db, table_of(tables, name)->0, pk), change)
                } else {
                    row_of(db, table_of(tables, name)->0, pk)
                })
        }),
{
    broadcast use lemma_table_of;

    if tracks(tables, change.table_name, change.col_name) && !decodes(
        table_of(tables, change.table_name)->0.pk,
        change.pk,
    ) {
        law_malformed_keys_touch_no_rows(tables, db, order, change, now);
        let after = converse(verdict_script(tables, change, now), db, order).1;
        lemma_rows_apart(tables, db, after, change.table_name, change.pk);
    } else if tracks(tables, change.table_name, change.col_name) {
        let table = table_of(tables, change.table_name)->0;
        assert(table_kept(db, table));
        if is_sentinel(change) {
            lemma_sentinel(tables, db, order, table, change, now);
        } else {
            lemma_column(tables, db, order, table, change, now);
        }
        let (outcome, after) = converse(verdict_script(tables, change, now), db, order);
        lemma_sound_again(db, after, tables, table, change.pk);
        assert forall|name: Seq<char>, pk: Seq<char>|
            #![trigger row_of(after, table_of(tables, name)->0, pk)]
            table_of(tables, name) is Some && decodes(
                table_of(tables, name)->0.pk,
                pk,
            ) implies row_of(after, table_of(tables, name)->0, pk) == (if name
            == change.table_name && pk == change.pk && tracks(tables, name, change.col_name) {
            merged(row_of(db, table_of(tables, name)->0, pk), change)
        } else {
            row_of(db, table_of(tables, name)->0, pk)
        }) by {
            let other = table_of(tables, name)->0;
            if !(name == change.table_name && pk == change.pk) {
                lemma_elsewhere(db, after, table, change.pk, other, pk);
            }
        }
    }
}

/// What a merge says of a change is what it did. A change of a row's existence is applied exactly if
/// its causal length is news, and then is the row's. A column change of the life that the row is in
/// is applied exactly if it wins over what the row holds, and of a life that it begins whenever it
/// brings a write; the row then holds its value, with its version, its site and its number. A change
/// of an earlier state or of a dead row is skipped and changes nothing, and so is one that loses.
pub proof fn law_verdicts_tell_what_happened(
    tables: Seq<TableView>,
    db: Database,
    order: Order,
    change: ChangeView,
    now: Seq<char>,
)
    requires
        sound(db, tables),
        fitting(change),
        tracks(tables, change.table_name, change.col_name),
        decodes(table_of(tables, change.table_name)->0.pk, change.pk),
    ensures
        ({
            let (outcome, after) = converse(verdict_script(tables, change, now), db, order);
            let table = table_of(tables, change.table_name)->0;
            let local = length_of(db, change.table_name, change.pk);
            let applied = outcome == Some(Ok::<Verdict, ErrorView>(Verdict::Applied));
            let skipped = outcome == Some(Ok::<Verdict, ErrorView>(Verdict::Skipped));
            &&& applied || skipped
            &&& change.cl > local ==> length_of(after, change.table_name, change.pk) == change.cl
            &&& after.rows.contains((change.table_name, key_of(table.pk, change.pk))) == alive(
                length_of(after, change.table_name, change.pk),
            )
            &&& is_sentinel(change) ==> {
                &&& applied <==> change.cl > local
                &&& skipped ==> after == db
                &&& applied ==> after.clocks[(change.table_name, change.pk, SENTINEL@)]
                    == sentinel_clock(db, change)
            }
            &&& !is_sentinel(change) ==> {
                &&& change.cl < local || (change.cl == local && !alive(local)) ==> skipped && after
                    == db
                &&& change.cl == local && alive(local) ==> {
                    &&& applied <==> outranks(
                        brought(change),
                        held(db, table, change.pk, change.col_name),
                    )
                    &&& skipped ==> after == db
                }
                &&& change.cl > local && (!alive(change.cl) || change.col_ver < 0) ==> skipped
                &&& change.cl > local && alive(change.cl) && change.col_ver >= 1 ==> applied
                &&& applied && (change.cl == local || change.col_ver >= 1) ==> taken(
                    after,
                    table,
                    change,
                )
            }
        }),
{
    broadcast use lemma_table_of;

    let table = table_of(tables, change.table_name)->0;
    assert(table_kept(db, table));
    law_change_merges_into_its_row(tables, db, order, change, now);
    let (outcome, after) = converse(verdict_script(tables, change, now), db, order);
    assert(row_of(after, table_of(tables, change.table_name)->0, change.pk).cl == length_of(
        after,
        change.table_name,
        change.pk,
    ));
    assert(table_kept(after, table));
    if is_sentinel(change) {
        lemma_sentinel(tables, db, order, table, change, now);
    } else {
        lemma_column(tables, db, order, table, change, now);
    }
}

/// The greater of two texts.
pub open spec fn greater(a: Seq<char>, b: Seq<char>) -> Seq<char> {
    if ranking(codes(b), codes(a)) == Ranking::Greater {
        b
    } else {
        a
    }
}

/// The JSON text of what a row holds in a column.
pub open spec fn text_in(db: Database, table: TableView, pk: Seq<char>, column: Seq<char>) -> Seq<
    char,
> {
    json_of((db.cells)(table.name, key_of(table.pk, pk), column)).text()
}

/// What a row holds in a column at the beginning of the life that a change leads it to or finds it
/// in.
pub open spec fn start_cell(
    db: Database,
    table: TableView,
    change: ChangeView,
    now: Seq<char>,
    column: Seq<char>,
) -> SqlValue {
    if change.cl > length_of(db, table.name, change.pk) {
        fresh_cell(db, table, change.pk, now, column)
    } else {
        (db.cells)(table.name, key_of(table.pk, change.pk), column)
    }
}

/// What a change leaves in a column of the row that it concerns, if the row then lives: what was
/// there at the beginning, or the value of the change. A column without a write to it holds the
/// greater text of the two, if the change is one of version zero.
pub open spec fn cell_follows(
    db: Database,
    after: Database,
    table: TableView,
    change: ChangeView,
    now: Seq<char>,
    column: Seq<char>,
) -> bool {
    let start = start_cell(db, table, change, now, column);
    let own = !is_sentinel(change) && change.col_name == column && change.cl == length_of(
        after,
        table.name,
        change.pk,
    );
    let value = (after.cells)(table.name, key_of(table.pk, change.pk), column);
    &&& value == start || (own && value == value_of(change.col_val))
    &&& !was_written(after, table, change.pk, column) ==> json_of(value).text() == (if own
        && change.col_ver == 0 {
        greater(json_of(start).text(), brought(change).text)
    } else {
        json_of(start).text()
    })
}

proof fn lemma_contest_cell(
    tables: Seq<TableView>,
    db: Database,
    order: Order,
    table: TableView,
    change: ChangeView,
    column: Seq<char>,
)
    requires
        ready(tables, db, table, change.pk),
        alive(length_of(db, table.name, change.pk)),
        change.cl == length_of(db, table.name, change.pk),
        change.table_name == table.name,
        tracks(tables, table.name, change.col_name),
        !is_sentinel(change),
        fitting(change),
    ensures
        ({
            let after = converse(contest_script(tables, change), db, order).1;
            let start = (db.cells)(table.name, key_of(table.pk, change.pk), column);
            let value = (after.cells)(table.name, key_of(table.pk, change.pk), column);
            &&& length_of(after, table.name, change.pk) == change.cl
            &&& value == start || (change.col_name == column && value == value_of(change.col_val))
            &&& column != SENTINEL@ && ver_of(after, table.name, change.pk, column) < 1
                ==> json_of(value).text() == (if change.col_name == column && change.col_ver == 0 {
                greater(json_of(start).text(), brought(change).text)
            } else {
                json_of(start).text()
            })
        }),
{
    lemma_contest(tables, db, order, table, change);
    let after = converse(contest_script(tables, change), db, order).1;
    assert(row_of(after, table, change.pk).cl == length_of(after, table.name, change.pk));
    let was = held(db, table, change.pk, column);
    let is = held(after, table, change.pk, column);
    assert((after.cells)(table.name, key_of(table.pk, change.pk), column) == (if column
        == change.col_name && outranks(
        brought(change),
        held(db, table, change.pk, change.col_name),
    ) {
        value_of(change.col_val)
    } else {
        (db.cells)(table.name, key_of(table.pk, change.pk), column)
    }));
    assert(db.clocks.dom().contains((table.name, change.pk, column)) ==> db.clocks[(
        table.name,
        change.pk,
        column,
    )].col_ver >= 0);
    if change.col_name == column && change.col_ver == 0 && was.ver == 0 {
        lemma_before_total(codes(brought(change).text), codes(was.text));
        lemma_codes_injective(brought(change).text, was.text);
    }
}

/// A change of a row that then lives leaves in each column what [`cell_follows`] says; all other
/// rows hold what they held.
pub proof fn lemma_cells_step(
    tables: Seq<TableView>,
    db: Database,
    order: Order,
    change: ChangeView,
    now: Seq<char>,
    name: Seq<char>,
    pk: Seq<char>,
    column: Seq<char>,
)
    requires
        sound(db, tables),
        fitting(change),
        table_of(tables, name) is Some,
        decodes(table_of(tables, name)->0.pk, pk),
    ensures
        ({
            let table = table_of(tables, name)->0;
            let after = converse(verdict_script(tables, change, now), db, order).1;
            if concerns(tables, change, name, pk) {
                alive(length_of(after, name, pk)) ==> cell_follows(
                    db,
                    after,
                    table,
                    change,
                    now,
                    column,
                )
            } else {
                &&& (after.cells)(name, key_of(table.pk, pk), column) == (db.cells)(
                    name,
                    key_of(table.pk, pk),
                    column,
                )
                &&& length_of(after, name, pk) == length_of(db, name, pk)
                &&& ver_of(after, name, pk, column) == ver_of(db, name, pk, column)
            }
        }),
{
    broadcast use lemma_table_of;

    let table = table_of(tables, name)->0;
    let after = converse(verdict_script(tables, change, now), db, order).1;
    assert(table_kept(db, table));
    assert(row_kept(db, table, pk));
    if concerns(tables, change, name, pk) {
        let local = length_of(db, name, pk);
        lemma_col_ver(db, order, name, pk, SENTINEL@);
        if is_sentinel(change) {
            lemma_sentinel(tables, db, order, table, change, now);
            if change.cl > local {
                lemma_enter(tables, db, order, table, change, now);
                let entered = converse(enter_script(tables, change, now, local), db, order).1;
                assert(after == entered);
                assert(row_of(after, table, pk).cl == length_of(after, name, pk));
                assert(alive(change.cl) ==> (entered.cells)(name, key_of(table.pk, pk), column)
                    == fresh_cell(db, table, pk, now, column));
            }
        } else {
            lemma_column(tables, db, order, table, change, now);
            if change.cl > local {
                lemma_enter(tables, db, order, table, change, now);
                let entered = converse(enter_script(tables, change, now, local), db, order).1;
                if alive(change.cl) {
                    assert(row_of(entered, table, pk).cl == length_of(entered, name, pk));
                    assert((entered.cells)(name, key_of(table.pk, pk), column) == fresh_cell(
                        db,
                        table,
                        pk,
                        now,
                        column,
                    ));
                    lemma_contest_cell(tables, entered, order, table, change, column);
                    assert(after == converse(contest_script(tables, change), entered, order).1);
                } else {
                    assert(row_of(after, table, pk).cl == length_of(after, name, pk));
                }
            } else if gate(local, change.cl) == Gate::Open {
                lemma_contest_cell(tables, db, order, table, change, column);
            }
        }
    } else if tracks(tables, change.table_name, change.col_name) {
        let other = table_of(tables, change.table_name)->0;
        assert(table_kept(db, other));
        if decodes(other.pk, change.pk) {
            assert(row_kept(db, other, change.pk));
            if is_sentinel(change) {
                lemma_sentinel(tables, db, order, other, change, now);
            } else {
                lemma_column(tables, db, order, other, change, now);
            }
            assert(only_row(db, after, other, change.pk));
            if key_of(other.pk, change.pk) == key_of(table.pk, pk) && other.name == table.name {
                lemma_key_injective(table.pk, change.pk, pk);
            }
        } else {
            law_malformed_keys_touch_no_rows(tables, db, order, change, now);
        }
        assert(after.clocks.dom().contains((name, pk, SENTINEL@)) == db.clocks.dom().contains(
            (name, pk, SENTINEL@),
        ));
        assert(after.clocks.dom().contains((name, pk, column)) == db.clocks.dom().contains(
            (name, pk, column),
        ));
    }
}

/// Whether a change has nothing left to do: its table or column is not known, its causal length is
/// no news, or it is of a dead row, of one that cannot be, or of a column whose value it does not
/// outrank.
pub open spec fn spent(tables: Seq<TableView>, db: Database, change: ChangeView) -> bool {
    let table = table_of(tables, change.table_name)->0;
    let cl = length_of(db, change.table_name, change.pk);
    tracks(tables, change.table_name, change.col_name) ==> if is_sentinel(change) {
        change.cl <= cl
    } else {
        match gate(cl, change.cl) {
            Gate::Shut => true,
            Gate::Open => decodes(table.pk, change.pk) ==> !outranks(
                brought(change),
                held(db, table, change.pk, change.col_name),
            ),
            Gate::Enter => false,
        }
    }
}

/// A change that has nothing left to do is not applied and leaves the database as it is. After any
/// change, it has nothing left to do. No change lowers the causal length of a row and, while that
/// length stays, what a living row holds gives way only to what outranks it.
pub proof fn lemma_change_step(
    tables: Seq<TableView>,
    db: Database,
    order: Order,
    change: ChangeView,
    now: Seq<char>,
)
    requires
        sound(db, tables),
        fitting(change),
    ensures
        ({
            let (outcome, after) = converse(verdict_script(tables, change, now), db, order);
            &&& spent(tables, db, change) ==> after == db && outcome->0->Ok_0 != Verdict::Applied
            &&& spent(tables, after, change)
            &&& forall|name: Seq<char>, pk: Seq<char>|
                #![trigger length_of(after, name, pk)]
                length_of(db, name, pk) <= length_of(after, name, pk)
            &&& forall|name: Seq<char>, pk: Seq<char>, c: Seq<char>|
                #![trigger held(after, table_of(tables, name)->0, pk, c)]
                table_of(tables, name) is Some && decodes(table_of(tables, name)->0.pk, pk) && c
                    != SENTINEL@ && alive(length_of(db, name, pk)) && length_of(after, name, pk)
                    == length_of(db, name, pk) ==> held(after, table_of(tables, name)->0, pk, c) == held(
                    db,
                    table_of(tables, name)->0,
                    pk,
                    c,
                ) || outranks(
                    held(after, table_of(tables, name)->0, pk, c),
                    held(db, table_of(tables, name)->0, pk, c),
                )
        }),
{
    broadcast use lemma_table_of;

    if tracks(tables, change.table_name, change.col_name) && !decodes(
        table_of(tables, change.table_name)->0.pk,
        change.pk,
    ) {
        law_malformed_keys_touch_no_rows(tables, db, order, change, now);
        let after = converse(verdict_script(tables, change, now), db, order).1;
        lemma_rows_apart(tables, db, after, change.table_name, change.pk);
        assert forall|name: Seq<char>, pk: Seq<char>|
            #![trigger length_of(after, name, pk)]
            length_of(db, name, pk) <= length_of(after, name, pk) by {
            if !(name == change.table_name && pk == change.pk) {
                assert(after.clocks.dom().contains((name, pk, SENTINEL@))
                    == db.clocks.dom().contains((name, pk, SENTINEL@)));
            }
        }
        assert forall|name: Seq<char>, pk: Seq<char>, c: Seq<char>|
            #![trigger held(after, table_of(tables, name)->0, pk, c)]
            table_of(tables, name) is Some && decodes(
                table_of(tables, name)->0.pk,
                pk,
            ) implies held(after, table_of(tables, name)->0, pk, c) == held(
            db,
            table_of(tables, name)->0,
            pk,
            c,
        ) by {
            assert(after.clocks.dom().contains((name, pk, c)) == db.clocks.dom().contains(
                (name, pk, c),
            ));
        }
    } else if tracks(tables, change.table_name, change.col_name) {
        let table = table_of(tables, change.table_name)->0;
        assert(table_kept(db, table));
        assert(row_kept(db, table, change.pk));
        if is_sentinel(change) {
            lemma_sentinel(tables, db, order, table, change, now);
        } else {
            lemma_column(tables, db, order, table, change, now);
        }
        let (outcome, after) = converse(verdict_script(tables, change, now), db, order);
        assert(row_of(after, table, change.pk) == merged(row_of(db, table, change.pk), change));
        assert forall|name: Seq<char>, pk: Seq<char>|
            #![trigger length_of(after, name, pk)]
            length_of(db, name, pk) <= length_of(after, name, pk) by {
            if !(name == change.table_name && pk == change.pk) {
                assert(after.clocks.dom().contains((name, pk, SENTINEL@))
                    == db.clocks.dom().contains((name, pk, SENTINEL@)));
            }
        }
        assert forall|name: Seq<char>, pk: Seq<char>, c: Seq<char>|
            #![trigger held(after, table_of(tables, name)->0, pk, c)]
            table_of(tables, name) is Some && decodes(table_of(tables, name)->0.pk, pk) && c
                != SENTINEL@ && alive(length_of(db, name, pk)) && length_of(after, name, pk)
                == length_of(db, name, pk) implies held(after, table_of(tables, name)->0, pk, c) == held(
            db,
            table_of(tables, name)->0,
            pk,
            c,
        ) || outranks(
            held(after, table_of(tables, name)->0, pk, c),
            held(db, table_of(tables, name)->0, pk, c),
        ) by {
            let other = table_of(tables, name)->0;
            if name == change.table_name && pk == change.pk {
                assert(row_of(after, table, pk).cl == length_of(after, name, pk));
                assert(held(after, table, pk, c) == held(after, other, pk, c));
            } else {
                lemma_held_elsewhere(db, after, table, change.pk, other, pk, c);
            }
        }
    }
}

/// The changes that are of one row, and of a column that is known.
pub open spec fn of_row(
    tables: Seq<TableView>,
    changes: Seq<ChangeView>,
    name: Seq<char>,
    pk: Seq<char>,
) -> Seq<ChangeView>
    decreases changes.len(),
{
    if changes.len() == 0 {
        Seq::empty()
    } else if concerns(tables, changes[0], name, pk) {
        seq![changes[0]] + of_row(tables, changes.drop_first(), name, pk)
    } else {
        of_row(tables, changes.drop_first(), name, pk)
    }
}

/// Whether a change is of a row, and of a column that is known.
pub open spec fn concerns(
    tables: Seq<TableView>,
    change: ChangeView,
    name: Seq<char>,
    pk: Seq<char>,
) -> bool {
    change.table_name == name && change.pk == pk && tracks(tables, name, change.col_name)
}

pub proof fn lemma_of_row_members(
    tables: Seq<TableView>,
    changes: Seq<ChangeView>,
    name: Seq<char>,
    pk: Seq<char>,
)
    ensures
        forall|x: ChangeView| #[trigger]
            of_row(tables, changes, name, pk).contains(x) <==> changes.contains(x) && concerns(
                tables,
                x,
                name,
                pk,
            ),
    decreases changes.len(),
{
    if changes.len() > 0 {
        let rest = changes.drop_first();
        lemma_of_row_members(tables, rest, name, pk);
        let tail = of_row(tables, rest, name, pk);
        let all = of_row(tables, changes, name, pk);
        assert forall|x: ChangeView| #[trigger] all.contains(x) <==> changes.contains(x)
            && concerns(tables, x, name, pk) by {
            assert(changes.contains(x) <==> x == changes[0] || rest.contains(x)) by {
                if changes.contains(x) {
                    let i = choose|i: int| 0 <= i < changes.len() && changes[i] == x;
                    if i > 0 {
                        assert(rest[i - 1] == x);
                    }
                }
                if rest.contains(x) {
                    let i = choose|i: int| 0 <= i < rest.len() && rest[i] == x;
                    assert(changes[i + 1] == x);
                }
                assert(changes[0] == changes[0]);
            }
            if concerns(tables, changes[0], name, pk) {
                assert(all =~= seq![changes[0]] + tail);
                if all.contains(x) {
                    let i = choose|i: int| 0 <= i < all.len() && all[i] == x;
                    if i > 0 {
                        assert(tail[i - 1] == x);
                    }
                }
                if tail.contains(x) {
                    let i = choose|i: int| 0 <= i < tail.len() && tail[i] == x;
                    assert(all[i + 1] == x);
                }
                assert(all[0] == changes[0]);
            }
        }
    }
}

/// How many of the changes are of a table or column that is not known.
pub open spec fn unknown_count(tables: Seq<TableView>, changes: Seq<ChangeView>) -> nat
    decreases changes.len(),
{
    if changes.len() == 0 {
        0
    } else {
        (if tracks(tables, changes[0].table_name, changes[0].col_name) {
            0nat
        } else {
            1
        }) + unknown_count(tables, changes.drop_first())
    }
}

/// Every row of a replica is what replaying the changes that concern it makes of what it was.
pub open spec fn replayed(
    tables: Seq<TableView>,
    changes: Seq<ChangeView>,
    db: Database,
    after: Database,
) -> bool {
    forall|name: Seq<char>, pk: Seq<char>|
        #![trigger row_of(after, table_of(tables, name)->0, pk)]
        table_of(tables, name) is Some && decodes(table_of(tables, name)->0.pk, pk) ==> row_of(
            after,
            table_of(tables, name)->0,
            pk,
        ) == replay(
            row_of(db, table_of(tables, name)->0, pk),
            of_row(tables, changes, name, pk),
        )
}

/// To merge changes is to merge the next one, and then the rest.
pub proof fn lemma_merge_step(
    tables: Seq<TableView>,
    db: Database,
    order: Order,
    changes: Seq<ChangeView>,
    now: Seq<char>,
    from: int,
    tally: MergeResult,
)
    requires
        0 <= from < changes.len(),
    ensures
        ({
            let (verdict, middle) = converse(
                verdict_script(tables, changes[from], now),
                db,
                order,
            );
            verdict is Some && verdict->0 is Ok ==> converse(
                merge_script(tables, changes, now, from, tally),
                db,
                order,
            ) == converse(
                merge_script(tables, changes, now, from + 1, tally.counted(verdict->0->Ok_0)),
                middle,
                order,
            )
        }),
{
}

/// When nothing is left to merge, the summary is what was counted.
pub proof fn lemma_merge_over(
    tables: Seq<TableView>,
    db: Database,
    order: Order,
    changes: Seq<ChangeView>,
    now: Seq<char>,
    tally: MergeResult,
)
    ensures
        converse(merge_script(tables, changes, now, changes.len() as int, tally), db, order) == (
            Some(Ok::<MergeResult, ErrorView>(tally)),
            db,
        ),
{
}

/// To apply changes is to merge them all.
pub proof fn lemma_apply_starts(
    tables: Seq<TableView>,
    db: Database,
    order: Order,
    changes: Seq<ChangeView>,
    now: Seq<char>,
)
    requires
        db.site is Some,
    ensures
        converse(apply_script(tables, changes, now), db, order) == converse(
            merge_script(tables, changes, now, 0, MergeResult::none()),
            db,
            order,
        ),
{
    lemma_site(db, order);
}

pub proof fn lemma_merge_rest(
    tables: Seq<TableView>,
    db: Database,
    order: Order,
    changes: Seq<ChangeView>,
    now: Seq<char>,
    from: int,
    tally: MergeResult,
)
    requires
        sound(db, tables),
        0 <= from <= changes.len(),
        forall|i: int| 0 <= i < changes.len() ==> fitting(#[trigger] changes[i]),
    ensures
        ({
            let (outcome, after) = converse(
                merge_script(tables, changes, now, from, tally),
                db,
                order,
            );
            &&& outcome is Some
            &&& outcome->0 is Ok
            &&& sound(after, tables)
            &&& replayed(tables, changes.skip(from), db, after)
            &&& same_setup(db, after)
            &&& ages(db, after, 2 * (changes.len() - from))
            &&& (forall|i: int|
                from <= i < changes.len() ==> sendable(tables, #[trigger] changes[i])) ==> admits(
                tables,
                db,
                after,
            )
        }),
    decreases changes.len() - from,
{
    let rest = changes.skip(from);
    if from < changes.len() {
        let change = changes[from];
        law_change_merges_into_its_row(tables, db, order, change, now);
        let (verdict, middle) = converse(verdict_script(tables, change, now), db, order);
        let counted = tally.counted(verdict->0->Ok_0);
        lemma_merge_rest(tables, middle, order, changes, now, from + 1, counted);
        let after = converse(
            merge_script(tables, changes, now, from + 1, counted),
            middle,
            order,
        ).1;
        lemma_ages_trans(db, middle, after, 2, 2 * (changes.len() - from - 1));
        if forall|i: int| from <= i < changes.len() ==> sendable(tables, #[trigger] changes[i]) {
            assert(sendable(tables, changes[from]));
            lemma_admits_trans(tables, db, middle, after);
        }
        assert(rest.drop_first() =~= changes.skip(from + 1));
        assert(rest[0] == change);
        assert forall|name: Seq<char>, pk: Seq<char>|
            #![trigger row_of(after, table_of(tables, name)->0, pk)]
            table_of(tables, name) is Some && decodes(
                table_of(tables, name)->0.pk,
                pk,
            ) implies row_of(after, table_of(tables, name)->0, pk) == replay(
            row_of(db, table_of(tables, name)->0, pk),
            of_row(tables, rest, name, pk),
        ) by {
            let table = table_of(tables, name)->0;
            let tail = of_row(tables, changes.skip(from + 1), name, pk);
            assert(row_of(middle, table, pk) == row_of(middle, table_of(tables, name)->0, pk));
            if concerns(tables, change, name, pk) {
                lemma_replay_append(row_of(db, table, pk), seq![change], tail);
                assert(seq![change].drop_last() =~= Seq::<ChangeView>::empty());
                reveal_with_fuel(replay, 2);
            }
        }
    } else {
        assert(rest =~= Seq::empty());
    }
}

/// A sound replica that merges changes stays sound and set up as it was, and every one of its rows is
/// what replaying the changes that concern it makes of it. Its version is raised at most twice per change, and
/// each clock entry that a change leaves is of a version that has come since.
pub proof fn law_apply_replays(
    tables: Seq<TableView>,
    db: Database,
    order: Order,
    changes: Seq<ChangeView>,
    now: Seq<char>,
)
    requires
        sound(db, tables),
        forall|i: int| 0 <= i < changes.len() ==> fitting(#[trigger] changes[i]),
    ensures
        ({
            let (outcome, after) = converse(apply_script(tables, changes, now), db, order);
            &&& outcome is Some
            &&& outcome->0 is Ok
            &&& sound(after, tables)
            &&& replayed(tables, changes, db, after)
            &&& same_setup(db, after)
            &&& ages(db, after, 2 * changes.len() as int)
            &&& (forall|i: int|
                0 <= i < changes.len() ==> sendable(tables, #[trigger] changes[i])) ==> admits(
                tables,
                db,
                after,
            )
        }),
{
    lemma_site(db, order);
    lemma_merge_rest(tables, db, order, changes, now, 0, MergeResult::none());
    assert(changes.skip(0) =~= changes);
}

/// No merge lowers the causal length of a row, which becomes at least that of each change of it, nor
/// the database version, as long as its number fits.
pub proof fn law_merge_never_lowers(
    tables: Seq<TableView>,
    db: Database,
    order: Order,
    changes: Seq<ChangeView>,
    now: Seq<char>,
    name: Seq<char>,
    pk: Seq<char>,
)
    requires
        sound(db, tables),
        forall|i: int| 0 <= i < changes.len() ==> fitting(#[trigger] changes[i]),
        table_of(tables, name) is Some,
        decodes(table_of(tables, name)->0.pk, pk),
    ensures
        ({
            let after = converse(apply_script(tables, changes, now), db, order).1;
            &&& length_of(db, name, pk) <= length_of(after, name, pk)
            &&& forall|i: int|
                0 <= i < changes.len() && concerns(tables, #[trigger] changes[i], name, pk)
                    ==> changes[i].cl <= length_of(after, name, pk)
            &&& numbered(db) && version_of(db) + 2 * changes.len() <= i64::MAX ==> numbered(after)
                && version_of(db) <= version_of(after)
        }),
{
    broadcast use lemma_table_of;

    law_apply_replays(tables, db, order, changes, now);
    let after = converse(apply_script(tables, changes, now), db, order).1;
    let table = table_of(tables, name)->0;
    let own = of_row(tables, changes, name, pk);
    law_length_grows(row_of(db, table, pk), own);
    assert(row_of(after, table_of(tables, name)->0, pk).cl == length_of(after, name, pk));
    lemma_of_row_members(tables, changes, name, pk);
    assert forall|i: int|
        0 <= i < changes.len() && concerns(
            tables,
            #[trigger] changes[i],
            name,
            pk,
        ) implies changes[i].cl <= length_of(after, name, pk) by {
        assert(changes.contains(changes[i]));
        assert(own.contains(changes[i]));
    }
}

proof fn lemma_count_rest(
    tables: Seq<TableView>,
    db: Database,
    order: Order,
    changes: Seq<ChangeView>,
    now: Seq<char>,
    from: int,
    tally: MergeResult,
)
    requires
        sound(db, tables),
        0 <= from <= changes.len(),
        forall|i: int| 0 <= i < changes.len() ==> fitting(#[trigger] changes[i]),
        tally.total() + changes.len() - from <= usize::MAX,
    ensures
        ({
            let result = converse(
                merge_script(tables, changes, now, from, tally),
                db,
                order,
            ).0->0->Ok_0;
            &&& result.total() == tally.total() + changes.len() - from
            &&& result.skipped_unknown == tally.skipped_unknown + unknown_count(
                tables,
                changes.skip(from),
            )
            &&& result.peer_schema == tally.peer_schema
        }),
    decreases changes.len() - from,
{
    if from < changes.len() {
        let change = changes[from];
        law_change_merges_into_its_row(tables, db, order, change, now);
        let (verdict, middle) = converse(verdict_script(tables, change, now), db, order);
        let counted = tally.counted(verdict->0->Ok_0);
        lemma_count_rest(tables, middle, order, changes, now, from + 1, counted);
        assert(changes.skip(from).drop_first() =~= changes.skip(from + 1));
        assert(changes.skip(from)[0] == change);
    } else {
        assert(changes.skip(from) =~= Seq::empty());
    }
}

/// Every change is counted once in the summary of a merge, and those of tables and columns that
/// are not known are counted as such.
pub proof fn law_changes_are_counted(
    tables: Seq<TableView>,
    db: Database,
    order: Order,
    changes: Seq<ChangeView>,
    now: Seq<char>,
)
    requires
        sound(db, tables),
        forall|i: int| 0 <= i < changes.len() ==> fitting(#[trigger] changes[i]),
        changes.len() <= usize::MAX,
    ensures
        ({
            let result = converse(apply_script(tables, changes, now), db, order).0->0->Ok_0;
            &&& result.total() == changes.len()
            &&& result.skipped_unknown == unknown_count(tables, changes)
            &&& result.peer_schema is None
        }),
{
    lemma_site(db, order);
    lemma_merge_rest(tables, db, order, changes, now, 0, MergeResult::none());
    lemma_count_rest(tables, db, order, changes, now, 0, MergeResult::none());
    assert(changes.skip(0) =~= changes);
}

/// The summary of two merges, one after the other.
pub open spec fn both(first: MergeResult, second: MergeResult) -> MergeResult {
    MergeResult {
        applied: (first.applied + second.applied) as usize,
        skipped: (first.skipped + second.skipped) as usize,
        skipped_unknown: (first.skipped_unknown + second.skipped_unknown) as usize,
        peer_schema: None,
    }
}

/// What was counted before does not bear on what is counted further on.
proof fn lemma_counts_add(
    tables: Seq<TableView>,
    db: Database,
    order: Order,
    a: Seq<ChangeView>,
    b: Seq<ChangeView>,
    now: Seq<char>,
    from: int,
    tally: MergeResult,
    more: MergeResult,
)
    requires
        sound(db, tables),
        0 <= from <= b.len(),
        forall|i: int| 0 <= i < b.len() ==> fitting(#[trigger] b[i]),
        tally.total() + more.total() + b.len() - from <= usize::MAX,
        tally.peer_schema is None,
        more.peer_schema is None,
    ensures
        ({
            let (whole, after) = converse(
                merge_script(tables, a + b, now, a.len() + from, both(tally, more)),
                db,
                order,
            );
            let (part, same) = converse(merge_script(tables, b, now, from, more), db, order);
            &&& part is Some
            &&& part->0 is Ok
            &&& whole == Some(Ok::<MergeResult, ErrorView>(both(tally, part->0->Ok_0)))
            &&& after == same
        }),
    decreases b.len() - from,
{
    let all = a + b;
    if from < b.len() {
        let change = b[from];
        assert(all[a.len() + from] == change);
        law_change_merges_into_its_row(tables, db, order, change, now);
        let (verdict, middle) = converse(verdict_script(tables, change, now), db, order);
        let counted = more.counted(verdict->0->Ok_0);
        assert(both(tally, more).counted(verdict->0->Ok_0) == both(tally, counted));
        lemma_merge_step(tables, db, order, all, now, a.len() + from, both(tally, more));
        lemma_merge_step(tables, db, order, b, now, from, more);
        lemma_counts_add(tables, middle, order, a, b, now, from + 1, tally, counted);
    } else {
        lemma_merge_over(tables, db, order, all, now, both(tally, more));
        lemma_merge_over(tables, db, order, b, now, more);
    }
}

/// Merging the first changes of a list, and then the others, is merging them all.
proof fn lemma_merge_parts(
    tables: Seq<TableView>,
    db: Database,
    order: Order,
    a: Seq<ChangeView>,
    b: Seq<ChangeView>,
    now: Seq<char>,
    from: int,
    tally: MergeResult,
)
    requires
        sound(db, tables),
        0 <= from <= a.len(),
        forall|i: int| 0 <= i < a.len() ==> fitting(#[trigger] a[i]),
    ensures
        ({
            let (part, middle) = converse(merge_script(tables, a, now, from, tally), db, order);
            &&& part is Some
            &&& part->0 is Ok
            &&& converse(merge_script(tables, a + b, now, from, tally), db, order) == converse(
                merge_script(tables, a + b, now, a.len() as int, part->0->Ok_0),
                middle,
                order,
            )
        }),
    decreases a.len() - from,
{
    if from < a.len() {
        let change = a[from];
        assert((a + b)[from] == change);
        law_change_merges_into_its_row(tables, db, order, change, now);
        let (verdict, middle) = converse(verdict_script(tables, change, now), db, order);
        lemma_merge_step(tables, db, order, a + b, now, from, tally);
        lemma_merge_step(tables, db, order, a, now, from, tally);
        let counted = tally.counted(verdict->0->Ok_0);
        lemma_merge_parts(tables, middle, order, a, b, now, from + 1, counted);
    } else {
        lemma_merge_over(tables, db, order, a, now, tally);
    }
}

/// Changes can be applied in parts: applying some and then others leads where applying them all
/// leads, and what is counted of the parts adds up.
pub proof fn law_apply_in_parts(
    tables: Seq<TableView>,
    db: Database,
    order: Order,
    a: Seq<ChangeView>,
    b: Seq<ChangeView>,
    now: Seq<char>,
)
    requires
        sound(db, tables),
        forall|i: int| 0 <= i < a.len() ==> fitting(#[trigger] a[i]),
        forall|i: int| 0 <= i < b.len() ==> fitting(#[trigger] b[i]),
        a.len() + b.len() <= usize::MAX,
    ensures
        ({
            let (first, middle) = converse(apply_script(tables, a, now), db, order);
            let (second, after) = converse(apply_script(tables, b, now), middle, order);
            let (whole, same) = converse(apply_script(tables, a + b, now), db, order);
            &&& same == after
            &&& whole->0->Ok_0.applied == first->0->Ok_0.applied + second->0->Ok_0.applied
            &&& whole->0->Ok_0.skipped == first->0->Ok_0.skipped + second->0->Ok_0.skipped
            &&& whole->0->Ok_0.skipped_unknown == first->0->Ok_0.skipped_unknown
                + second->0->Ok_0.skipped_unknown
        }),
{
    let none = MergeResult::none();
    law_apply_replays(tables, db, order, a, now);
    let (first, middle) = converse(apply_script(tables, a, now), db, order);
    lemma_apply_starts(tables, db, order, a, now);
    lemma_apply_starts(tables, db, order, a + b, now);
    lemma_apply_starts(tables, middle, order, b, now);
    law_changes_are_counted(tables, db, order, a, now);
    law_changes_are_counted(tables, middle, order, b, now);
    lemma_merge_parts(tables, db, order, a, b, now, 0, none);
    let tally = first->0->Ok_0;
    assert(both(tally, none) == tally);
    lemma_counts_add(tables, middle, order, a, b, now, 0, tally, none);
}

/// A change that is applied alone is counted as what became of it.
pub proof fn law_one_change_is_counted(
    tables: Seq<TableView>,
    db: Database,
    order: Order,
    change: ChangeView,
    now: Seq<char>,
)
    requires
        sound(db, tables),
        fitting(change),
    ensures
        ({
            let (verdict, alone) = converse(verdict_script(tables, change, now), db, order);
            let (outcome, after) = converse(apply_script(tables, seq![change], now), db, order);
            let result = outcome->0->Ok_0;
            &&& outcome is Some
            &&& outcome->0 is Ok
            &&& after == alone
            &&& result.applied == 1 <==> verdict->0->Ok_0 == Verdict::Applied
            &&& result.skipped == 1 <==> verdict->0->Ok_0 == Verdict::Skipped
            &&& result.skipped_unknown == 1 <==> verdict->0->Ok_0 == Verdict::Unknown
            &&& result.applied + result.skipped + result.skipped_unknown == 1
            &&& result.peer_schema is None
        }),
{
    let changes = seq![change];
    let none = MergeResult::none();
    law_change_merges_into_its_row(tables, db, order, change, now);
    let (verdict, middle) = converse(verdict_script(tables, change, now), db, order);
    lemma_apply_starts(tables, db, order, changes, now);
    lemma_merge_step(tables, db, order, changes, now, 0, none);
    lemma_merge_over(tables, middle, order, changes, now, none.counted(verdict->0->Ok_0));
}

/// Applying a changeset merges as applying its rows does, and tells of the sender's schema, by the
/// version and fingerprint that it sent, exactly if its fingerprint is not that of this replica.
pub proof fn law_changeset_merges_like_its_rows(
    tables: Seq<TableView>,
    db: Database,
    order: Order,
    changeset: ChangesetView,
    now: Seq<char>,
)
    requires
        sound(db, tables),
        forall|i: int|
            0 <= i < changeset.rows.len() ==> fitting(#[trigger] changeset.rows[i]),
    ensures
        ({
            let (plain, after_plain) = converse(
                apply_script(tables, changeset.rows, now),
                db,
                order,
            );
            let (full, after) = converse(
                apply_changeset_script(tables, changeset, now),
                db,
                order,
            );
            &&& after == after_plain
            &&& full == Some(
                Ok::<MergeResult, ErrorView>(with_peer(tables, changeset, plain->0->Ok_0)),
            )
            &&& full->0->Ok_0.peer_schema is Some <==> changeset.fingerprint != fingerprint_of(
                tables,
            )
            &&& full->0->Ok_0.peer_schema matches Some(peer) ==> peer.0 == changeset.schema_version
                && peer.1 == changeset.fingerprint
            &&& full->0->Ok_0.applied == plain->0->Ok_0.applied
            &&& full->0->Ok_0.skipped == plain->0->Ok_0.skipped
            &&& full->0->Ok_0.skipped_unknown == plain->0->Ok_0.skipped_unknown
        }),
{
    law_apply_replays(tables, db, order, changeset.rows, now);
}

/// Two replicas hold the same rows.
pub open spec fn same_rows(tables: Seq<TableView>, a: Database, b: Database) -> bool {
    forall|name: Seq<char>, pk: Seq<char>|
        table_of(tables, name) is Some && decodes(table_of(tables, name)->0.pk, pk)
            ==> #[trigger] row_of(a, table_of(tables, name)->0, pk) == row_of(
            b,
            table_of(tables, name)->0,
            pk,
        )
}

pub proof fn lemma_row_set(
    tables: Seq<TableView>,
    a: Seq<ChangeView>,
    b: Seq<ChangeView>,
    name: Seq<char>,
    pk: Seq<char>,
)
    requires
        a.to_set() == b.to_set(),
    ensures
        of_row(tables, a, name, pk).to_set() == of_row(tables, b, name, pk).to_set(),
{
    lemma_of_row_members(tables, a, name, pk);
    lemma_of_row_members(tables, b, name, pk);
    assert forall|x: ChangeView| a.contains(x) == b.contains(x) by {
        assert(a.to_set().contains(x) == a.contains(x));
        assert(b.to_set().contains(x) == b.contains(x));
    }
    assert(of_row(tables, a, name, pk).to_set() =~= of_row(tables, b, name, pk).to_set());
}

/// Applying changes is order-independent: two lists that hold the same changes, in any order and
/// any number of times each, lead a replica to the same rows, at whatever times they are applied.
pub proof fn law_apply_any_order(
    tables: Seq<TableView>,
    db: Database,
    order: Order,
    a: Seq<ChangeView>,
    b: Seq<ChangeView>,
    now_a: Seq<char>,
    now_b: Seq<char>,
)
    requires
        sound(db, tables),
        forall|i: int| 0 <= i < a.len() ==> fitting(#[trigger] a[i]),
        a.to_set() == b.to_set(),
    ensures
        same_rows(
            tables,
            converse(apply_script(tables, a, now_a), db, order).1,
            converse(apply_script(tables, b, now_b), db, order).1,
        ),
{
    broadcast use lemma_table_of;

    assert forall|i: int| 0 <= i < b.len() implies fitting(#[trigger] b[i]) by {
        assert(b.to_set().contains(b[i]));
        assert(a.to_set().contains(b[i]));
        assert(a.contains(b[i]));
    }
    law_apply_replays(tables, db, order, a, now_a);
    law_apply_replays(tables, db, order, b, now_b);
    let after_a = converse(apply_script(tables, a, now_a), db, order).1;
    let after_b = converse(apply_script(tables, b, now_b), db, order).1;
    assert forall|name: Seq<char>, pk: Seq<char>|
        table_of(tables, name) is Some && decodes(
            table_of(tables, name)->0.pk,
            pk,
        ) implies #[trigger] row_of(after_a, table_of(tables, name)->0, pk) == row_of(
        after_b,
        table_of(tables, name)->0,
        pk,
    ) by {
        let table = table_of(tables, name)->0;
        let row = row_of(db, table, pk);
        let ra = of_row(tables, a, name, pk);
        let rb = of_row(tables, b, name, pk);
        assert(table_kept(db, table));
        lemma_row_kept(db, table, pk);
        lemma_row_set(tables, a, b, name, pk);
        law_merge_any_order(row, ra, rb);
        assert(row_of(after_b, table_of(tables, name)->0, pk) == replay(row, rb));
    }
}

pub proof fn lemma_row_kept(db: Database, table: TableView, pk: Seq<char>)
    requires
        row_kept(db, table, pk),
    ensures
        kept(row_of(db, table, pk)),
{
    if gone(length_of(db, table.name, pk)) {
        assert(row_of(db, table, pk).cells =~= Map::empty());
    }
}

} // verus!
