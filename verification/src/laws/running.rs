//! The statements' texts, run on the tables that a database is kept in, do what the model says.
use vstd::prelude::*;

use crate::database::Database;
use crate::database::Order;
use crate::laws::effects::agrees;
use crate::laws::effects::answers;
use crate::laws::effects::lemma_clock_exists;
use crate::laws::effects::lemma_clock_store;
use crate::laws::effects::lemma_create_statements;
use crate::laws::effects::lemma_drop_column;
use crate::laws::effects::lemma_drop_pk;
use crate::laws::effects::lemma_made_layouts;
use crate::laws::effects::lemma_put_clock;
use crate::laws::effects::lemma_rename_clock;
use crate::laws::effects::lemma_rewrite_pk;
use crate::laws::effects::lemma_select_clock;
use crate::laws::effects::lemma_site_statements;
use crate::laws::effects::lemma_state_statements;
use crate::laws::effects::lemma_version_statements;
use crate::laws::effects::lemma_zero_columns;
use crate::laws::row_effects::fits_key;
use crate::laws::row_effects::lemma_delete_row;
use crate::laws::row_effects::lemma_insert_row;
use crate::laws::row_effects::lemma_read_row;
use crate::laws::row_effects::lemma_write_cell;
use crate::laws::stores::Shapes;
use crate::laws::stores::clock_layout;
use crate::laws::stores::columns_of;
use crate::laws::stores::is_free;
use crate::laws::stores::lemma_clock_name;
use crate::laws::stores::site_layout;
use crate::laws::stores::state_layout;
use crate::laws::stores::storable_in;
use crate::laws::stores::version_layout;
use crate::laws::texts::lemma_bump_version_text;
use crate::laws::texts::lemma_clock_exists_text;
use crate::laws::texts::lemma_create_clock_text;
use crate::laws::texts::lemma_create_site_text;
use crate::laws::texts::lemma_create_state_text;
use crate::laws::texts::lemma_create_version_text;
use crate::laws::texts::lemma_drop_column_text;
use crate::laws::texts::lemma_drop_pk_text;
use crate::laws::texts::lemma_insert_row_text;
use crate::laws::texts::lemma_insert_site_text;
use crate::laws::texts::lemma_insert_version_text;
use crate::laws::texts::lemma_put_clock_text;
use crate::laws::texts::lemma_put_state_text;
use crate::laws::texts::lemma_read_cell_text;
use crate::laws::texts::lemma_rename_clock_text;
use crate::laws::texts::lemma_rewrite_pk_text;
use crate::laws::texts::lemma_seed_clock_text;
use crate::laws::texts::lemma_select_changes_text;
use crate::laws::texts::lemma_select_clock_text;
use crate::laws::texts::lemma_select_col_ver_text;
use crate::laws::texts::lemma_select_keys_text;
use crate::laws::texts::lemma_select_pks_text;
use crate::laws::texts::lemma_select_sentinels_text;
use crate::laws::texts::lemma_select_site_text;
use crate::laws::texts::lemma_select_state_text;
use crate::laws::texts::lemma_select_version_text;
use crate::laws::texts::lemma_write_cell_text;
use crate::laws::texts::lemma_zero_columns_text;
use crate::laws::texts::reading;
use crate::sql::Layout;
use crate::sql::Sql;
use crate::sql::Store;
use crate::sql::effect;
use crate::sql::is_name;
use crate::sql::named;
use crate::sql::reads;
use crate::statement::Key;
use crate::statement::StatementView;
use crate::statement::clock_name;
use crate::statement::inserted_columns;

verus! {

/// Whether names can be those of columns.
pub open spec fn all_names(columns: Seq<Seq<char>>) -> bool {
    forall|i: int| 0 <= i < columns.len() ==> is_name(#[trigger] columns[i])
}

/// Whether a key is one of a table of the application, with columns that can be named.
pub open spec fn fits_row(shapes: Shapes, table: Seq<char>, key: Key) -> bool {
    fits_key(shapes, table, key) && all_names(shapes(table)) && key.len() < usize::MAX
}

/// Whether a statement is one that can be run on a database: its tables and columns have names, the
/// rows that it is about have keys of their tables' shapes, it writes to no key column, and it
/// gives
/// the database an identity or a version only where there is none.
pub open spec fn fits(db: Database, shapes: Shapes, st: StatementView) -> bool {
    match st {
        StatementView::InsertVersion => db.version is None,
        StatementView::InsertSite { or_ignore } => db.site is None && db.draw.len() == 16,
        StatementView::CreateClockTable { table } => is_name(table),
        StatementView::SelectColVer { table, .. } => is_name(table),
        StatementView::SelectClock { table, .. } => is_name(table),
        StatementView::PutClock { table, .. } => is_name(table),
        StatementView::SeedClock { table, .. } => is_name(table),
        StatementView::ZeroColumns { table, .. } => is_name(table),
        StatementView::SelectChanges { table, .. } => is_name(table),
        StatementView::SelectSentinels { table } => is_name(table),
        StatementView::SelectPks { table } => is_name(table),
        StatementView::DropColumn { table, .. } => is_name(table),
        StatementView::RenameClock { old_table, new_table } => is_name(old_table) && is_name(
            new_table,
        ),
        StatementView::RewritePk { table, .. } => is_name(table),
        StatementView::DropPk { table, .. } => is_name(table),
        StatementView::ReadCell { table, column, key } => fits_row(shapes, table, key) && is_name(
            column,
        ) && !shapes(table).contains(column),
        StatementView::ProbeRow { table, key } => fits_row(shapes, table, key),
        StatementView::InsertRow { table, key, defaults } => fits_row(shapes, table, key)
            && all_names(inserted_columns(key, defaults)) && inserted_columns(
            key,
            defaults,
        ).no_duplicates(),
        StatementView::WriteCell { table, column, value, key } => fits_row(shapes, table, key)
            && is_name(column) && !shapes(table).contains(column),
        StatementView::DeleteRow { table, key } => fits_row(shapes, table, key),
        StatementView::SelectKeys { table, columns } => is_free(table) && all_names(columns),
        _ => true,
    }
}

/// Whether a statement lists rows in an order that is up to the database.
pub open spec fn lists_many(st: StatementView) -> bool {
    st is SelectChanges || st is SelectSentinels || st is SelectPks || st is SelectKeys
}

proof fn lemma_names()
    ensures
        is_name("crr_site_id"@),
        is_name("crr_db_version"@),
        is_name("crr_sync_state"@),
        is_name("sqlite_master"@),
        is_name("pk"@),
        is_name("col_name"@),
        is_name("col_ver"@),
        is_name("db_ver"@),
        is_name("site_id"@),
        is_name("seq"@),
        is_name("key"@),
        is_name("value"@),
        is_name("version"@),
        is_name("type"@),
        is_name("table"@),
        is_name("name"@),
{
    reveal_strlit("crr_site_id");
    reveal_strlit("crr_db_version");
    reveal_strlit("crr_sync_state");
    reveal_strlit("sqlite_master");
    reveal_strlit("pk");
    reveal_strlit("col_name");
    reveal_strlit("col_ver");
    reveal_strlit("db_ver");
    reveal_strlit("site_id");
    reveal_strlit("seq");
    reveal_strlit("key");
    reveal_strlit("value");
    reveal_strlit("version");
    reveal_strlit("type");
    reveal_strlit("table");
    reveal_strlit("name");
}

/// The text of a statement is read as its reading.
pub proof fn lemma_written(db: Database, shapes: Shapes, st: StatementView)
    requires
        fits(db, shapes, st),
    ensures
        reading(st).written() == st.sql(),
{
    match st {
        StatementView::CreateSiteTable => {
            lemma_create_site_text();
        },
        StatementView::CreateVersionTable => {
            lemma_create_version_text();
        },
        StatementView::CreateStateTable => {
            lemma_create_state_text();
        },
        StatementView::CreateClockTable { table } => {
            lemma_create_clock_text(table);
        },
        StatementView::SelectVersion => {
            lemma_select_version_text();
        },
        StatementView::InsertVersion => {
            lemma_insert_version_text();
        },
        StatementView::BumpVersion => {
            lemma_bump_version_text();
        },
        StatementView::SelectSite => {
            lemma_select_site_text();
        },
        StatementView::InsertSite { or_ignore } => {
            lemma_insert_site_text(or_ignore);
        },
        StatementView::SelectState { key } => {
            lemma_select_state_text(key);
        },
        StatementView::PutState { key, value } => {
            lemma_put_state_text(key, value);
        },
        StatementView::SelectColVer { table, pk, column } => {
            lemma_select_col_ver_text(table, pk, column);
        },
        StatementView::SelectClock { table, pk, column } => {
            lemma_select_clock_text(table, pk, column);
        },
        StatementView::PutClock { table, stamp } => {
            lemma_put_clock_text(table, stamp);
        },
        StatementView::SeedClock { table, stamp } => {
            lemma_seed_clock_text(table, stamp);
        },
        StatementView::ZeroColumns { table, pk } => {
            lemma_zero_columns_text(table, pk);
        },
        StatementView::SelectChanges { table, since } => {
            lemma_select_changes_text(table, since);
        },
        StatementView::SelectSentinels { table } => {
            lemma_select_sentinels_text(table);
        },
        StatementView::SelectPks { table } => {
            lemma_select_pks_text(table);
        },
        StatementView::DropColumn { table, column } => {
            lemma_drop_column_text(table, column);
        },
        StatementView::RenameClock { old_table, new_table } => {
            lemma_rename_clock_text(old_table, new_table);
        },
        StatementView::ClockExists { table } => {
            lemma_clock_exists_text(table);
        },
        StatementView::RewritePk { table, old_pk, new_pk } => {
            lemma_rewrite_pk_text(table, old_pk, new_pk);
        },
        StatementView::DropPk { table, pk } => {
            lemma_drop_pk_text(table, pk);
        },
        StatementView::ReadCell { table, column, key } => {
            lemma_shape(shapes, table, key);
            lemma_read_cell_text(table, column, key);
        },
        StatementView::ProbeRow { table, key } => {
            lemma_shape(shapes, table, key);
            lemma_read_cell_text(table, table, key);
        },
        StatementView::InsertRow { table, key, defaults } => {
            lemma_insert_row_text(table, key, defaults);
        },
        StatementView::WriteCell { table, column, value, key } => {
            lemma_shape(shapes, table, key);
            lemma_write_cell_text(table, column, value, key);
        },
        StatementView::DeleteRow { table, key } => {
            lemma_shape(shapes, table, key);
            lemma_read_cell_text(table, table, key);
        },
        StatementView::SelectKeys { table, columns } => {
            lemma_select_keys_text(table, columns);
        },
    }
}

/// The columns of a key of a table are those of the table.
proof fn lemma_shape(shapes: Shapes, table: Seq<char>, key: Key)
    requires
        fits_row(shapes, table, key),
    ensures
        key.len() > 0,
        forall|i: int| 0 <= i < key.len() ==> is_name((#[trigger] key[i]).0),
{
    assert(columns_of(key).len() == key.len());
    assert forall|i: int| 0 <= i < key.len() implies is_name((#[trigger] key[i]).0) by {
        assert(columns_of(key)[i] == key[i].0);
        assert(is_name(shapes(table)[i]));
    }
}

/// All names in a statement's reading are names.
pub proof fn lemma_named(db: Database, shapes: Shapes, st: StatementView)
    requires
        fits(db, shapes, st),
    ensures
        named(reading(st)),
{
    lemma_names();
    match st {
        StatementView::CreateSiteTable => {},
        StatementView::CreateVersionTable => {},
        StatementView::CreateStateTable => {},
        StatementView::CreateClockTable { table } => {
            lemma_clock_name(table);
        },
        StatementView::SelectVersion => {},
        StatementView::InsertVersion => {},
        StatementView::BumpVersion => {},
        StatementView::SelectSite => {},
        StatementView::InsertSite { or_ignore } => {},
        StatementView::SelectState { key } => {},
        StatementView::PutState { key, value } => {},
        StatementView::SelectColVer { table, pk, column } => {
            lemma_clock_name(table);
        },
        StatementView::SelectClock { table, pk, column } => {
            lemma_clock_name(table);
        },
        StatementView::PutClock { table, stamp } => {
            lemma_clock_name(table);
        },
        StatementView::SeedClock { table, stamp } => {
            lemma_clock_name(table);
        },
        StatementView::ZeroColumns { table, pk } => {
            lemma_clock_name(table);
        },
        StatementView::SelectChanges { table, since } => {
            lemma_clock_name(table);
        },
        StatementView::SelectSentinels { table } => {
            lemma_clock_name(table);
        },
        StatementView::SelectPks { table } => {
            lemma_clock_name(table);
        },
        StatementView::DropColumn { table, column } => {
            lemma_clock_name(table);
        },
        StatementView::RenameClock { old_table, new_table } => {
            lemma_clock_name(old_table);
            lemma_clock_name(new_table);
        },
        StatementView::ClockExists { table } => {},
        StatementView::RewritePk { table, old_pk, new_pk } => {
            lemma_clock_name(table);
        },
        StatementView::DropPk { table, pk } => {
            lemma_clock_name(table);
        },
        StatementView::ReadCell { table, column, key } => {
            lemma_shape(shapes, table, key);
        },
        StatementView::ProbeRow { table, key } => {
            lemma_shape(shapes, table, key);
        },
        StatementView::InsertRow { table, key, defaults } => {},
        StatementView::WriteCell { table, column, value, key } => {
            lemma_shape(shapes, table, key);
        },
        StatementView::DeleteRow { table, key } => {
            lemma_shape(shapes, table, key);
        },
        StatementView::SelectKeys { table, columns } => {},
    }
}

proof fn lemma_agrees(db: Database, shapes: Shapes, st: StatementView, order: Order)
    requires
        storable_in(db, shapes),
        fits(db, shapes, st),
    ensures
        agrees(db, shapes, st, reading(st), order),
        st.is_query() && !lists_many(st) && db.perform(st, order).0 is Rows ==> answers(
            db,
            shapes,
            st,
            reading(st),
            order,
        ),
        st.is_query() <==> reading(st) is Select,
{
    match st {
        StatementView::CreateSiteTable => {
            lemma_create_statements(db, shapes, order, Seq::empty());
        },
        StatementView::CreateVersionTable => {
            lemma_create_statements(db, shapes, order, Seq::empty());
        },
        StatementView::CreateStateTable => {
            lemma_create_statements(db, shapes, order, Seq::empty());
        },
        StatementView::CreateClockTable { table } => {
            lemma_create_statements(db, shapes, order, table);
        },
        StatementView::SelectVersion => {
            lemma_version_statements(db, shapes, order);
        },
        StatementView::InsertVersion => {
            lemma_version_statements(db, shapes, order);
        },
        StatementView::BumpVersion => {
            lemma_version_statements(db, shapes, order);
        },
        StatementView::SelectSite => {
            lemma_site_statements(db, shapes, order, true);
        },
        StatementView::InsertSite { or_ignore } => {
            lemma_site_statements(db, shapes, order, or_ignore);
        },
        StatementView::SelectState { key } => {
            lemma_state_statements(db, shapes, order, key, Seq::empty());
        },
        StatementView::PutState { key, value } => {
            lemma_state_statements(db, shapes, order, key, value);
        },
        StatementView::SelectColVer { table, pk, column } => {
            lemma_select_clock(db, shapes, order, table, pk, column);
        },
        StatementView::SelectClock { table, pk, column } => {
            lemma_select_clock(db, shapes, order, table, pk, column);
        },
        StatementView::PutClock { table, stamp } => {
            lemma_put_clock(db, shapes, order, table, stamp);
        },
        StatementView::SeedClock { table, stamp } => {
            lemma_put_clock(db, shapes, order, table, stamp);
        },
        StatementView::ZeroColumns { table, pk } => {
            lemma_zero_columns(db, shapes, order, table, pk);
        },
        StatementView::SelectChanges { table, since } => {
            lemma_clock_store(db, shapes, table);
        },
        StatementView::SelectSentinels { table } => {
            lemma_clock_store(db, shapes, table);
        },
        StatementView::SelectPks { table } => {
            lemma_clock_store(db, shapes, table);
        },
        StatementView::DropColumn { table, column } => {
            lemma_drop_column(db, shapes, order, table, column);
        },
        StatementView::RenameClock { old_table, new_table } => {
            lemma_rename_clock(db, shapes, order, old_table, new_table);
        },
        StatementView::ClockExists { table } => {
            lemma_clock_exists(db, shapes, order, table);
        },
        StatementView::RewritePk { table, old_pk, new_pk } => {
            lemma_rewrite_pk(db, shapes, order, table, old_pk, new_pk);
        },
        StatementView::DropPk { table, pk } => {
            lemma_drop_pk(db, shapes, order, table, pk);
        },
        StatementView::ReadCell { table, column, key } => {
            lemma_read_row(db, shapes, order, table, column, key);
        },
        StatementView::ProbeRow { table, key } => {
            lemma_read_row(db, shapes, order, table, table, key);
        },
        StatementView::InsertRow { table, key, defaults } => {
            lemma_insert_row(db, shapes, order, table, key, defaults);
        },
        StatementView::WriteCell { table, column, value, key } => {
            lemma_write_cell(db, shapes, order, table, column, value, key);
        },
        StatementView::DeleteRow { table, key } => {
            lemma_delete_row(db, shapes, order, table, key);
        },
        StatementView::SelectKeys { table, columns } => {},
    }
}

/// The text of a statement, with its parameters, does to the tables that a database is kept in what
/// the model says the statement does to the database. It is read as one statement of SQL, a query
/// exactly where the statement is one; that fails where the model's reply is a failure, and changes
/// nothing then; where it goes through, the tables hold afterwards what the database holds. A query
/// whose reply does not depend on the order of rows lists that reply, and nothing else.
pub proof fn law_texts_do_what_the_model_says(
    db: Database,
    shapes: Shapes,
    st: StatementView,
    order: Order,
)
    requires
        storable_in(db, shapes),
        fits(db, shapes, st),
    ensures
        exists|sql: Sql| #[trigger]
            reads(st.sql(), sql) && agrees(db, shapes, st, sql, order) && (st.is_query() <==> sql
                is Select) && (st.is_query() && !lists_many(st) && db.perform(st, order).0 is Rows
                ==> answers(db, shapes, st, sql, order)),
{
    lemma_written(db, shapes, st);
    lemma_named(db, shapes, st);
    lemma_agrees(db, shapes, st, order);
    assert(reads(st.sql(), reading(st)));
}

/// Whether the text of a statement makes a table where there is none of its name, and changes
/// nothing else.
pub open spec fn makes(st: StatementView, name: Seq<char>, layout: Layout, store: Store) -> bool {
    exists|sql: Sql| #[trigger]
        reads(st.sql(), sql) && effect(store, sql, st.params()) == Some(
            if store.has(name) {
                store
            } else {
                Store { layouts: store.layouts.insert(name, layout), ..store }
            },
        )
}

/// The texts that set up the bookkeeping make the tables that it is kept in: one for the identity
/// of
/// the site, one for the database version, one for the sync state with a row per key, and for each
/// table of the application a clock table with a row per key text and column.
pub proof fn law_bookkeeping_tables_are_made(store: Store, table: Seq<char>)
    requires
        is_name(table),
    ensures
        makes(StatementView::CreateSiteTable, "crr_site_id"@, site_layout(), store),
        makes(StatementView::CreateVersionTable, "crr_db_version"@, version_layout(), store),
        makes(StatementView::CreateStateTable, "crr_sync_state"@, state_layout(), store),
        makes(
            StatementView::CreateClockTable { table },
            clock_name(table),
            clock_layout(),
            store,
        ),
{
    lemma_names();
    lemma_clock_name(table);
    lemma_made_layouts(table);
    lemma_create_site_text();
    lemma_create_version_text();
    lemma_create_state_text();
    lemma_create_clock_text(table);
    let a = StatementView::CreateSiteTable;
    assert(reads(a.sql(), reading(a)));
    let b = StatementView::CreateVersionTable;
    assert(reads(b.sql(), reading(b)));
    let c = StatementView::CreateStateTable;
    assert(reads(c.sql(), reading(c)));
    let d = StatementView::CreateClockTable { table };
    assert(reads(d.sql(), reading(d)));
}

} // verus!
