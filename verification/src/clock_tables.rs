//! Metadata and per-table clock table creation.
use vstd::prelude::*;

use crate::Crr;
use crate::flow::Journal;
use crate::flow::Rows;
use crate::flow::Script;
use crate::flow::Step;
use crate::flow::command;
use crate::flow::done;
use crate::flow::lemma_run_bind;
use crate::flow::query;
use crate::flow::run;
use crate::flow::step_of;
use crate::schema::TableView;
use crate::state::store_fingerprint_script;
use crate::statement::Statement;
use crate::statement::StatementView;
use crate::value::ErrorView;

verus! {

broadcast use lemma_run_bind;

/// Creates the clock tables of all tables from the one at `from` on.
pub open spec fn clock_tables_script(tables: Seq<TableView>, from: int) -> Script<
    Result<(), ErrorView>,
>
    decreases tables.len() - from,
{
    if 0 <= from < tables.len() {
        command(StatementView::CreateClockTable { table: tables[from].name }).and(
            |ok: ()| clock_tables_script(tables, from + 1),
        )
    } else {
        done(())
    }
}

/// Creates what is not there yet: the tables of the site, the database version and the sync
/// state, the first entries of the former two, and the clock tables; then stores the fingerprint
/// of the schema.
pub open spec fn init_script(tables: Seq<TableView>) -> Script<Result<(), ErrorView>> {
    command(StatementView::CreateSiteTable).and(
        |ok: ()|
            command(StatementView::CreateVersionTable).and(
                |ok: ()|
                    query(StatementView::SelectVersion).and(
                        |rows: Rows|
                            (if rows.len() == 0 {
                                command(StatementView::InsertVersion)
                            } else {
                                done(())
                            }).and(
                                |ok: ()|
                                    query(StatementView::SelectSite).and(
                                        |rows: Rows|
                                            (if rows.len() == 0 {
                                                command(
                                                    StatementView::InsertSite { or_ignore: false },
                                                )
                                            } else {
                                                done(())
                                            }).and(|ok: ()| init_rest_script(tables)),
                                    ),
                            ),
                    ),
            ),
    )
}

/// The part of [`init_script`] from the table of the sync state on.
pub open spec fn init_rest_script(tables: Seq<TableView>) -> Script<Result<(), ErrorView>> {
    command(StatementView::CreateStateTable).and(
        |ok: ()| clock_tables_script(tables, 0).and(|ok: ()| store_fingerprint_script(tables)),
    )
}

impl<D> Crr<D> {
    fn create_clock_tables(&self, j: &mut Journal) -> (step: Step<()>)
        ensures
            old(j).follows(*final(j), clock_tables_script(self.tables(), 0), step_of(step)),
    {
        let tables = &self.schema().tables;
        let mut i: usize = 0;
        while i < tables.len()
            invariant
                i <= tables@.len(),
                self.tables() == crate::schema::tables_view(tables@),
                run(clock_tables_script(self.tables(), 0), old(j).rest()) == run(
                    clock_tables_script(self.tables(), i as int),
                    j.rest(),
                ),
                j.all() == old(j).all(),
            decreases tables@.len() - i,
        {
            match j.command(Statement::CreateClockTable { table: tables[i].name.clone() })? {
                Ok(()) => {},
                Err(error) => return Ok(Err(error)),
            }
            i += 1;
        }
        Ok(Ok(()))
    }

    /// Creates metadata and clock tables (idempotent).
    ///
    /// Run once after your own schema migrations. Creates a `{table}__crr_clock` table for every
    /// table in the schema, plus the global `crr_site_id`, `crr_db_version`, and `crr_sync_state`
    /// tables, and records the schema's fingerprint.
    pub fn init(&self, j: &mut Journal) -> (step: Step<()>)
        ensures
            old(j).follows(*final(j), init_script(self.tables()), step_of(step)),
    {
        match j.command(Statement::CreateSiteTable)? {
            Ok(()) => {},
            Err(error) => return Ok(Err(error)),
        }
        match j.command(Statement::CreateVersionTable)? {
            Ok(()) => {},
            Err(error) => return Ok(Err(error)),
        }
        let missing = match j.query(Statement::SelectVersion)? {
            Ok(rows) => rows.len() == 0,
            Err(error) => return Ok(Err(error)),
        };
        if missing {
            match j.command(Statement::InsertVersion)? {
                Ok(()) => {},
                Err(error) => return Ok(Err(error)),
            }
        }
        let missing = match j.query(Statement::SelectSite)? {
            Ok(rows) => rows.len() == 0,
            Err(error) => return Ok(Err(error)),
        };
        if missing {
            match j.command(Statement::InsertSite { or_ignore: false })? {
                Ok(()) => {},
                Err(error) => return Ok(Err(error)),
            }
        }
        // Transport-specific state (e.g. server tokens).
        match j.command(Statement::CreateStateTable)? {
            Ok(()) => {},
            Err(error) => return Ok(Err(error)),
        }
        match self.create_clock_tables(j)? {
            Ok(()) => {},
            Err(error) => return Ok(Err(error)),
        }
        self.store_schema_fingerprint(j)
    }
}

} // verus!
