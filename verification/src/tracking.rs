//! Change tracking: run after each mutation to record changes for sync.
use vstd::prelude::*;

use crate::ChangeRow;
use crate::ChangeView;
use crate::Changeset;
use crate::ChangesetView;
use crate::Crr;
use crate::alive;
use crate::changes_view;
use crate::flow::Halt;
use crate::flow::Journal;
use crate::flow::ReplyView;
use crate::flow::Rows;
use crate::flow::Script;
use crate::flow::Step;
use crate::flow::Turn;
use crate::flow::command;
use crate::flow::continues;
use crate::flow::done;
use crate::flow::halted;
use crate::flow::lemma_continues_further;
use crate::flow::lemma_continues_here;
use crate::flow::lemma_run_bind;
use crate::flow::lemma_run_more;
use crate::flow::query;
use crate::flow::run;
use crate::flow::step_of;
use crate::flow::turn_of;
use crate::helpers::col_ver_script;
use crate::helpers::exists_script;
use crate::helpers::read_script;
use crate::is_alive;
use crate::json::Json;
use crate::json::JsonView;
use crate::schema::SENTINEL;
use crate::schema::TableView;
use crate::schema::fingerprint_of;
use crate::schema::tables_view;
use crate::state::next_version_script;
use crate::state::schema_version_script;
use crate::state::site_script;
use crate::statement::Stamp;
use crate::statement::StampView;
use crate::statement::Statement;
use crate::statement::StatementView;
use crate::text::same_text;
use crate::value::ErrorView;
use crate::value::Row;
use crate::value::SqlValue;
use crate::value::cell;
use crate::value::copy_bytes;
use crate::value::rows_view;

verus! {

broadcast use lemma_run_bind;

/// What a list of column names holds.
pub open spec fn names_view(names: Seq<&str>) -> Seq<Seq<char>> {
    names.map_values(|name: &str| name@)
}

/// The clock entry that holds the causal length of a row.
pub open spec fn sentinel_stamp(pk: Seq<char>, cl: i64, db_ver: i64, site: Seq<u8>) -> StampView {
    StampView { pk, column: SENTINEL@, col_ver: cl, db_ver, site_id: site, seq: 0 }
}

/// The clock entry that holds the causal length of a row.
pub fn sentinel_entry(pk: &str, cl: i64, db_ver: i64, site: &Vec<u8>) -> (stamp: Stamp)
    ensures
        stamp@ == sentinel_stamp(pk@, cl, db_ver, site@),
{
    Stamp {
        pk: pk.to_owned(),
        column: SENTINEL.to_owned(),
        col_ver: cl,
        db_ver,
        site_id: copy_bytes(site),
        seq: 0,
    }
}

/// Stores a clock entry of version one for each column from the one at `from` on, numbered by
/// its place.
pub open spec fn seed_columns_script(
    table: Seq<char>,
    pk: Seq<char>,
    columns: Seq<Seq<char>>,
    db_ver: i64,
    site: Seq<u8>,
    from: int,
) -> Script<Result<(), ErrorView>>
    decreases columns.len() - from,
{
    if 0 <= from < columns.len() {
        if from >= i64::MAX {
            Script::Fault
        } else {
            command(
                StatementView::PutClock {
                    table,
                    stamp: StampView {
                        pk,
                        column: columns[from],
                        col_ver: 1,
                        db_ver,
                        site_id: site,
                        seq: (from + 1) as i64,
                    },
                },
            ).and(|ok: ()| seed_columns_script(table, pk, columns, db_ver, site, from + 1))
        }
    } else {
        done(())
    }
}

/// Stores the causal length `cl` for a row, and version one for each of the columns.
pub open spec fn seed_script(
    table: Seq<char>,
    pk: Seq<char>,
    cl: i64,
    columns: Seq<Seq<char>>,
) -> Script<Result<(), ErrorView>> {
    site_script().and(
        |site: Seq<u8>|
            next_version_script().and(
                |db_ver: i64|
                    command(
                        StatementView::PutClock {
                            table,
                            stamp: sentinel_stamp(pk, cl, db_ver, site),
                        },
                    ).and(|ok: ()| seed_columns_script(table, pk, columns, db_ver, site, 0)),
            ),
    )
}

/// Raises the version of each column from the one at `from` on by one, numbered by its place.
pub open spec fn raise_columns_script(
    table: Seq<char>,
    pk: Seq<char>,
    columns: Seq<Seq<char>>,
    db_ver: i64,
    site: Seq<u8>,
    from: int,
) -> Script<Result<(), ErrorView>>
    decreases columns.len() - from,
{
    if 0 <= from < columns.len() {
        col_ver_script(table, pk, columns[from]).bind(
            |ver: i64|
                if ver == i64::MAX || from > i64::MAX {
                    Script::Fault
                } else {
                    command(
                        StatementView::PutClock {
                            table,
                            stamp: StampView {
                                pk,
                                column: columns[from],
                                col_ver: (ver + 1) as i64,
                                db_ver,
                                site_id: site,
                                seq: from as i64,
                            },
                        },
                    ).and(|ok: ()| raise_columns_script(table, pk, columns, db_ver, site, from + 1))
                },
        )
    } else {
        done(())
    }
}

/// Raises the version of each changed column of a row by one.
pub open spec fn update_script(table: Seq<char>, pk: Seq<char>, columns: Seq<Seq<char>>) -> Script<
    Result<(), ErrorView>,
> {
    site_script().and(
        |site: Seq<u8>|
            next_version_script().and(
                |db_ver: i64| raise_columns_script(table, pk, columns, db_ver, site, 0),
            ),
    )
}

/// The causal length of a row once it is deleted.
pub open spec fn deleted_length(cl: i64) -> int {
    if alive(cl) {
        cl + 1
    } else {
        cl + 2
    }
}

/// Raises the causal length of a row to that of a deleted row.
pub open spec fn track_delete_script(table: Seq<char>, pk: Seq<char>) -> Script<
    Result<(), ErrorView>,
> {
    site_script().and(
        |site: Seq<u8>|
            next_version_script().and(
                |db_ver: i64|
                    col_ver_script(table, pk, SENTINEL@).bind(
                        |cl: i64|
                            if deleted_length(cl) > i64::MAX {
                                Script::Fault
                            } else {
                                command(
                                    StatementView::PutClock {
                                        table,
                                        stamp: sentinel_stamp(
                                            pk,
                                            deleted_length(cl) as i64,
                                            db_ver,
                                            site,
                                        ),
                                    },
                                )
                            },
                    ),
            ),
    )
}

/// Tracks a row that is in its table and not tracked as alive.
pub open spec fn adopt_script(
    tables: Seq<TableView>,
    table: Seq<char>,
    pk: Seq<char>,
    columns: Seq<Seq<char>>,
) -> Script<Result<(), ErrorView>> {
    exists_script(tables, table, pk).bind(
        |present: bool|
            if present {
                col_ver_script(table, pk, SENTINEL@).bind(
                    |cl: i64|
                        if alive(cl) {
                            done(())
                        } else {
                            seed_script(table, pk, (cl + 1) as i64, columns)
                        },
                )
            } else {
                done(())
            },
    )
}

/// The clock entry that a row of the listing of changes tells of.
pub open spec fn listed_stamp(row: Seq<SqlValue>) -> StampView {
    StampView {
        pk: cell(row, 0).text_or_empty(),
        column: cell(row, 1).text_or_empty(),
        col_ver: cell(row, 2).integer_or(0),
        db_ver: cell(row, 3).integer_or(0),
        site_id: cell(row, 4).bytes_or_empty(),
        seq: cell(row, 5).integer_or(0),
    }
}

/// The change that a clock entry tells of, with the causal length and the value of its column.
pub open spec fn change_of(table: Seq<char>, stamp: StampView, cl: i64, value: JsonView) -> ChangeView {
    ChangeView {
        table_name: table,
        pk: stamp.pk,
        col_name: stamp.column,
        col_val: value,
        col_ver: stamp.col_ver,
        db_ver: stamp.db_ver,
        site_id: stamp.site_id,
        seq: stamp.seq,
        cl,
    }
}

/// Reads what a clock entry leaves out of its change: the causal length of the row, and the value
/// of the column unless the entry is a sentinel.
pub open spec fn change_script(tables: Seq<TableView>, table: Seq<char>, stamp: StampView) -> Script<
    ChangeView,
> {
    col_ver_script(table, stamp.pk, SENTINEL@).bind(
        |cl: i64|
            (if stamp.column == SENTINEL@ {
                Script::Done(JsonView::Null)
            } else {
                read_script(tables, table, stamp.pk, stamp.column)
            }).bind(|value: JsonView| Script::Done(change_of(table, stamp, cl, value))),
    )
}

/// Adds to `sofar` the changes of the listed clock entries of a table from the one at `from` on.
pub open spec fn table_changes_script(
    tables: Seq<TableView>,
    table: Seq<char>,
    stamps: Seq<StampView>,
    from: int,
    sofar: Seq<ChangeView>,
) -> Script<Seq<ChangeView>>
    decreases stamps.len() - from,
{
    if 0 <= from < stamps.len() {
        change_script(tables, table, stamps[from]).bind(
            |change: ChangeView|
                table_changes_script(tables, table, stamps, from + 1, sofar.push(change)),
        )
    } else {
        Script::Done(sofar)
    }
}

/// Adds to `sofar` the changes above a database version of all tables from the one at `from` on.
pub open spec fn changes_script(
    tables: Seq<TableView>,
    since: i64,
    from: int,
    sofar: Seq<ChangeView>,
) -> Script<Result<Seq<ChangeView>, ErrorView>>
    decreases tables.len() - from,
{
    if 0 <= from < tables.len() {
        query(StatementView::SelectChanges { table: tables[from].name, since }).and(
            |rows: Rows|
                table_changes_script(
                    tables,
                    tables[from].name,
                    rows.map_values(|row: Seq<SqlValue>| listed_stamp(row)),
                    0,
                    sofar,
                ).bind(|changes: Seq<ChangeView>| changes_script(tables, since, from + 1, changes)),
        )
    } else {
        done(sofar)
    }
}

/// Reads all changes above a database version and the identity of the schema.
pub open spec fn changeset_script(tables: Seq<TableView>, since: i64) -> Script<
    Result<ChangesetView, ErrorView>,
> {
    changes_script(tables, since, 0, Seq::empty()).and(
        |rows: Seq<ChangeView>|
            schema_version_script().bind(
                |version: i64|
                    done(
                        ChangesetView {
                            schema_version: version,
                            fingerprint: fingerprint_of(tables),
                            rows,
                        },
                    ),
            ),
    )
}

/// What a list of clock entries holds.
pub open spec fn stamps_view(stamps: Seq<Stamp>) -> Seq<StampView> {
    stamps.map_values(|stamp: Stamp| stamp@)
}

/// Reads the clock entries from the listing of changes.
fn read_stamps(rows: &Vec<Row>) -> (stamps: Vec<Stamp>)
    ensures
        stamps_view(stamps@) == rows_view(rows@).map_values(
            |row: Seq<SqlValue>| listed_stamp(row),
        ),
{
    let mut stamps: Vec<Stamp> = Vec::new();
    for i in 0..rows.len()
        invariant
            stamps@.len() == i,
            forall|k: int| 0 <= k < i ==> #[trigger] stamps@[k]@ == listed_stamp(rows@[k]@),
    {
        let row = &rows[i];
        stamps.push(
            Stamp {
                pk: row.get(0).text_or_empty(),
                column: row.get(1).text_or_empty(),
                col_ver: row.get(2).integer_or(0),
                db_ver: row.get(3).integer_or(0),
                site_id: row.get(4).bytes_or_empty(),
                seq: row.get(5).integer_or(0),
            },
        );
    }
    assert(stamps_view(stamps@) =~= rows_view(rows@).map_values(
        |row: Seq<SqlValue>| listed_stamp(row),
    ));
    stamps
}

impl<D> Crr<D> {
    fn seed_columns(
        &self,
        j: &mut Journal,
        table: &str,
        pk: &str,
        columns: &[&str],
        db_ver: i64,
        site: &Vec<u8>,
    ) -> (step: Step<()>)
        ensures
            old(j).follows(
                *final(j),
                seed_columns_script(table@, pk@, names_view(columns@), db_ver, site@, 0),
                step_of(step),
            ),
    {
        let mut i: usize = 0;
        while i < columns.len()
            invariant
                i <= columns@.len(),
                run(
                    seed_columns_script(table@, pk@, names_view(columns@), db_ver, site@, 0),
                    old(j).rest(),
                ) == run(
                    seed_columns_script(table@, pk@, names_view(columns@), db_ver, site@, i as int),
                    j.rest(),
                ),
                j.all() == old(j).all(),
            decreases columns@.len() - i,
        {
            if i as u64 >= i64::MAX as u64 {
                return Err(Halt::Fault);
            }
            let stamp = Stamp {
                pk: pk.to_owned(),
                column: columns[i].to_owned(),
                col_ver: 1,
                db_ver,
                site_id: copy_bytes(site),
                seq: i as i64 + 1,
            };
            match j.command(Statement::PutClock { table: table.to_owned(), stamp })? {
                Ok(()) => {},
                Err(error) => return Ok(Err(error)),
            }
            i += 1;
        }
        Ok(Ok(()))
    }

    fn seed_row(&self, j: &mut Journal, table: &str, pk: &str, cl: i64, columns: &[&str]) -> (step:
        Step<()>)
        ensures
            old(j).follows(
                *final(j),
                seed_script(table@, pk@, cl, names_view(columns@)),
                step_of(step),
            ),
    {
        let site = match self.site_id(j)? {
            Ok(site) => site,
            Err(error) => return Ok(Err(error)),
        };
        let db_ver = match self.next_db_version(j)? {
            Ok(db_ver) => db_ver,
            Err(error) => return Ok(Err(error)),
        };
        let stamp = sentinel_entry(pk, cl, db_ver, &site);
        match j.command(Statement::PutClock { table: table.to_owned(), stamp })? {
            Ok(()) => {},
            Err(error) => return Ok(Err(error)),
        }
        self.seed_columns(j, table, pk, columns, db_ver, &site)
    }

    /// Records an INSERT: sentinel CL=1, all columns at col_ver=1.
    ///
    /// Run right after your own `INSERT`. `columns` are the tracked columns that were written.
    pub fn track_insert(&self, j: &mut Journal, table: &str, pk: &str, columns: &[&str]) -> (step:
        Step<()>)
        ensures
            old(j).follows(
                *final(j),
                seed_script(table@, pk@, 1, names_view(columns@)),
                step_of(step),
            ),
    {
        // The sentinel marks the row as alive (CL=1, odd).
        self.seed_row(j, table, pk, 1, columns)
    }

    fn raise_columns(
        &self,
        j: &mut Journal,
        table: &str,
        pk: &str,
        columns: &[&str],
        db_ver: i64,
        site: &Vec<u8>,
    ) -> (step: Step<()>)
        ensures
            old(j).follows(
                *final(j),
                raise_columns_script(table@, pk@, names_view(columns@), db_ver, site@, 0),
                step_of(step),
            ),
    {
        let mut i: usize = 0;
        while i < columns.len()
            invariant
                i <= columns@.len(),
                run(
                    raise_columns_script(table@, pk@, names_view(columns@), db_ver, site@, 0),
                    old(j).rest(),
                ) == run(
                    raise_columns_script(table@, pk@, names_view(columns@), db_ver, site@, i as int),
                    j.rest(),
                ),
                j.all() == old(j).all(),
            decreases columns@.len() - i,
        {
            let ver = self.get_col_ver(j, table, pk, columns[i])?;
            if ver == i64::MAX || i as u64 > i64::MAX as u64 {
                return Err(Halt::Fault);
            }
            let stamp = Stamp {
                pk: pk.to_owned(),
                column: columns[i].to_owned(),
                col_ver: ver + 1,
                db_ver,
                site_id: copy_bytes(site),
                seq: i as i64,
            };
            match j.command(Statement::PutClock { table: table.to_owned(), stamp })? {
                Ok(()) => {},
                Err(error) => return Ok(Err(error)),
            }
            i += 1;
        }
        Ok(Ok(()))
    }

    /// Records an UPDATE: increments col_ver for each changed column.
    pub fn track_update(
        &self,
        j: &mut Journal,
        table: &str,
        pk: &str,
        changed_columns: &[&str],
    ) -> (step: Step<()>)
        ensures
            old(j).follows(
                *final(j),
                update_script(table@, pk@, names_view(changed_columns@)),
                step_of(step),
            ),
    {
        let site = match self.site_id(j)? {
            Ok(site) => site,
            Err(error) => return Ok(Err(error)),
        };
        let db_ver = match self.next_db_version(j)? {
            Ok(db_ver) => db_ver,
            Err(error) => return Ok(Err(error)),
        };
        self.raise_columns(j, table, pk, changed_columns, db_ver, &site)
    }

    /// Records a DELETE: increments sentinel CL to next even number.
    ///
    /// Column clocks are intentionally preserved (not dropped) so that resurrection can zero them
    /// and let incoming values win.
    pub fn track_delete(&self, j: &mut Journal, table: &str, pk: &str) -> (step: Step<()>)
        ensures
            old(j).follows(*final(j), track_delete_script(table@, pk@), step_of(step)),
    {
        let site = match self.site_id(j)? {
            Ok(site) => site,
            Err(error) => return Ok(Err(error)),
        };
        let db_ver = match self.next_db_version(j)? {
            Ok(db_ver) => db_ver,
            Err(error) => return Ok(Err(error)),
        };
        let cl = self.get_col_ver(j, table, pk, SENTINEL)?;
        let step: i64 = if is_alive(cl) {
            1
        } else {
            2
        };
        if cl > i64::MAX - step {
            return Err(Halt::Fault);
        }
        let stamp = sentinel_entry(pk, cl + step, db_ver, &site);
        j.command(Statement::PutClock { table: table.to_owned(), stamp })
    }

    /// Adopts a row that exists in the table but is not correctly tracked.
    ///
    /// This repairs libraries whose rows were written while their clock entries were not, so that
    /// [`Crr::changes_since`] never emits them.
    ///
    /// Unlike [`Crr::track_insert`], which unconditionally writes sentinel `col_ver = 1`, this
    /// reads the current sentinel first and does the right thing for each of the three states it
    /// can be in:
    ///
    /// - **absent** (`0`): never tracked. Identical to `track_insert`.
    /// - **even**: the row reads as deleted even though it is present locally. The sentinel
    ///   advances to `current + 1` (odd, hence alive).
    /// - **odd**: already alive and tracked. A no-op.
    ///
    /// A row that is absent from the table is also a no-op, so adoption can never resurrect
    /// something a peer legitimately deleted.
    ///
    /// Column clocks are seeded at `col_ver = 1` rather than zeroed: the local row *is* the value
    /// being adopted, so it has to carry a version a peer can actually receive.
    pub fn track_adopt(&self, j: &mut Journal, table: &str, pk: &str, columns: &[&str]) -> (step:
        Step<()>)
        ensures
            old(j).follows(
                *final(j),
                adopt_script(self.tables(), table@, pk@, names_view(columns@)),
                step_of(step),
            ),
    {
        // Only adopt rows that are really there; the clock alone cannot say.
        if !self.row_exists(j, table, pk)? {
            return Ok(Ok(()));
        }
        let cl = self.get_col_ver(j, table, pk, SENTINEL)?;
        // Already alive and tracked: leave its versions alone.
        if is_alive(cl) {
            return Ok(Ok(()));
        }
        self.seed_row(j, table, pk, cl + 1, columns)
    }

    fn read_change(&self, j: &mut Journal, table: &str, stamp: &Stamp) -> (step: Result<
        ChangeRow,
        Halt,
    >)
        ensures
            old(j).follows(
                *final(j),
                change_script(self.tables(), table@, stamp@),
                turn_of(step),
            ),
    {
        let cl = self.get_col_ver(j, table, stamp.pk.as_str(), SENTINEL)?;
        let col_val = if same_text(stamp.column.as_str(), SENTINEL) {
            Json::Null
        } else {
            self.read_column_value(j, table, stamp.pk.as_str(), stamp.column.as_str())?
        };
        Ok(
            ChangeRow {
                table_name: table.to_owned(),
                pk: stamp.pk.clone(),
                col_name: stamp.column.clone(),
                col_val,
                col_ver: stamp.col_ver,
                db_ver: stamp.db_ver,
                site_id: copy_bytes(&stamp.site_id),
                seq: stamp.seq,
                cl,
            },
        )
    }

    fn read_changes(
        &self,
        j: &mut Journal,
        table: &str,
        stamps: &Vec<Stamp>,
        changes: &mut Vec<ChangeRow>,
    ) -> (step: Result<(), Halt>)
        ensures
            old(j).follows(
                *final(j),
                table_changes_script(
                    self.tables(),
                    table@,
                    stamps_view(stamps@),
                    0,
                    changes_view(old(changes)@),
                ),
                match step {
                    Ok(()) => Turn::Done(changes_view(final(changes)@)),
                    Err(halt) => halted(halt),
                },
            ),
    {
        let ghost views = stamps_view(stamps@);
        let mut i: usize = 0;
        while i < stamps.len()
            invariant
                i <= stamps@.len(),
                views == stamps_view(stamps@),
                run(
                    table_changes_script(
                        self.tables(),
                        table@,
                        views,
                        0,
                        changes_view(old(changes)@),
                    ),
                    old(j).rest(),
                ) == run(
                    table_changes_script(
                        self.tables(),
                        table@,
                        views,
                        i as int,
                        changes_view(changes@),
                    ),
                    j.rest(),
                ),
                j.all() == old(j).all(),
            decreases stamps@.len() - i,
        {
            let ghost sofar = changes@;
            let change = self.read_change(j, table, &stamps[i])?;
            changes.push(change);
            assert(changes_view(changes@) =~= changes_view(sofar).push(change@));
            i += 1;
        }
        Ok(())
    }

    /// Reads all changes since a given db_version, ready to send to peers.
    pub fn changes_since(&self, j: &mut Journal, since_db_ver: i64) -> (step: Step<Vec<ChangeRow>>)
        ensures
            old(j).follows(
                *final(j),
                changes_script(self.tables(), since_db_ver, 0, Seq::empty()),
                match step {
                    Ok(Ok(changes)) => Turn::Done(Ok(changes_view(changes@))),
                    Ok(Err(error)) => Turn::Done(Err(error@)),
                    Err(halt) => halted(halt),
                },
            ),
    {
        let tables = &self.schema().tables;
        let mut changes: Vec<ChangeRow> = Vec::new();
        assert(changes_view(changes@) =~= Seq::empty());
        let mut i: usize = 0;
        while i < tables.len()
            invariant
                i <= tables@.len(),
                self.tables() == tables_view(tables@),
                run(
                    changes_script(self.tables(), since_db_ver, 0, Seq::empty()),
                    old(j).rest(),
                ) == run(
                    changes_script(
                        self.tables(),
                        since_db_ver,
                        i as int,
                        changes_view(changes@),
                    ),
                    j.rest(),
                ),
                j.all() == old(j).all(),
            decreases tables@.len() - i,
        {
            let table = tables[i].name.as_str();
            let stamps = match j.query(
                Statement::SelectChanges { table: table.to_owned(), since: since_db_ver },
            )? {
                Ok(rows) => read_stamps(rows),
                Err(error) => return Ok(Err(error)),
            };
            self.read_changes(j, table, &stamps, &mut changes)?;
            i += 1;
        }
        Ok(Ok(changes))
    }

    /// Reads all changes since a given db_version, wrapped in a versioned [`Changeset`] envelope
    /// carrying this replica's schema identity. Prefer this over [`Crr::changes_since`] so the
    /// receiver can detect a schema mismatch via [`Crr::apply_changeset`].
    pub fn changeset_since(&self, j: &mut Journal, since_db_ver: i64) -> (step: Step<Changeset>)
        ensures
            old(j).follows(
                *final(j),
                changeset_script(self.tables(), since_db_ver),
                step_of(step),
            ),
    {
        let rows = match self.changes_since(j, since_db_ver)? {
            Ok(rows) => rows,
            Err(error) => return Ok(Err(error)),
        };
        let schema_version = self.schema_version(j)?;
        Ok(Ok(self.seal(schema_version, rows)))
    }

    /// Wraps changes in the envelope that carries this replica's schema identity.
    pub fn seal(&self, schema_version: i64, rows: Vec<ChangeRow>) -> (changeset: Changeset)
        ensures
            changeset@ == (ChangesetView {
                schema_version,
                fingerprint: fingerprint_of(self.tables()),
                rows: changes_view(rows@),
            }),
    {
        Changeset { schema_version, fingerprint: self.schema().fingerprint(), rows }
    }
}

/// A reading of many changes that is carried on from one change to the next, so that the replies
/// to the queries of a change can be forgotten once it is read.
pub struct Export {
    table: usize,
    stamps: Option<Vec<Stamp>>,
    row: usize,
    changes: Vec<ChangeRow>,
}

impl Export {
    /// What is left to do of the reading.
    pub closed spec fn script(self, tables: Seq<TableView>, since: i64) -> Script<
        Result<Seq<ChangeView>, ErrorView>,
    > {
        match self.stamps {
            Some(stamps) => table_changes_script(
                tables,
                tables[self.table as int].name,
                stamps_view(stamps@),
                self.row as int,
                changes_view(self.changes@),
            ).bind(
                |changes: Seq<ChangeView>|
                    changes_script(tables, since, self.table + 1, changes),
            ),
            None => changes_script(
                tables,
                since,
                self.table as int,
                changes_view(self.changes@),
            ),
        }
    }

    /// Whether the reading can be one of that many tables.
    pub closed spec fn within(self, count: nat) -> bool {
        match self.stamps {
            Some(stamps) => self.table < count && self.row <= stamps@.len(),
            None => self.table <= count,
        }
    }

    /// A reading that has not begun.
    pub fn new() -> (export: Self)
        ensures
            forall|count: nat| export.within(count),
            forall|tables: Seq<TableView>, since: i64|
                #![trigger export.script(tables, since)]
                export.script(tables, since) == changes_script(tables, since, 0, Seq::empty()),
    {
        let export = Export { table: 0, stamps: None, row: 0, changes: Vec::new() };
        assert(changes_view(export.changes@) =~= Seq::empty());
        export
    }
}

impl<D> Crr<D> {
    /// Carries on with the listed clock entries of one table.
    fn resume_table(&self, export: &mut Export, j: &mut Journal, since: i64) -> (step: Result<
        (),
        Halt,
    >)
        requires
            old(export).within(self.tables().len()),
            old(export).stamps is Some,
            old(j).rest() == old(j).all(),
        ensures
            final(export).within(self.tables().len()),
            final(export).table == old(export).table,
            continues(
                old(export).script(self.tables(), since),
                old(j).all(),
                final(export).script(self.tables(), since),
                final(j).all(),
            ),
            match step {
                Ok(()) => {
                    &&& final(export).stamps is Some
                    &&& final(export).row == final(export).stamps->0@.len()
                    &&& final(j).rest() == final(j).all()
                },
                Err(halt) => run(final(export).script(self.tables(), since), final(j).all()).0
                    == halted::<Result<Seq<ChangeView>, ErrorView>>(halt),
            },
    {
        let tables = &self.schema().tables;
        let ghost views = self.tables();
        let ghost first = export.script(views, since);
        let ghost replies = j.all();
        let table = tables[export.table].name.as_str();
        let count = match &export.stamps {
            Some(stamps) => stamps.len(),
            None => 0,
        };
        while export.row < count
            invariant
                views == self.tables(),
                views == tables_view(tables@),
                first == old(export).script(views, since),
                replies == old(j).all(),
                export.within(views.len()),
                export.table == old(export).table,
                export.stamps is Some,
                count == export.stamps->0@.len(),
                table@ == views[export.table as int].name,
                j.rest() == j.all(),
                continues(first, replies, export.script(views, since), j.all()),
            decreases count - export.row,
        {
            let ghost here = export.script(views, since);
            let ghost held = j.all();
            let ghost stamps = stamps_view(export.stamps->0@);
            let ghost from = export.row as int;
            let ghost sofar = export.changes@;
            let change = match &export.stamps {
                Some(stamps) => self.read_change(j, table, &stamps[export.row])?,
                None => return Err(Halt::Fault),
            };
            j.forget();
            export.changes.push(change);
            export.row = export.row + 1;
            proof {
                assert(changes_view(export.changes@) =~= changes_view(sofar).push(change@));
                assert forall|more: Seq<ReplyView>| #[trigger]
                    run(here, held + more) == run(
                    export.script(views, since),
                    j.all() + more,
                ) by {
                    lemma_run_more(change_script(views, table@, stamps[from]), held, more);
                }
                lemma_continues_further(
                    first,
                    replies,
                    here,
                    held,
                    export.script(views, since),
                    j.all(),
                );
            }
        }
        Ok(())
    }

    /// Carries on a reading of changes until it is over or needs a reply, as
    /// [`Crr::changes_since`] does from its beginning. The journal holds only the replies of the
    /// change that is being read.
    pub fn resume_export(&self, export: &mut Export, j: &mut Journal, since_db_ver: i64) -> (step:
        Step<Vec<ChangeRow>>)
        requires
            old(export).within(self.tables().len()),
            old(j).rest() == old(j).all(),
        ensures
            final(export).within(self.tables().len()),
            match step {
                Ok(Ok(changes)) => Turn::Done(Ok(changes_view(changes@))),
                Ok(Err(error)) => Turn::Done(Err(error@)),
                Err(halt) => halted(halt),
            } == run(old(export).script(self.tables(), since_db_ver), old(j).all()).0,
            step is Err ==> continues(
                old(export).script(self.tables(), since_db_ver),
                old(j).all(),
                final(export).script(self.tables(), since_db_ver),
                final(j).all(),
            ),
    {
        let tables = &self.schema().tables;
        let ghost views = self.tables();
        let ghost first = export.script(views, since_db_ver);
        let ghost replies = j.all();
        let count = tables.len();
        loop
            invariant
                count == tables@.len(),
                views == self.tables(),
                views == tables_view(tables@),
                first == old(export).script(views, since_db_ver),
                replies == old(j).all(),
                export.within(views.len()),
                j.rest() == j.all(),
                continues(first, replies, export.script(views, since_db_ver), j.all()),
            decreases
                    tables@.len() - export.table,
                    if export.stamps is Some {
                        0int
                    } else {
                        1
                    },
        {
            let ghost here = export.script(views, since_db_ver);
            let ghost held = j.all();
            proof {
                lemma_continues_here(first, replies, here, held);
            }
            if export.stamps.is_some() {
                let halt = self.resume_table(export, j, since_db_ver);
                proof {
                    lemma_continues_further(
                        first,
                        replies,
                        here,
                        held,
                        export.script(views, since_db_ver),
                        j.all(),
                    );
                    lemma_continues_here(
                        first,
                        replies,
                        export.script(views, since_db_ver),
                        j.all(),
                    );
                }
                halt?;
                let ghost before = export.script(views, since_db_ver);
                export.stamps = None;
                export.row = 0;
                export.table = export.table + 1;
                assert(before == export.script(views, since_db_ver));
            } else if export.table < count {
                let table = tables[export.table].name.clone();
                let ghost view = table@;
                let stamps = match j.query(
                    Statement::SelectChanges { table, since: since_db_ver },
                )? {
                    Ok(rows) => read_stamps(rows),
                    Err(error) => return Ok(Err(error)),
                };
                j.forget();
                export.stamps = Some(stamps);
                export.row = 0;
                proof {
                    assert forall|more: Seq<ReplyView>| #[trigger]
                        run(here, held + more) == run(
                        export.script(views, since_db_ver),
                        j.all() + more,
                    ) by {
                        lemma_run_more(
                            query(StatementView::SelectChanges { table: view, since: since_db_ver }),
                            held,
                            more,
                        );
                    }
                    lemma_continues_further(
                        first,
                        replies,
                        here,
                        held,
                        export.script(views, since_db_ver),
                        j.all(),
                    );
                }
            } else {
                let mut changes: Vec<ChangeRow> = Vec::new();
                std::mem::swap(&mut changes, &mut export.changes);
                return Ok(Ok(changes));
            }
        }
    }
}

} // verus!
