//! The single reads and writes that the operations are made of.
use vstd::prelude::*;

use crate::Crr;
use crate::flow::Halt;
use crate::flow::Journal;
use crate::flow::Rows;
use crate::flow::Script;
use crate::flow::command;
use crate::flow::lemma_run_bind;
use crate::flow::query;
use crate::flow::turn_of;
use crate::json::Json;
use crate::json::JsonView;
use crate::json::fits_json;
use crate::json::has_json;
use crate::json::json_of;
use crate::json::json_to_value;
use crate::json::value_of;
use crate::json::value_to_json;
use crate::schema::PkSpec;
use crate::schema::PkView;
use crate::schema::SkeletonView;
use crate::schema::TableSpec;
use crate::schema::TableView;
use crate::schema::table_of;
use crate::statement::Cell;
use crate::statement::Key;
use crate::statement::KeyPart;
use crate::statement::Statement;
use crate::statement::StatementView;
use crate::statement::cells_view;
use crate::statement::key_view;
use crate::text::halves;
use crate::text::split_at_first;
use crate::value::ErrorView;
use crate::value::SqlValue;
use crate::value::Value;
use crate::value::cell;

verus! {

broadcast use lemma_run_bind;

/// Whether a key text holds a value for each key column.
pub open spec fn decodes(shape: PkView, pk: Seq<char>) -> bool {
    match shape {
        PkView::Single { column } => true,
        PkView::Composite { columns, sep } => halves(pk, sep) is Some,
    }
}

/// The key columns of the row that a key text stands for, with their values. A text that holds
/// only one of two values is taken as the first, and the second as empty.
pub open spec fn key_of(shape: PkView, pk: Seq<char>) -> Key {
    match shape {
        PkView::Single { column } => seq![(column, pk)],
        PkView::Composite { columns, sep } => match halves(pk, sep) {
            Some((a, b)) => seq![(columns.0, a), (columns.1, b)],
            None => seq![(columns.0, pk), (columns.1, Seq::empty())],
        },
    }
}

/// Whether `pk` holds a value for each key column.
pub fn pk_decodes(shape: &PkSpec, pk: &str) -> (yes: bool)
    ensures
        yes == decodes(shape@, pk@),
{
    match shape {
        PkSpec::Single { column } => true,
        PkSpec::Composite { columns, sep } => split_at_first(pk, *sep).is_some(),
    }
}

/// The key columns and values of the row with key text `pk`.
pub fn pk_where(shape: &PkSpec, pk: &str) -> (key: Vec<KeyPart>)
    ensures
        key_view(key@) == key_of(shape@, pk@),
{
    let mut key: Vec<KeyPart> = Vec::new();
    match shape {
        PkSpec::Single { column } => {
            key.push(KeyPart { column: column.clone(), value: pk.to_owned() });
        },
        PkSpec::Composite { columns, sep } => {
            let (a, b) = match split_at_first(pk, *sep) {
                Some((a, b)) => (a, b),
                None => (pk.to_owned(), String::new()),
            };
            key.push(KeyPart { column: columns.0.clone(), value: a });
            key.push(KeyPart { column: columns.1.clone(), value: b });
        },
    }
    assert(key_view(key@) =~= key_of(shape@, pk@));
    key
}

/// The skeleton defaults of a table at the time `now`.
pub open spec fn defaults_at(skeleton: Seq<(Seq<char>, SkeletonView)>, now: Seq<char>) -> Seq<
    (Seq<char>, SqlValue),
> {
    Seq::new(skeleton.len(), |i: int| (skeleton[i].0, skeleton[i].1.at(now)))
}

/// The skeleton defaults of `table` at the time `now`.
fn skeleton_cells(table: &TableSpec, now: &str) -> (cells: Vec<Cell>)
    ensures
        cells_view(cells@) == defaults_at(table@.skeleton, now@),
{
    let mut cells: Vec<Cell> = Vec::new();
    for i in 0..table.skeleton.len()
        invariant
            cells@.len() == i,
            forall|k: int|
                #![trigger cells@[k]]
                0 <= k < i ==> cells@[k].column@ == table.skeleton@[k].0@ && cells@[k].value@
                    == table.skeleton@[k].1@.at(now@),
    {
        cells.push(
            Cell {
                column: table.skeleton[i].0.clone(),
                value: table.skeleton[i].1.resolve_at(now),
            },
        );
    }
    assert(cells_view(cells@) =~= defaults_at(table@.skeleton, now@));
    cells
}

/// The first cell of the first row, where there is one.
pub open spec fn first_cell(rows: Rows) -> SqlValue {
    if rows.len() > 0 {
        cell(rows[0], 0)
    } else {
        SqlValue::Null
    }
}

/// A statement whose success does not matter.
pub open spec fn attempt(statement: StatementView) -> Script<()> {
    command(statement).bind(|outcome: Result<(), ErrorView>| Script::Done(()))
}

/// Reads the version of a clock entry, zero where there is none.
pub open spec fn col_ver_script(table: Seq<char>, pk: Seq<char>, column: Seq<char>) -> Script<i64> {
    query(StatementView::SelectColVer { table, pk, column }).bind(
        |outcome: Result<Rows, ErrorView>|
            Script::Done(
                match outcome {
                    Ok(rows) => first_cell(rows).integer_or(0),
                    Err(error) => 0,
                },
            ),
    )
}

/// Reads the version and the site of a clock entry, zero and no bytes where there is none.
pub open spec fn clock_script(table: Seq<char>, pk: Seq<char>, column: Seq<char>) -> Script<
    (i64, Seq<u8>),
> {
    query(StatementView::SelectClock { table, pk, column }).bind(
        |outcome: Result<Rows, ErrorView>|
            Script::Done(
                match outcome {
                    Ok(rows) => if rows.len() > 0 {
                        (cell(rows[0], 0).integer_or(0), cell(rows[0], 1).bytes_or_empty())
                    } else {
                        (0, Seq::empty())
                    },
                    Err(error) => (0, Seq::empty()),
                },
            ),
    )
}

/// Reads a column of a row as JSON, `null` where it cannot be read.
pub open spec fn read_script(
    tables: Seq<TableView>,
    table: Seq<char>,
    pk: Seq<char>,
    column: Seq<char>,
) -> Script<JsonView> {
    match table_of(tables, table) {
        Some(spec) => if decodes(spec.pk, pk) {
            query(StatementView::ReadCell { table, column, key: key_of(spec.pk, pk) }).bind(
                |outcome: Result<Rows, ErrorView>|
                    match outcome {
                        Ok(rows) => if has_json(first_cell(rows)) {
                            Script::Done(json_of(first_cell(rows)))
                        } else {
                            Script::Fault
                        },
                        Err(error) => Script::Done(JsonView::Null),
                    },
            )
        } else {
            Script::Done(JsonView::Null)
        },
        None => Script::Done(JsonView::Null),
    }
}

/// Finds out whether a row is physically present in its table.
pub open spec fn exists_script(tables: Seq<TableView>, table: Seq<char>, pk: Seq<char>) -> Script<
    bool,
> {
    match table_of(tables, table) {
        Some(spec) => if decodes(spec.pk, pk) {
            query(StatementView::ProbeRow { table, key: key_of(spec.pk, pk) }).bind(
                |outcome: Result<Rows, ErrorView>|
                    Script::Done(
                        match outcome {
                            Ok(rows) => rows.len() > 0,
                            Err(error) => false,
                        },
                    ),
            )
        } else {
            Script::Done(false)
        },
        None => Script::Done(false),
    }
}

/// Creates a skeleton row, where the table is known and the key text is complete.
pub open spec fn skeleton_script(
    tables: Seq<TableView>,
    table: Seq<char>,
    pk: Seq<char>,
    now: Seq<char>,
) -> Script<()> {
    match table_of(tables, table) {
        Some(spec) => if decodes(spec.pk, pk) {
            attempt(
                StatementView::InsertRow {
                    table,
                    key: key_of(spec.pk, pk),
                    defaults: defaults_at(spec.skeleton, now),
                },
            )
        } else {
            Script::Done(())
        },
        None => Script::Done(()),
    }
}

/// Stores a value in a column of a row, where the table is known and the key text is complete.
pub open spec fn write_script(
    tables: Seq<TableView>,
    table: Seq<char>,
    pk: Seq<char>,
    column: Seq<char>,
    value: JsonView,
) -> Script<()> {
    match table_of(tables, table) {
        Some(spec) => if decodes(spec.pk, pk) {
            attempt(
                StatementView::WriteCell {
                    table,
                    column,
                    value: value_of(value),
                    key: key_of(spec.pk, pk),
                },
            )
        } else {
            Script::Done(())
        },
        None => Script::Done(()),
    }
}

/// Removes a row, where the table is known and the key text is complete.
pub open spec fn delete_script(tables: Seq<TableView>, table: Seq<char>, pk: Seq<char>) -> Script<
    (),
> {
    match table_of(tables, table) {
        Some(spec) => if decodes(spec.pk, pk) {
            attempt(StatementView::DeleteRow { table, key: key_of(spec.pk, pk) })
        } else {
            Script::Done(())
        },
        None => Script::Done(()),
    }
}

impl Journal {
    /// Runs a statement whose success does not matter.
    pub fn attempt(&mut self, statement: Statement) -> (step: Result<(), Halt>)
        ensures
            old(self).follows(*final(self), attempt(statement@), turn_of(step)),
    {
        let _ = self.command(statement)?;
        Ok(())
    }
}

impl<D> Crr<D> {
    /// Returns (col_ver, site_id) for a clock entry, or (0, empty) if not found.
    pub fn get_clock_entry(
        &self,
        j: &mut Journal,
        table: &str,
        pk: &str,
        col_name: &str,
    ) -> (step: Result<(i64, Vec<u8>), Halt>)
        ensures
            old(j).follows(*final(j), clock_script(table@, pk@, col_name@), turn_of(step)),
    {
        match j.query(
            Statement::SelectClock {
                table: table.to_owned(),
                pk: pk.to_owned(),
                column: col_name.to_owned(),
            },
        )? {
            Ok(rows) => if rows.len() > 0 {
                Ok((rows[0].get(0).integer_or(0), rows[0].get(1).bytes_or_empty()))
            } else {
                Ok((0, Vec::new()))
            },
            Err(_) => Ok((0, Vec::new())),
        }
    }

    /// Returns col_ver for a clock entry, or 0 if not found.
    pub fn get_col_ver(&self, j: &mut Journal, table: &str, pk: &str, col_name: &str) -> (step:
        Result<i64, Halt>)
        ensures
            old(j).follows(*final(j), col_ver_script(table@, pk@, col_name@), turn_of(step)),
    {
        match j.query(
            Statement::SelectColVer {
                table: table.to_owned(),
                pk: pk.to_owned(),
                column: col_name.to_owned(),
            },
        )? {
            Ok(rows) => if rows.len() > 0 {
                Ok(rows[0].get(0).integer_or(0))
            } else {
                Ok(0)
            },
            Err(_) => Ok(0),
        }
    }

    /// Reads a single column value from a row by primary key, returning JSON: `null` for unknown
    /// tables and malformed composite keys.
    pub fn read_column_value(&self, j: &mut Journal, table: &str, pk: &str, col_name: &str) -> (step:
        Result<Json, Halt>)
        ensures
            old(j).follows(
                *final(j),
                read_script(self.tables(), table@, pk@, col_name@),
                turn_of(step),
            ),
    {
        let spec = match self.schema().table(table) {
            Some(spec) => spec,
            None => return Ok(Json::Null),
        };
        if !pk_decodes(&spec.pk, pk) {
            return Ok(Json::Null);
        }
        let key = pk_where(&spec.pk, pk);
        match j.query(
            Statement::ReadCell { table: table.to_owned(), column: col_name.to_owned(), key },
        )? {
            Ok(rows) => {
                let value = if rows.len() > 0 {
                    rows[0].get(0)
                } else {
                    Value::Null
                };
                if fits_json(&value) {
                    Ok(value_to_json(&value))
                } else {
                    Err(Halt::Fault)
                }
            },
            Err(_) => Ok(Json::Null),
        }
    }

    /// Whether a row is physically present in its table.
    ///
    /// Distinct from the sentinel, which records what peers should *believe* about the row. The
    /// two disagree exactly when tracking failed, which is what [`Crr::track_adopt`] repairs.
    ///
    /// Unknown tables and malformed composite keys report `false`, matching the other helpers
    /// here.
    pub fn row_exists(&self, j: &mut Journal, table: &str, pk: &str) -> (step: Result<bool, Halt>)
        ensures
            old(j).follows(*final(j), exists_script(self.tables(), table@, pk@), turn_of(step)),
    {
        let spec = match self.schema().table(table) {
            Some(spec) => spec,
            None => return Ok(false),
        };
        if !pk_decodes(&spec.pk, pk) {
            return Ok(false);
        }
        let key = pk_where(&spec.pk, pk);
        match j.query(Statement::ProbeRow { table: table.to_owned(), key })? {
            Ok(rows) => Ok(rows.len() > 0),
            Err(_) => Ok(false),
        }
    }

    /// Zeroes non-sentinel clocks so incoming values (col_ver >= 1) win on resurrect.
    pub fn zero_column_clocks(&self, j: &mut Journal, table: &str, pk: &str) -> (step: Result<
        (),
        Halt,
    >)
        ensures
            old(j).follows(
                *final(j),
                attempt(StatementView::ZeroColumns { table: table@, pk: pk@ }),
                turn_of(step),
            ),
    {
        j.attempt(Statement::ZeroColumns { table: table.to_owned(), pk: pk.to_owned() })
    }

    /// Creates a skeleton row with NOT NULL defaults; column-level changes fill actual values. A
    /// no-op for unknown tables or malformed composite keys.
    pub fn create_skeleton_row(&self, j: &mut Journal, table: &str, pk: &str, now: &str) -> (step:
        Result<(), Halt>)
        ensures
            old(j).follows(
                *final(j),
                skeleton_script(self.tables(), table@, pk@, now@),
                turn_of(step),
            ),
    {
        let spec = match self.schema().table(table) {
            Some(spec) => spec,
            None => return Ok(()),
        };
        if !pk_decodes(&spec.pk, pk) {
            return Ok(());
        }
        let key = pk_where(&spec.pk, pk);
        let defaults = skeleton_cells(spec, now);
        j.attempt(Statement::InsertRow { table: table.to_owned(), key, defaults })
    }

    /// Stores the winning `col_val` in a column of a row. A no-op for unknown tables or malformed
    /// composite keys.
    pub fn write_column_value(
        &self,
        j: &mut Journal,
        table: &str,
        pk: &str,
        col_name: &str,
        col_val: &Json,
    ) -> (step: Result<(), Halt>)
        ensures
            old(j).follows(
                *final(j),
                write_script(self.tables(), table@, pk@, col_name@, col_val@),
                turn_of(step),
            ),
    {
        let spec = match self.schema().table(table) {
            Some(spec) => spec,
            None => return Ok(()),
        };
        if !pk_decodes(&spec.pk, pk) {
            return Ok(());
        }
        let key = pk_where(&spec.pk, pk);
        let value = json_to_value(col_val);
        j.attempt(
            Statement::WriteCell {
                table: table.to_owned(),
                column: col_name.to_owned(),
                value,
                key,
            },
        )
    }

    /// Deletes a row by primary key, respecting the shape of the table's key.
    pub fn delete_row(&self, j: &mut Journal, table: &str, pk: &str) -> (step: Result<(), Halt>)
        ensures
            old(j).follows(*final(j), delete_script(self.tables(), table@, pk@), turn_of(step)),
    {
        let spec = match self.schema().table(table) {
            Some(spec) => spec,
            None => return Ok(()),
        };
        if !pk_decodes(&spec.pk, pk) {
            return Ok(());
        }
        let key = pk_where(&spec.pk, pk);
        j.attempt(Statement::DeleteRow { table: table.to_owned(), key })
    }
}

} // verus!
