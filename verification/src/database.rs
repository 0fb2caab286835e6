//! A model of the database: what the statements do to it.
//!
//! The laws of the library are stated over this model. An operation's [`Script`] is carried on
//! with it by [`converse`].
use vstd::prelude::*;

use crate::flow::ReplyView;
use crate::flow::Rows;
use crate::flow::Script;
use crate::flow::command;
use crate::flow::query;
use crate::schema::SENTINEL;
use crate::statement::Key;
use crate::statement::StampView;
use crate::statement::StatementView;
use crate::value::ErrorView;
use crate::value::RealView;
use crate::value::SqlValue;

verus! {

/// A clock entry, without the row and the column that it belongs to.
pub struct Clock {
    pub col_ver: i64,
    pub db_ver: i64,
    pub site_id: Seq<u8>,
    pub seq: i64,
}

/// The clock entry of a stamp.
pub open spec fn clock_of(stamp: StampView) -> Clock {
    Clock {
        col_ver: stamp.col_ver,
        db_ver: stamp.db_ver,
        site_id: stamp.site_id,
        seq: stamp.seq,
    }
}

/// What a database holds.
pub struct Database {
    /// The site's identity, if it has one.
    pub site: Option<Seq<u8>>,
    /// The bytes that the database draws next.
    pub draw: Seq<u8>,
    /// The database version, if it has one.
    pub version: Option<SqlValue>,
    /// The sync state.
    pub state: Map<Seq<char>, Seq<u8>>,
    /// The tables that have a clock table.
    pub clock_tables: Set<Seq<char>>,
    /// The clock entries, by table, key text and column.
    pub clocks: Map<(Seq<char>, Seq<char>, Seq<char>), Clock>,
    /// The tables of the application.
    pub tables: Set<Seq<char>>,
    /// The values that columns have unless they are given one, by table and column.
    pub defaults: spec_fn(Seq<char>, Seq<char>) -> SqlValue,
    /// The rows that are there, by table and key.
    pub rows: Set<(Seq<char>, Key)>,
    /// The values of the rows, by table, key and column.
    pub cells: spec_fn(Seq<char>, Key, Seq<char>) -> SqlValue,
}

/// The rows that a database lists in reply to a query that lists many, in the order in which it
/// does.
pub type Order = spec_fn(Database, StatementView) -> Rows;

/// The value that a column of a new row is given, where it is given one.
pub open spec fn given_value(given: Seq<(Seq<char>, SqlValue)>, column: Seq<char>) -> Option<
    SqlValue,
>
    decreases given.len(),
{
    if given.len() == 0 {
        None
    } else if given.last().0 == column {
        Some(given.last().1)
    } else {
        given_value(given.drop_last(), column)
    }
}

/// The value of a key column.
pub open spec fn key_value(key: Key, column: Seq<char>) -> Option<SqlValue>
    decreases key.len(),
{
    if key.len() == 0 {
        None
    } else if key.last().0 == column {
        Some(SqlValue::Text(key.last().1))
    } else {
        key_value(key.drop_last(), column)
    }
}

/// One more than a database version. Past the greatest integer the database goes on with a real
/// number.
pub open spec fn raised_version(version: SqlValue) -> SqlValue {
    match version {
        SqlValue::Integer(i) => if i < i64::MAX {
            SqlValue::Integer((i + 1) as i64)
        } else {
            SqlValue::Real(RealView { bits: 0x43e0000000000000, json: None })
        },
        other => other,
    }
}

/// The reply to a statement that went through and lists nothing.
pub open spec fn fine() -> ReplyView {
    ReplyView::Rows(Seq::empty())
}

/// The reply to a statement on a table that is not there.
pub open spec fn no_table() -> ReplyView {
    ReplyView::Failed(ErrorView::Backend("no such table"@))
}

/// The reply that lists one row.
pub open spec fn one_row(row: Seq<SqlValue>) -> ReplyView {
    ReplyView::Rows(seq![row])
}

impl Database {
    /// What a new row of a table has in a column.
    pub open spec fn new_cell(
        self,
        table: Seq<char>,
        key: Key,
        given: Seq<(Seq<char>, SqlValue)>,
        column: Seq<char>,
    ) -> SqlValue {
        match given_value(given, column) {
            Some(value) => value,
            None => match key_value(key, column) {
                Some(value) => value,
                None => (self.defaults)(table, column),
            },
        }
    }

    /// The database with a row, unless it is there.
    pub open spec fn with_row(
        self,
        table: Seq<char>,
        key: Key,
        given: Seq<(Seq<char>, SqlValue)>,
    ) -> Database {
        if self.rows.contains((table, key)) {
            self
        } else {
            Database {
                rows: self.rows.insert((table, key)),
                cells: |t: Seq<char>, k: Key, c: Seq<char>|
                    if t == table && k == key {
                        self.new_cell(table, key, given, c)
                    } else {
                        (self.cells)(t, k, c)
                    },
                ..self
            }
        }
    }

    /// The database with a value in a column of a row, if the row is there.
    pub open spec fn with_cell(
        self,
        table: Seq<char>,
        key: Key,
        column: Seq<char>,
        value: SqlValue,
    ) -> Database {
        if self.rows.contains((table, key)) {
            Database {
                cells: |t: Seq<char>, k: Key, c: Seq<char>|
                    if t == table && k == key && c == column {
                        value
                    } else {
                        (self.cells)(t, k, c)
                    },
                ..self
            }
        } else {
            self
        }
    }

    /// The database with a clock entry.
    pub open spec fn with_clock(self, table: Seq<char>, stamp: StampView) -> Database {
        Database {
            clocks: self.clocks.insert((table, stamp.pk, stamp.column), clock_of(stamp)),
            ..self
        }
    }

    /// The database with the columns of a row at version zero.
    pub open spec fn with_zeroed(self, table: Seq<char>, pk: Seq<char>) -> Database {
        Database {
            clocks: Map::new(
                |at: (Seq<char>, Seq<char>, Seq<char>)| self.clocks.dom().contains(at),
                |at: (Seq<char>, Seq<char>, Seq<char>)|
                    if at.0 == table && at.1 == pk && at.2 != SENTINEL@ {
                        Clock { col_ver: 0, ..self.clocks[at] }
                    } else {
                        self.clocks[at]
                    },
            ),
            ..self
        }
    }

    /// Whether a row could not take another key: both keys have an entry for one column.
    pub open spec fn clashes(self, table: Seq<char>, old_pk: Seq<char>, new_pk: Seq<char>) -> bool {
        old_pk != new_pk && exists|column: Seq<char>|
            self.clocks.dom().contains((table, old_pk, column)) && #[trigger] self.clocks.dom().contains(
                (table, new_pk, column),
            )
    }

    /// The database with all clock entries of a row under another key.
    pub open spec fn with_pk(self, table: Seq<char>, old_pk: Seq<char>, new_pk: Seq<char>) -> Database {
        Database {
            clocks: Map::new(
                |at: (Seq<char>, Seq<char>, Seq<char>)|
                    if at.0 == table && at.1 == new_pk {
                        self.clocks.dom().contains((table, old_pk, at.2))
                            || self.clocks.dom().contains(at)
                    } else {
                        self.clocks.dom().contains(at) && !(at.0 == table && at.1 == old_pk)
                    },
                |at: (Seq<char>, Seq<char>, Seq<char>)|
                    if at.0 == table && at.1 == new_pk && self.clocks.dom().contains(
                        (table, old_pk, at.2),
                    ) {
                        self.clocks[(table, old_pk, at.2)]
                    } else {
                        self.clocks[at]
                    },
            ),
            ..self
        }
    }

    /// The database without the clock entries that `gone` holds of.
    pub open spec fn without(
        self,
        gone: spec_fn((Seq<char>, Seq<char>, Seq<char>)) -> bool,
    ) -> Database {
        Database { clocks: self.clocks.remove_keys(Set::new(gone)), ..self }
    }

    /// What the database replies to a statement, and what it holds then.
    pub open spec fn perform(self, statement: StatementView, order: Order) -> (ReplyView, Database) {
        match statement {
            StatementView::CreateSiteTable => (fine(), self),
            StatementView::CreateVersionTable => (fine(), self),
            StatementView::CreateStateTable => (fine(), self),
            StatementView::CreateClockTable { table } => (
                fine(),
                Database { clock_tables: self.clock_tables.insert(table), ..self },
            ),
            StatementView::SelectVersion => (
                match self.version {
                    Some(version) => one_row(seq![version]),
                    None => fine(),
                },
                self,
            ),
            StatementView::InsertVersion => (
                fine(),
                Database { version: Some(SqlValue::Integer(0)), ..self },
            ),
            StatementView::BumpVersion => (
                fine(),
                Database {
                    version: match self.version {
                        Some(version) => Some(raised_version(version)),
                        None => None,
                    },
                    ..self
                },
            ),
            StatementView::SelectSite => (
                match self.site {
                    Some(site) => one_row(seq![SqlValue::Blob(site)]),
                    None => fine(),
                },
                self,
            ),
            StatementView::InsertSite { or_ignore } => (
                fine(),
                Database {
                    site: match self.site {
                        Some(site) => Some(site),
                        None => Some(self.draw),
                    },
                    ..self
                },
            ),
            StatementView::SelectState { key } => (
                if self.state.dom().contains(key) {
                    one_row(seq![SqlValue::Blob(self.state[key])])
                } else {
                    fine()
                },
                self,
            ),
            StatementView::PutState { key, value } => (
                fine(),
                Database { state: self.state.insert(key, value), ..self },
            ),
            StatementView::ClockExists { table } => (
                if self.clock_tables.contains(table) {
                    one_row(seq![SqlValue::Integer(1)])
                } else {
                    fine()
                },
                self,
            ),
            StatementView::ReadCell { table, column, key } => (
                if !self.tables.contains(table) {
                    no_table()
                } else if self.rows.contains((table, key)) {
                    one_row(seq![(self.cells)(table, key, column)])
                } else {
                    fine()
                },
                self,
            ),
            StatementView::ProbeRow { table, key } => (
                if !self.tables.contains(table) {
                    no_table()
                } else if self.rows.contains((table, key)) {
                    one_row(seq![SqlValue::Integer(1)])
                } else {
                    fine()
                },
                self,
            ),
            StatementView::InsertRow { table, key, defaults } => if self.tables.contains(table) {
                (fine(), self.with_row(table, key, defaults))
            } else {
                (no_table(), self)
            },
            StatementView::WriteCell { table, column, value, key } => if self.tables.contains(
                table,
            ) {
                (fine(), self.with_cell(table, key, column, value))
            } else {
                (no_table(), self)
            },
            StatementView::DeleteRow { table, key } => if self.tables.contains(table) {
                (fine(), Database { rows: self.rows.remove((table, key)), ..self })
            } else {
                (no_table(), self)
            },
            StatementView::SelectKeys { table, columns } => (
                if self.tables.contains(table) {
                    ReplyView::Rows(order(self, statement))
                } else {
                    no_table()
                },
                self,
            ),
            StatementView::RenameClock { old_table, new_table } => if self.clock_tables.contains(
                old_table,
            ) && !self.clock_tables.contains(new_table) {
                (
                    fine(),
                    Database {
                        clock_tables: self.clock_tables.remove(old_table).insert(new_table),
                        clocks: Map::new(
                            |at: (Seq<char>, Seq<char>, Seq<char>)|
                                if at.0 == new_table {
                                    self.clocks.dom().contains((old_table, at.1, at.2))
                                } else {
                                    at.0 != old_table && self.clocks.dom().contains(at)
                                },
                            |at: (Seq<char>, Seq<char>, Seq<char>)|
                                if at.0 == new_table {
                                    self.clocks[(old_table, at.1, at.2)]
                                } else {
                                    self.clocks[at]
                                },
                        ),
                        ..self
                    },
                )
            } else {
                (no_table(), self)
            },
            StatementView::SelectColVer { table, .. } => self.perform_on_clock(
                table,
                statement,
                order,
            ),
            StatementView::SelectClock { table, .. } => self.perform_on_clock(
                table,
                statement,
                order,
            ),
            StatementView::PutClock { table, .. } => self.perform_on_clock(table, statement, order),
            StatementView::SeedClock { table, .. } => self.perform_on_clock(
                table,
                statement,
                order,
            ),
            StatementView::ZeroColumns { table, .. } => self.perform_on_clock(
                table,
                statement,
                order,
            ),
            StatementView::SelectChanges { table, .. } => self.perform_on_clock(
                table,
                statement,
                order,
            ),
            StatementView::SelectSentinels { table } => self.perform_on_clock(
                table,
                statement,
                order,
            ),
            StatementView::SelectPks { table } => self.perform_on_clock(table, statement, order),
            StatementView::DropColumn { table, .. } => self.perform_on_clock(
                table,
                statement,
                order,
            ),
            StatementView::RewritePk { table, .. } => self.perform_on_clock(
                table,
                statement,
                order,
            ),
            StatementView::DropPk { table, .. } => self.perform_on_clock(table, statement, order),
        }
    }

    /// What the database replies to a statement on the clock table of `clock`, and what it holds
    /// then.
    pub open spec fn perform_on_clock(
        self,
        clock: Seq<char>,
        statement: StatementView,
        order: Order,
    ) -> (ReplyView, Database) {
        if !self.clock_tables.contains(clock) {
            (no_table(), self)
        } else {
            match statement {
                StatementView::SelectColVer { table, pk, column } => (
                    if self.clocks.dom().contains((table, pk, column)) {
                        one_row(
                            seq![SqlValue::Integer(self.clocks[(table, pk, column)].col_ver)],
                        )
                    } else {
                        fine()
                    },
                    self,
                ),
                StatementView::SelectClock { table, pk, column } => (
                    if self.clocks.dom().contains((table, pk, column)) {
                        one_row(
                            seq![
                                SqlValue::Integer(self.clocks[(table, pk, column)].col_ver),
                                SqlValue::Blob(self.clocks[(table, pk, column)].site_id),
                            ],
                        )
                    } else {
                        fine()
                    },
                    self,
                ),
                StatementView::PutClock { table, stamp } => (
                    fine(),
                    self.with_clock(table, stamp),
                ),
                StatementView::SeedClock { table, stamp } => (
                    fine(),
                    if self.clocks.dom().contains((table, stamp.pk, stamp.column)) {
                        self
                    } else {
                        self.with_clock(table, stamp)
                    },
                ),
                StatementView::ZeroColumns { table, pk } => (fine(), self.with_zeroed(table, pk)),
                StatementView::DropColumn { table, column } => (
                    fine(),
                    self.without(
                        |at: (Seq<char>, Seq<char>, Seq<char>)| at.0 == table && at.2 == column,
                    ),
                ),
                StatementView::RewritePk { table, old_pk, new_pk } => if self.clashes(
                    table,
                    old_pk,
                    new_pk,
                ) {
                    (ReplyView::Failed(ErrorView::Backend("UNIQUE constraint failed"@)), self)
                } else {
                    (fine(), self.with_pk(table, old_pk, new_pk))
                },
                StatementView::DropPk { table, pk } => (
                    fine(),
                    self.without(
                        |at: (Seq<char>, Seq<char>, Seq<char>)| at.0 == table && at.1 == pk,
                    ),
                ),
                _ => (ReplyView::Rows(order(self, statement)), self),
            }
        }
    }
}

/// What comes of a conversation with a database, `None` where it breaks off, and what the database
/// holds then.
pub open spec fn converse<T>(script: Script<T>, db: Database, order: Order) -> (Option<T>, Database)
    decreases script,
{
    match script {
        Script::Done(value) => (Some(value), db),
        Script::Fault => (None, db),
        Script::Ask(statement, more) => {
            let (reply, after) = db.perform(statement, order);
            converse(more(reply), after, order)
        },
    }
}

/// A conversation in two parts.
pub broadcast proof fn lemma_converse_bind<T, U>(
    script: Script<T>,
    next: spec_fn(T) -> Script<U>,
    db: Database,
    order: Order,
)
    ensures
        #[trigger] converse(script.bind(next), db, order) == (match converse(script, db, order) {
            (Some(value), after) => converse(next(value), after, order),
            (None, after) => (None, after),
        }),
    decreases script,
{
    match script {
        Script::Done(value) => {},
        Script::Fault => {},
        Script::Ask(statement, more) => {
            let (reply, after) = db.perform(statement, order);
            lemma_converse_bind(more(reply), next, after, order);
        },
    }
}

/// A conversation of one query.
pub broadcast proof fn lemma_converse_query(statement: StatementView, db: Database, order: Order)
    ensures
        #[trigger] converse(query(statement), db, order) == (
            Some(
                match db.perform(statement, order).0 {
                    ReplyView::Rows(rows) => Ok::<Rows, ErrorView>(rows),
                    ReplyView::Failed(error) => Err::<Rows, ErrorView>(error),
                },
            ),
            db.perform(statement, order).1,
        ),
{
    reveal_with_fuel(converse, 2);
}

/// A conversation of one statement that is no query.
pub broadcast proof fn lemma_converse_command(statement: StatementView, db: Database, order: Order)
    ensures
        #[trigger] converse(command(statement), db, order) == (
            Some(
                match db.perform(statement, order).0 {
                    ReplyView::Rows(rows) => Ok::<(), ErrorView>(()),
                    ReplyView::Failed(error) => Err::<(), ErrorView>(error),
                },
            ),
            db.perform(statement, order).1,
        ),
{
    reveal_with_fuel(converse, 2);
}

pub broadcast group group_converse {
    lemma_converse_bind,
    lemma_converse_query,
    lemma_converse_command,
}

} // verus!
