//! Relational CRDT: per-column last-write-wins sync over ordinary SQL tables.
//!
//! The library tracks changes to your tables and merges changes from other replicas so that every
//! replica converges to the same state, with no central server and no coordination. It is
//! application-level bookkeeping over plain SQL.
//!
//! # Model
//!
//! Each tracked `(row, column)` carries a clock: a per-column version (`col_ver`), the originating
//! device (`site_id`), and ordering metadata. Row existence is tracked on a synthetic `__sentinel`
//! column via a *causal length* counter (odd means alive, even means deleted), which makes delete
//! and resurrect converge deterministically: a greater causal length wins over all that is of a
//! smaller one, and a new life begins without the columns of the old one. Within one life conflicts
//! resolve by higher `col_ver`, then by a deterministic value comparison, then by larger `site_id`.
//!
//! # Usage
//!
//! Describe your tables with a [`Schema`](schema::Schema), wrap a database in [`Crr`], run
//! [`Crr::init`] once, then run [`Crr::track_insert`] / [`Crr::track_update`] /
//! [`Crr::track_delete`] right after your own writes. To sync, exchange the [`ChangeRow`]s that
//! [`Crr::changes_since`] gives and merge those of your peers with [`Crr::apply_changes`].
//!
//! No operation touches the database itself: see [`flow`] for how one is run.
use vstd::prelude::*;

use crate::json::Json;
use crate::json::JsonView;
use crate::schema::TableView;
use crate::value::copy_bytes;

pub use crate::schema::CrdtTable;
pub use crate::schema::PkSpec;
pub use crate::schema::Schema;
pub use crate::schema::SkeletonValue;
pub use crate::schema::TableSpec;
pub use crate::value::Error;
pub use crate::value::Row;
pub use crate::value::Value;

pub mod audit;
pub mod backends;
pub mod clock_tables;
pub mod database;
pub mod derive;
pub mod flow;
pub mod helpers;
pub mod json;
pub mod laws;
pub mod merge;
pub mod migrate;
pub mod schema;
pub mod sql;
pub mod state;
pub mod statement;
pub mod text;
pub mod tracking;
pub mod value;

verus! {

/// A single column-level change record for sync, carrying last-write-wins metadata.
#[derive(Clone, Debug)]
pub struct ChangeRow {
    pub table_name: String,
    pub pk: String,
    /// The changed column, or `"__sentinel"` for a row-existence change.
    pub col_name: String,
    pub col_val: Json,
    pub col_ver: i64,
    pub db_ver: i64,
    pub site_id: Vec<u8>,
    pub seq: i64,
    /// Causal length: odd = alive, even = deleted.
    pub cl: i64,
}

/// What a [`ChangeRow`] holds.
pub struct ChangeView {
    pub table_name: Seq<char>,
    pub pk: Seq<char>,
    pub col_name: Seq<char>,
    pub col_val: JsonView,
    pub col_ver: i64,
    pub db_ver: i64,
    pub site_id: Seq<u8>,
    pub seq: i64,
    pub cl: i64,
}

impl View for ChangeRow {
    type V = ChangeView;

    open spec fn view(&self) -> ChangeView {
        ChangeView {
            table_name: self.table_name@,
            pk: self.pk@,
            col_name: self.col_name@,
            col_val: self.col_val@,
            col_ver: self.col_ver,
            db_ver: self.db_ver,
            site_id: self.site_id@,
            seq: self.seq,
            cl: self.cl,
        }
    }
}

/// What a list of changes holds.
pub open spec fn changes_view(changes: Seq<ChangeRow>) -> Seq<ChangeView> {
    changes.map_values(|change: ChangeRow| change@)
}

/// A versioned changeset envelope: the changes plus the sender's schema identity.
///
/// It carries the sender's schema version and fingerprint alongside the raw [`ChangeRow`]s, so the
/// receiver can detect a schema mismatch instead of silently dropping changes it doesn't
/// recognize.
#[derive(Clone, Debug)]
pub struct Changeset {
    /// The sender's schema migration version (see [`Crr::schema_version`]).
    pub schema_version: i64,
    /// The sender's schema fingerprint (see [`Schema::fingerprint`]).
    pub fingerprint: u64,
    /// The column-level changes, identical to what [`Crr::changes_since`] gives.
    pub rows: Vec<ChangeRow>,
}

/// What a [`Changeset`] holds.
pub struct ChangesetView {
    pub schema_version: i64,
    pub fingerprint: u64,
    pub rows: Seq<ChangeView>,
}

impl View for Changeset {
    type V = ChangesetView;

    open spec fn view(&self) -> ChangesetView {
        ChangesetView {
            schema_version: self.schema_version,
            fingerprint: self.fingerprint,
            rows: changes_view(self.rows@),
        }
    }
}

/// Summary of a merge operation: how many changes were applied vs. skipped.
#[derive(Copy, Debug, PartialEq, Eq)]
pub struct MergeResult {
    /// Changes that won their merge and were written.
    pub applied: usize,
    /// Changes that lost their merge (a newer local value already won). This is normal
    /// convergence, not data loss.
    pub skipped: usize,
    /// Changes skipped because their table/column is unknown to the *local* schema: the sender
    /// tracks something we do not.
    pub skipped_unknown: usize,
    /// The sender's `(schema_version, fingerprint)` when applied via [`Crr::apply_changeset`] and
    /// it differed from ours; `None` when the schemas matched or the raw [`Crr::apply_changes`]
    /// path was used.
    pub peer_schema: Option<(i64, u64)>,
}

impl Clone for MergeResult {
    fn clone(&self) -> (copy: Self)
        ensures
            copy == *self,
    {
        *self
    }
}

impl View for MergeResult {
    type V = MergeResult;

    open spec fn view(&self) -> MergeResult {
        *self
    }
}

impl Default for MergeResult {
    /// The summary of a merge of no changes.
    fn default() -> (result: Self)
        ensures
            result == (MergeResult {
                applied: 0,
                skipped: 0,
                skipped_unknown: 0,
                peer_schema: None,
            }),
    {
        MergeResult { applied: 0, skipped: 0, skipped_unknown: 0, peer_schema: None }
    }
}

/// A change-tracking and merge handle bound to a database and a [`Schema`].
pub struct Crr<D> {
    db: D,
    schema: Schema,
}

impl<D> Crr<D> {
    /// The database of this handle.
    pub closed spec fn database(self) -> D {
        self.db
    }

    /// The tables that this handle tracks.
    pub closed spec fn tables(self) -> Seq<TableView> {
        self.schema@
    }

    /// Binds a database and schema together.
    pub fn new(db: D, schema: Schema) -> (crr: Self)
        ensures
            crr.database() == db,
            crr.tables() == schema@,
    {
        Crr { db, schema }
    }

    /// The underlying database handle.
    pub fn db(&self) -> (db: &D)
        ensures
            *db == self.database(),
    {
        &self.db
    }

    /// The schema this handle tracks.
    pub fn schema(&self) -> (schema: &Schema)
        ensures
            schema@ == self.tables(),
    {
        &self.schema
    }

    /// Consumes this handle and rebinds the same database to a new [`Schema`].
    ///
    /// The typical migration flow: after running your real-table DDL, rebuild the handle with the
    /// evolved schema, then run the matching `migrate_*` operation so the metadata catches up.
    pub fn with_schema(self, schema: Schema) -> (crr: Self)
        ensures
            crr.database() == self.database(),
            crr.tables() == schema@,
    {
        Crr { db: self.db, schema }
    }
}

/// Whether a causal length is that of a living row.
pub open spec fn alive(cl: i64) -> bool {
    cl > 0 && cl % 2 == 1
}

/// Whether a causal length is that of a row that is not there.
pub open spec fn gone(cl: i64) -> bool {
    cl % 2 == 0
}

/// Whether a causal length is that of a living row: positive and odd.
pub fn is_alive(cl: i64) -> (yes: bool)
    ensures
        yes == alive(cl),
{
    cl > 0 && cl as u64 % 2 == 1
}

/// Whether a causal length is that of a row that is not there: even.
pub fn is_gone(cl: i64) -> (yes: bool)
    ensures
        yes == gone(cl),
{
    if cl >= 0 {
        cl as u64 % 2 == 0
    } else {
        (-(cl + 1)) as u64 % 2 == 1
    }
}

impl ChangeRow {
    /// A copy of this change.
    pub fn copy(&self) -> (copy: Self)
        ensures
            copy@ == self@,
    {
        ChangeRow {
            table_name: self.table_name.clone(),
            pk: self.pk.clone(),
            col_name: self.col_name.clone(),
            col_val: self.col_val.copy(),
            col_ver: self.col_ver,
            db_ver: self.db_ver,
            site_id: copy_bytes(&self.site_id),
            seq: self.seq,
            cl: self.cl,
        }
    }
}

} // verus!
