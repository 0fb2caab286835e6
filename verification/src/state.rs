//! Sync state: site ID, db version counter, and key-value store.
use vstd::bytes::lemma_auto_spec_u64_to_from_le_bytes;
use vstd::bytes::spec_u64_from_le_bytes;
use vstd::bytes::spec_u64_to_le_bytes;
use vstd::bytes::u64_from_le_bytes;
use vstd::bytes::u64_to_le_bytes;
use vstd::prelude::*;

use crate::Crr;
use crate::flow::Halt;
use crate::flow::Journal;
use crate::flow::Rows;
use crate::flow::Script;
use crate::flow::Step;
use crate::flow::Turn;
use crate::flow::command;
use crate::flow::done;
use crate::flow::failed;
use crate::flow::halted;
use crate::flow::lemma_run_bind;
use crate::flow::query;
use crate::flow::step_of;
use crate::flow::turn_of;
use crate::helpers::first_cell;
use crate::schema::TableView;
use crate::schema::fingerprint_of;
use crate::statement::Statement;
use crate::statement::StatementView;
use crate::value::Error;
use crate::value::ErrorView;
use crate::value::SqlValue;
use crate::value::Value;
use crate::value::copy_bytes;

verus! {

broadcast use lemma_run_bind;

/// The key of the schema migration version (big-endian bytes) in the sync state.
pub const SCHEMA_VERSION_KEY: &'static str = "schema_version";

/// The key of the schema fingerprint (big-endian bytes) in the sync state.
pub const SCHEMA_FINGERPRINT_KEY: &'static str = "schema_fingerprint";

/// The eight bytes of a number, the highest first.
pub open spec fn big_endian(bits: u64) -> Seq<u8> {
    spec_u64_to_le_bytes(bits).reverse()
}

/// The number that eight bytes stand for, the highest first.
pub open spec fn from_big_endian(bytes: Seq<u8>) -> Option<u64> {
    if bytes.len() == 8 {
        Some(spec_u64_from_le_bytes(bytes.reverse()))
    } else {
        None
    }
}

/// A number can be read back from its bytes, and eight bytes from the number that they stand for.
pub proof fn lemma_big_endian(bits: u64, bytes: Seq<u8>)
    ensures
        big_endian(bits).len() == 8,
        from_big_endian(big_endian(bits)) == Some(bits),
        bytes.len() == 8 ==> big_endian(from_big_endian(bytes)->0) == bytes,
{
    lemma_auto_spec_u64_to_from_le_bytes();
    assert(big_endian(bits).reverse() =~= spec_u64_to_le_bytes(bits));
    if bytes.len() == 8 {
        assert(bytes.reverse().len() == 8);
        assert(bytes.reverse().reverse() =~= bytes);
    }
}

fn reversed(bytes: &Vec<u8>) -> (turned: Vec<u8>)
    ensures
        turned@ == bytes@.reverse(),
{
    let mut turned: Vec<u8> = Vec::new();
    let mut i: usize = bytes.len();
    while i > 0
        invariant
            i <= bytes@.len(),
            turned@.len() == bytes@.len() - i,
            forall|k: int|
                0 <= k < turned@.len() ==> #[trigger] turned@[k] == bytes@[bytes@.len() - 1 - k],
        decreases i,
    {
        i -= 1;
        turned.push(bytes[i]);
    }
    assert(turned@ =~= bytes@.reverse());
    turned
}

/// Encodes a number as eight bytes, the highest first.
pub fn encode_u64(bits: u64) -> (bytes: Vec<u8>)
    ensures
        bytes@ == big_endian(bits),
{
    reversed(&u64_to_le_bytes(bits))
}

/// Decodes eight bytes, the highest first.
pub fn decode_u64(bytes: &Vec<u8>) -> (bits: Option<u64>)
    ensures
        bits == from_big_endian(bytes@),
{
    if bytes.len() == 8 {
        let turned = reversed(bytes);
        Some(u64_from_le_bytes(turned.as_slice()))
    } else {
        None
    }
}

/// The eight bytes of a signed number, the highest first.
pub open spec fn signed_bytes(i: i64) -> Seq<u8> {
    big_endian(i as u64)
}

/// The signed number that eight bytes stand for.
pub open spec fn signed_number(bytes: Seq<u8>) -> Option<i64> {
    match from_big_endian(bytes) {
        Some(bits) => Some(bits as i64),
        None => None,
    }
}

/// A signed number can be read back from its bytes.
pub proof fn lemma_signed_bytes(i: i64)
    ensures
        signed_number(signed_bytes(i)) == Some(i),
{
    lemma_big_endian(i as u64, Seq::empty());
    assert((i as u64) as i64 == i) by (bit_vector);
}

/// Decodes an 8-byte big-endian i64 from the sync-state store.
pub fn decode_i64(bytes: &Vec<u8>) -> (number: Option<i64>)
    ensures
        number == signed_number(bytes@),
{
    match decode_u64(bytes) {
        Some(bits) => Some(bits as i64),
        None => None,
    }
}

/// Reads the site's identity, and draws one where there is none.
pub open spec fn site_script() -> Script<Result<Seq<u8>, ErrorView>> {
    query(StatementView::SelectSite).and(
        |rows: Rows|
            match first_cell(rows) {
                SqlValue::Blob(site) => done(site),
                _ => command(StatementView::InsertSite { or_ignore: true }).and(
                    |ok: ()|
                        query(StatementView::SelectSite).and(
                            |rows: Rows|
                                if rows.len() > 0 {
                                    done(first_cell(rows).bytes_or_empty())
                                } else {
                                    failed(ErrorView::NoRows)
                                },
                        ),
                ),
            },
    )
}

/// Reads the database version, `default` where it is no number.
pub open spec fn version_script(default: i64) -> Script<Result<i64, ErrorView>> {
    query(StatementView::SelectVersion).and(
        |rows: Rows|
            if rows.len() > 0 {
                done(first_cell(rows).integer_or(default))
            } else {
                failed(ErrorView::NoRows)
            },
    )
}

/// Adds one to the database version and reads it.
pub open spec fn next_version_script() -> Script<Result<i64, ErrorView>> {
    command(StatementView::BumpVersion).and(|ok: ()| version_script(1))
}

/// Reads the sync state under a key, where it can be read.
pub open spec fn state_script(key: Seq<char>) -> Script<Option<Seq<u8>>> {
    query(StatementView::SelectState { key }).bind(
        |outcome: Result<Rows, ErrorView>|
            Script::Done(
                match outcome {
                    Ok(rows) => match first_cell(rows) {
                        SqlValue::Blob(value) => Some(value),
                        _ => None,
                    },
                    Err(error) => None,
                },
            ),
    )
}

/// Reads the schema version, zero where none is stored.
pub open spec fn schema_version_script() -> Script<i64> {
    state_script(SCHEMA_VERSION_KEY@).bind(
        |value: Option<Seq<u8>>|
            Script::Done(
                match value {
                    Some(bytes) => match signed_number(bytes) {
                        Some(version) => version,
                        None => 0,
                    },
                    None => 0,
                },
            ),
    )
}

/// Reads the stored schema fingerprint.
pub open spec fn stored_fingerprint_script() -> Script<Option<u64>> {
    state_script(SCHEMA_FINGERPRINT_KEY@).bind(
        |value: Option<Seq<u8>>|
            Script::Done(
                match value {
                    Some(bytes) => from_big_endian(bytes),
                    None => None,
                },
            ),
    )
}

/// Stores the fingerprint of a schema, and the schema version one where none is stored.
pub open spec fn store_fingerprint_script(tables: Seq<TableView>) -> Script<Result<(), ErrorView>> {
    command(
        StatementView::PutState {
            key: SCHEMA_FINGERPRINT_KEY@,
            value: big_endian(fingerprint_of(tables)),
        },
    ).and(
        |ok: ()|
            state_script(SCHEMA_VERSION_KEY@).bind(
                |value: Option<Seq<u8>>|
                    if value is None {
                        command(
                            StatementView::PutState {
                                key: SCHEMA_VERSION_KEY@,
                                value: signed_bytes(1),
                            },
                        )
                    } else {
                        done(())
                    },
            ),
    )
}

/// Raises the schema version by one and stores the fingerprint of a schema.
pub open spec fn bump_script(tables: Seq<TableView>) -> Script<Result<i64, ErrorView>> {
    schema_version_script().bind(
        |version: i64|
            if version == i64::MAX {
                Script::Fault
            } else {
                command(
                    StatementView::PutState {
                        key: SCHEMA_VERSION_KEY@,
                        value: signed_bytes((version + 1) as i64),
                    },
                ).and(
                    |ok: ()|
                        command(
                            StatementView::PutState {
                                key: SCHEMA_FINGERPRINT_KEY@,
                                value: big_endian(fingerprint_of(tables)),
                            },
                        ).and(|ok: ()| done((version + 1) as i64)),
                )
            },
    )
}

impl<D> Crr<D> {
    /// Gets this device's 16-byte site UUID, creating one if needed.
    pub fn site_id(&self, j: &mut Journal) -> (step: Step<Vec<u8>>)
        ensures
            old(j).follows(*final(j), site_script(), step_of(step)),
    {
        match j.query(Statement::SelectSite)? {
            Ok(rows) => if rows.len() > 0 {
                if let Value::Blob(site) = rows[0].get(0) {
                    return Ok(Ok(site));
                }
            },
            Err(error) => return Ok(Err(error)),
        }
        // Fallback: create if init didn't run.
        match j.command(Statement::InsertSite { or_ignore: true })? {
            Ok(()) => {},
            Err(error) => return Ok(Err(error)),
        }
        match j.query(Statement::SelectSite)? {
            Ok(rows) => if rows.len() > 0 {
                Ok(Ok(rows[0].get(0).bytes_or_empty()))
            } else {
                Ok(Err(Error::NoRows))
            },
            Err(error) => Ok(Err(error)),
        }
    }

    /// Increments and returns the global db_version.
    pub fn next_db_version(&self, j: &mut Journal) -> (step: Step<i64>)
        ensures
            old(j).follows(*final(j), next_version_script(), step_of(step)),
    {
        match j.command(Statement::BumpVersion)? {
            Ok(()) => {},
            Err(error) => return Ok(Err(error)),
        }
        match j.query(Statement::SelectVersion)? {
            Ok(rows) => if rows.len() > 0 {
                Ok(Ok(rows[0].get(0).integer_or(1)))
            } else {
                Ok(Err(Error::NoRows))
            },
            Err(error) => Ok(Err(error)),
        }
    }

    /// Reads the current db_version without incrementing.
    pub fn current_db_version(&self, j: &mut Journal) -> (step: Step<i64>)
        ensures
            old(j).follows(*final(j), version_script(0), step_of(step)),
    {
        match j.query(Statement::SelectVersion)? {
            Ok(rows) => if rows.len() > 0 {
                Ok(Ok(rows[0].get(0).integer_or(0)))
            } else {
                Ok(Err(Error::NoRows))
            },
            Err(error) => Ok(Err(error)),
        }
    }

    /// Reads a blob value from the key-value sync state store (e.g. server change tokens).
    pub fn get_sync_state(&self, j: &mut Journal, key: &str) -> (step: Result<Option<Vec<u8>>, Halt>)
        ensures
            old(j).follows(
                *final(j),
                state_script(key@),
                match step {
                    Ok(Some(value)) => Turn::Done(Some(value@)),
                    Ok(None) => Turn::Done(None),
                    Err(halt) => halted(halt),
                },
            ),
    {
        match j.query(Statement::SelectState { key: key.to_owned() })? {
            Ok(rows) => if rows.len() > 0 {
                match rows[0].get(0) {
                    Value::Blob(value) => Ok(Some(value)),
                    _ => Ok(None),
                }
            } else {
                Ok(None)
            },
            Err(_) => Ok(None),
        }
    }

    /// Writes a blob value to the key-value sync state store (upsert).
    pub fn set_sync_state(&self, j: &mut Journal, key: &str, value: &Vec<u8>) -> (step: Step<()>)
        ensures
            old(j).follows(
                *final(j),
                command(StatementView::PutState { key: key@, value: value@ }),
                step_of(step),
            ),
    {
        j.command(Statement::PutState { key: key.to_owned(), value: copy_bytes(value) })
    }

    /// The persisted schema version (monotonic migration counter), or 0 if none has been stored
    /// yet. Distinct from the logical db_version clock: this counts *schema migrations*, that one
    /// counts *data changes*.
    pub fn schema_version(&self, j: &mut Journal) -> (step: Result<i64, Halt>)
        ensures
            old(j).follows(*final(j), schema_version_script(), turn_of(step)),
    {
        match self.get_sync_state(j, SCHEMA_VERSION_KEY)? {
            Some(bytes) => match decode_i64(&bytes) {
                Some(version) => Ok(version),
                None => Ok(0),
            },
            None => Ok(0),
        }
    }

    /// The persisted schema fingerprint, or `None` if none has been stored yet.
    ///
    /// This is what the database *was last initialized/migrated with*; compare it to
    /// [`Schema::fingerprint`](crate::schema::Schema::fingerprint) of the in-memory schema to
    /// detect that the code's schema has drifted from the database.
    pub fn schema_fingerprint(&self, j: &mut Journal) -> (step: Result<Option<u64>, Halt>)
        ensures
            old(j).follows(*final(j), stored_fingerprint_script(), turn_of(step)),
    {
        match self.get_sync_state(j, SCHEMA_FINGERPRINT_KEY)? {
            Some(bytes) => Ok(decode_u64(&bytes)),
            None => Ok(None),
        }
    }

    /// Persists the current in-memory schema's fingerprint (without touching the version). Part
    /// of [`Crr::init`]; it seeds the version to 1 only if unset so a fresh database starts at
    /// schema version 1.
    pub fn store_schema_fingerprint(&self, j: &mut Journal) -> (step: Step<()>)
        ensures
            old(j).follows(*final(j), store_fingerprint_script(self.tables()), step_of(step)),
    {
        let fingerprint = encode_u64(self.schema().fingerprint());
        match self.set_sync_state(j, SCHEMA_FINGERPRINT_KEY, &fingerprint)? {
            Ok(()) => {},
            Err(error) => return Ok(Err(error)),
        }
        if self.get_sync_state(j, SCHEMA_VERSION_KEY)?.is_none() {
            self.set_sync_state(j, SCHEMA_VERSION_KEY, &encode_u64(1))
        } else {
            Ok(Ok(()))
        }
    }

    /// Bumps the persisted schema version and re-stores the current fingerprint. Part of each
    /// `migrate_*` operation, after it mutates clock metadata.
    pub fn bump_schema_version(&self, j: &mut Journal) -> (step: Step<i64>)
        ensures
            old(j).follows(*final(j), bump_script(self.tables()), step_of(step)),
    {
        let version = self.schema_version(j)?;
        if version == i64::MAX {
            return Err(Halt::Fault);
        }
        let next: i64 = version + 1;
        match self.set_sync_state(j, SCHEMA_VERSION_KEY, &encode_u64(next as u64))? {
            Ok(()) => {},
            Err(error) => return Ok(Err(error)),
        }
        let fingerprint = encode_u64(self.schema().fingerprint());
        match self.set_sync_state(j, SCHEMA_FINGERPRINT_KEY, &fingerprint)? {
            Ok(()) => {},
            Err(error) => return Ok(Err(error)),
        }
        Ok(Ok(next))
    }
}

} // verus!
