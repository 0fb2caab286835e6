//! A database of [rusqlite](https://docs.rs/rusqlite), bundled C SQLite.
use vstd::prelude::*;

use crate::value::Error;

verus! {

/// A connection to a SQLite database; nothing is known of what is inside.
#[verifier::external_type_specification]
#[verifier::external_body]
pub struct ExConnection(rusqlite::Connection);

/// A database backed by a rusqlite connection.
pub struct SqliteDb {
    conn: rusqlite::Connection,
}

/// `rusqlite::Connection::open_in_memory`, with the error as its text. Whether it succeeds is up
/// to the machine, and nothing is claimed of it.
#[verifier::external_body]
fn connect_in_memory() -> (result: Result<rusqlite::Connection, String>) {
    rusqlite::Connection::open_in_memory().map_err(|e| e.to_string())
}

/// `rusqlite::Connection::open`, with the error as its text. A path with a zero character cannot be
/// handed to SQLite and is refused. Whether any other path can be opened is up to what is on disk,
/// and nothing is claimed of it.
#[verifier::external_body]
fn connect(path: &str) -> (result: Result<rusqlite::Connection, String>)
    ensures
        path@.contains('\0') ==> result is Err,
{
    rusqlite::Connection::open(path).map_err(|e| e.to_string())
}

impl SqliteDb {
    /// The connection of this database.
    pub closed spec fn conn(self) -> rusqlite::Connection {
        self.conn
    }

    /// Wraps an existing rusqlite connection.
    pub fn new(conn: rusqlite::Connection) -> (db: Self)
        ensures
            db.conn() == conn,
    {
        SqliteDb { conn }
    }

    /// The underlying connection.
    pub fn connection(&self) -> (conn: &rusqlite::Connection)
        ensures
            *conn == self.conn(),
    {
        &self.conn
    }

    /// What comes of opening a database: it holds the connection, or tells of the error.
    pub open spec fn holds(
        db: Result<Self, Error>,
        result: Result<rusqlite::Connection, String>,
    ) -> bool {
        match result {
            Ok(conn) => db is Ok && db->Ok_0.conn() == conn,
            Err(cause) => db == Err::<Self, Error>(Error::Backend(cause)),
        }
    }

    /// Whether `result` is one that opening a fresh in-memory database can have.
    pub closed spec fn comes_of_memory(result: Result<rusqlite::Connection, String>) -> bool {
        call_ensures(connect_in_memory, (), result)
    }

    /// Whether `result` is one that opening the database at `path` can have.
    pub closed spec fn comes_of_path(
        path: &str,
        result: Result<rusqlite::Connection, String>,
    ) -> bool {
        call_ensures(connect, (path,), result)
    }

    /// Wraps the connection that came of opening a database, or the text of the error that did.
    pub fn opened(result: Result<rusqlite::Connection, String>) -> (db: Result<Self, Error>)
        ensures
            Self::holds(db, result),
    {
        match result {
            Ok(conn) => Ok(SqliteDb::new(conn)),
            Err(cause) => Err(Error::Backend(cause)),
        }
    }

    /// Opens a fresh in-memory database. Handy for tests and ephemeral replicas.
    pub fn in_memory() -> (db: Result<Self, Error>)
        ensures
            exists|result: Result<rusqlite::Connection, String>| #[trigger]
                Self::comes_of_memory(result) && Self::holds(db, result),
            db is Err ==> db->Err_0 is Backend,
    {
        let result = connect_in_memory();
        assert(Self::comes_of_memory(result));
        SqliteDb::opened(result)
    }

    /// Opens (or creates) a database at `path`. A path with a zero character is refused.
    pub fn open(path: &str) -> (db: Result<Self, Error>)
        ensures
            exists|result: Result<rusqlite::Connection, String>| #[trigger]
                Self::comes_of_path(path, result) && Self::holds(db, result),
            path@.contains('\0') ==> db is Err,
            db is Err ==> db->Err_0 is Backend,
    {
        let result = connect(path);
        assert(Self::comes_of_path(path, result));
        SqliteDb::opened(result)
    }
}

} // verus!
