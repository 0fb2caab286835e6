//! A database of [turso](https://docs.turso.tech), the pure-Rust SQLite.
use vstd::prelude::*;

verus! {

/// A connection to a turso database; nothing is known of what is inside.
#[verifier::external_type_specification]
#[verifier::external_body]
pub struct ExConnection(turso::Connection);

/// `turso::Connection`'s `clone`: another handle on the same connection. The contents of a
/// connection cannot be spoken of, so nothing is claimed of them.
#[verifier::external_body]
fn share(conn: &turso::Connection) -> (copy: turso::Connection) {
    conn.clone()
}

/// A database backed by a turso connection; a clone shares it.
pub struct TursoDb {
    conn: turso::Connection,
}

impl TursoDb {
    /// The connection of this database.
    pub closed spec fn conn(self) -> turso::Connection {
        self.conn
    }

    /// Whether `copy` is one that a clone of the connection can be.
    pub closed spec fn shares(conn: turso::Connection, copy: turso::Connection) -> bool {
        call_ensures(share, (&conn,), copy)
    }

    /// Wraps a turso connection.
    pub fn new(conn: turso::Connection) -> (db: Self)
        ensures
            db.conn() == conn,
    {
        TursoDb { conn }
    }

    /// The underlying connection.
    pub fn connection(&self) -> (conn: &turso::Connection)
        ensures
            *conn == self.conn(),
    {
        &self.conn
    }
}

impl Clone for TursoDb {
    /// A database on a clone of the connection, which is another handle on the same one.
    fn clone(&self) -> (copy: Self)
        ensures
            Self::shares(self.conn(), copy.conn()),
    {
        TursoDb::new(share(&self.conn))
    }
}

} // verus!
