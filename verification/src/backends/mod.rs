//! The databases of common SQL drivers.
pub mod rusqlite;
pub mod turso;

pub use self::rusqlite::SqliteDb;
pub use self::turso::TursoDb;
