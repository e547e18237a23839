//! The SQLite side of the durable backend: building the connection pool and
//! running the four statements the store needs. Every call into the outside
//! crates stands here, behind a declared contract; failures of the engine or
//! of the pool are fatal, as the store cannot serve without them.

use vstd::prelude::*;

use r2d2::Pool;
use r2d2::PooledConnection;
use r2d2_sqlite::rusqlite::OptionalExtension;
use r2d2_sqlite::SqliteConnectionManager;
use std::sync::Arc;

verus! {

/// A shared, bounded pool of connections to one SQLite database. Holds
/// `r2d2::Pool` over `r2d2_sqlite`'s manager; opaque to verification.
#[verifier::external_body]
pub struct DbPool {
    pool: Arc<Pool<SqliteConnectionManager>>,
}

/// One connection, checked out of the pool for a single operation and
/// returned to it when dropped. Holds `r2d2::PooledConnection`; opaque to
/// verification.
#[verifier::external_body]
pub struct DbConnection {
    conn: PooledConnection<SqliteConnectionManager>,
}

/// Relies on `SqliteConnectionManager::file` and `r2d2::Pool::new`: a pool of
/// connections to the database at `file`. Aborts when the pool cannot be
/// built, as the process must not serve without a working store.
#[verifier::external_body]
pub fn create_pool(file: &str) -> (r: DbPool) {
    let manager = SqliteConnectionManager::file(file);
    let pool = Pool::new(manager).expect("Failed to create pool.");
    DbPool { pool: Arc::new(pool) }
}

/// Relies on `r2d2::Pool::get`: one connection, checked out for the duration
/// of a single operation. Aborts when the pool cannot produce a connection
/// within its timeout.
#[verifier::external_body]
pub fn get_connection(pool: &DbPool) -> (r: DbConnection) {
    DbConnection { conn: pool.pool.get().expect("Failed to get a database connection.") }
}

/// Relies on `rusqlite::Connection::execute`: makes sure the `tasks` table
/// exists; creating it is idempotent. Aborts when the statement fails.
#[verifier::external_body]
pub(crate) fn exec_create_table(connection: &DbConnection) {
    connection.conn.execute(
        "CREATE TABLE IF NOT EXISTS tasks (
                id INTEGER PRIMARY KEY,
                name TEXT NOT NULL
            )",
        [],
    ).expect("Failed to create tasks table");
}

/// Relies on `rusqlite::Connection::prepare` and `Statement::query_map` over
/// `SELECT id, name FROM tasks`: every stored row, as an id and a name. What
/// comes back depends on the database alone; nothing more is promised.
/// Aborts on an engine failure or a row violating the schema.
#[verifier::external_body]
pub(crate) fn query_all_tasks(connection: &DbConnection) -> (r: Vec<(u32, String)>) {
    let mut statement = connection.conn.prepare("SELECT id, name FROM tasks").expect(
        "Failed to prepare statement",
    );
    let rows = statement.query_map(
        [],
        |row| {
            let id: u32 = row.get(0)?;
            let name: String = row.get(1)?;
            Ok((id, name))
        },
    ).expect("Failed to query tasks").map(|result| result.expect("Failed to map task")).collect();
    rows
}

/// Relies on `rusqlite::Connection::execute` over `INSERT INTO tasks` and on
/// `Connection::last_insert_rowid`: stores a row with the given name and
/// hands back the id the engine assigned to it on this connection. Aborts
/// when the insert fails or the assigned id does not fit.
#[verifier::external_body]
pub(crate) fn insert_task(connection: &DbConnection, name: &str) -> (r: u32) {
    connection.conn.execute("INSERT INTO tasks (name) VALUES (?)", [name]).expect(
        "Failed to insert task",
    );
    u32::try_from(connection.conn.last_insert_rowid()).expect("Failed to convert id")
}

/// Relies on `rusqlite::Connection::prepare` and `Statement::query_row` over
/// `SELECT ... WHERE id = ?`: a matching row as an id and a name, or nothing
/// when no row matches. What comes back depends on the database alone;
/// nothing more is promised. Absence is the one result returned as a value;
/// any other engine failure aborts.
#[verifier::external_body]
pub(crate) fn query_task(connection: &DbConnection, id: u32) -> (r: Option<(u32, String)>) {
    let mut statement = connection.conn.prepare("SELECT id, name FROM tasks WHERE id = ?").expect(
        "Failed to prepare statement",
    );
    statement.query_row(
        [id],
        |row| {
            let rid: u32 = row.get(0)?;
            let name: String = row.get(1)?;
            Ok((rid, name))
        },
    ).optional().expect("Failed to query task")
}

/// Relies on `rusqlite::Statement::execute` over `DELETE ... WHERE id = ?`:
/// removes the matching rows; matching none is a no-op. Aborts when the
/// statement fails.
#[verifier::external_body]
pub(crate) fn exec_delete(connection: &DbConnection, id: u32) {
    let mut statement = connection.conn.prepare("DELETE FROM tasks WHERE id = ?").expect(
        "Failed to prepare statement",
    );
    statement.execute([id]).expect("Failed to delete task");
}

} // verus!
