//! The persistent chunk store: a durable table of records
//! `(x, y, z) -> bytes` with a uniqueness constraint on the coordinate
//! triple, kept in an SQLite database.  The library treats it as an
//! abstract key-value table with point lookup and upsert.

use vstd::prelude::*;

use crate::position::ChunkPos;

verus! {

#[verifier::external_type_specification]
#[verifier::external_body]
pub struct ExConnection(rusqlite::Connection);

#[verifier::external_type_specification]
#[verifier::external_body]
pub struct ExSqliteError(rusqlite::Error);

/// The chunk records a connection's database holds, as a map from the
/// coordinate triple to the stored bytes.
pub uninterp spec fn stored_chunks(c: rusqlite::Connection) -> Map<(int, int, int), Seq<u8>>;

/// Errors of the persistent store.
#[derive(Debug, Clone, Copy, PartialEq, Eq, Structural)]
pub enum StoreError {
    /// The backing store is unavailable or a statement failed; the
    /// affected chunk simply stays absent and is retried later.
    StoreIOFailure,
}

/// An open connection to the chunk table.
pub struct Database {
    conn: rusqlite::Connection,
}

/// The store key of a chunk coordinate.
pub open spec fn store_key(pos: ChunkPos) -> (int, int, int) {
    (pos.x as int, pos.y as int, pos.z as int)
}

impl Database {
    /// The chunk records this database holds.
    pub closed spec fn chunks(self) -> Map<(int, int, int), Seq<u8>> {
        stored_chunks(self.conn)
    }

    /// Relies on rusqlite's Connection::open_in_memory and execute: a
    /// fresh in-memory database holds no tables, so after creating the
    /// chunk table it holds no chunk records.
    #[verifier::external_body]
    fn open_in_memory_raw() -> (r: Result<Database, rusqlite::Error>)
        ensures
            match r {
                Ok(db) => stored_chunks(db.conn) == Map::<(int, int, int), Seq<u8>>::empty(),
                Err(_) => true,
            },
    {
        let conn = rusqlite::Connection::open_in_memory()?;
        conn.execute(
            "CREATE TABLE IF NOT EXISTS chunks (x INTEGER, y INTEGER, z INTEGER, data BLOB, PRIMARY KEY (x, y, z))",
            (),
        )?;
        Ok(Database { conn })
    }

    /// Relies on rusqlite's Connection::open and execute: opens or
    /// creates the database file and ensures the chunk table exists.
    /// Nothing is known of the records already on disk.
    #[verifier::external_body]
    fn open_raw(path: &str) -> (r: Result<Database, rusqlite::Error>)
    {
        let conn = rusqlite::Connection::open(path)?;
        conn.execute(
            "CREATE TABLE IF NOT EXISTS chunks (x INTEGER, y INTEGER, z INTEGER, data BLOB, PRIMARY KEY (x, y, z))",
            (),
        )?;
        Ok(Database { conn })
    }

    /// An empty in-memory chunk store, for tests and sessions without a
    /// world file.
    pub fn open_in_memory() -> (r: Result<Database, StoreError>)
        ensures
            r matches Ok(db) ==> db.chunks() == Map::<(int, int, int), Seq<u8>>::empty(),
    {
        match Self::open_in_memory_raw() {
            Ok(db) => Ok(db),
            Err(_) => Err(StoreError::StoreIOFailure),
        }
    }

    /// The chunk store in the world file at `path`, created if absent.
    /// Its records are whatever earlier sessions persisted.
    pub fn open(path: &str) -> (r: Result<Database, StoreError>) {
        match Self::open_raw(path) {
            Ok(db) => Ok(db),
            Err(_) => Err(StoreError::StoreIOFailure),
        }
    }
}

/// Relies on rusqlite's Connection::execute with REPLACE INTO on the
/// chunk table's primary key: on success exactly the addressed record
/// was upserted; a failed statement changes nothing (a single SQLite
/// statement is atomic).
#[verifier::external_body]
fn exec_replace(db: &mut Database, x: i32, y: i32, z: i32, data: &Vec<u8>) -> (r: Result<
    (),
    rusqlite::Error,
>)
    ensures
        r is Ok ==> stored_chunks(final(db).conn) == stored_chunks(old(db).conn).insert(
            (x as int, y as int, z as int),
            data@,
        ),
        r is Err ==> stored_chunks(final(db).conn) == stored_chunks(old(db).conn),
{
    match db.conn.execute(
        "REPLACE INTO chunks (x, y, z, data) VALUES (?1, ?2, ?3, ?4)",
        (x, y, z, data.as_slice()),
    ) {
        Ok(_) => Ok(()),
        Err(e) => Err(e),
    }
}

/// Relies on rusqlite's Connection::query_row with SELECT by the
/// table's primary key: it returns the stored bytes of the addressed
/// record, and fails with QueryReturnedNoRows exactly when no record
/// with that key exists.
#[verifier::external_body]
fn query_chunk(db: &Database, x: i32, y: i32, z: i32) -> (r: Result<
    Option<Vec<u8>>,
    rusqlite::Error,
>)
    ensures
        r matches Ok(v) ==> match v {
            Some(bytes) => stored_chunks(db.conn).contains_key((x as int, y as int, z as int))
                && bytes@ == stored_chunks(db.conn)[(x as int, y as int, z as int)],
            None => !stored_chunks(db.conn).contains_key((x as int, y as int, z as int)),
        },
{
    match db.conn.query_row(
        "SELECT data FROM chunks WHERE x = ?1 AND y = ?2 AND z = ?3",
        (x, y, z),
        |row| row.get::<_, Vec<u8>>(0),
    ) {
        Ok(bytes) => Ok(Some(bytes)),
        Err(rusqlite::Error::QueryReturnedNoRows) => Ok(None),
        Err(e) => Err(e),
    }
}

/// Upsert the serialized form of the chunk at `pos`.  On success the
/// store holds exactly this record under the coordinate key; a failure
/// leaves the store unchanged and is surfaced for retry.
pub fn save_chunk_data(db: &mut Database, pos: ChunkPos, data: Vec<u8>) -> (r: Result<
    (),
    StoreError,
>)
    ensures
        r is Ok ==> final(db).chunks() == old(db).chunks().insert(store_key(pos), data@),
        r is Err ==> final(db).chunks() == old(db).chunks() && r == Err::<(), StoreError>(
            StoreError::StoreIOFailure,
        ),
{
    match exec_replace(db, pos.x, pos.y, pos.z, &data) {
        Ok(_) => Ok(()),
        Err(_) => Err(StoreError::StoreIOFailure),
    }
}

/// Look the chunk record at `pos` up: its stored bytes, `None` when the
/// store holds no record for that coordinate, or a store failure.
pub fn load_chunk_data(db: &Database, pos: ChunkPos) -> (r: Result<Option<Vec<u8>>, StoreError>)
    ensures
        r matches Ok(v) ==> match v {
            Some(bytes) => db.chunks().contains_key(store_key(pos)) && bytes@ == db.chunks()[
                store_key(pos)
            ],
            None => !db.chunks().contains_key(store_key(pos)),
        },
        r is Err ==> r == Err::<Option<Vec<u8>>, StoreError>(StoreError::StoreIOFailure),
{
    match query_chunk(db, pos.x, pos.y, pos.z) {
        Ok(v) => Ok(v),
        Err(_) => Err(StoreError::StoreIOFailure),
    }
}

} // verus!
