//! Crash-durable deduplicating store of broadcast values.
//!
//! Each node records every broadcast value it has observed as a key of an
//! embedded redb table, so the set survives restarts. Recording is atomic
//! and idempotent, and the whole set can be enumerated.

use vstd::prelude::*;
use redb::{ReadableDatabase, ReadableTable};

verus! {

/// The set of broadcast values recorded in a database's table.
///
/// A `redb::Database` is opaque to the verifier; this names the set of
/// `u64` keys that its table holds, so that contracts can speak of the
/// store's contents. A database whose table was never created holds the
/// empty set. An open database holds its file's lock, so the contents
/// change only through the handle the contracts track, never behind it.
pub uninterp spec fn db_contents(db: redb::Database) -> Set<u64>;

/// `redb::Database`, declared so that a store can hold one in a field.
#[verifier::external_type_specification]
#[verifier::external_body]
pub struct ExDatabase(redb::Database);

/// `redb::Error`, the unified error type of the redb crate.
#[verifier::external_type_specification]
#[verifier::external_body]
pub struct ExRedbError(redb::Error);

/// A storage failure, carrying a human-readable cause.
#[derive(Debug)]
pub struct StoreError {
    pub message: String,
}

/// Durable set of broadcast values, backed by one redb file per node.
pub struct Db {
    db: redb::Database,
}

impl View for Db {
    type V = Set<u64>;

    closed spec fn view(&self) -> Set<u64> {
        db_contents(self.db)
    }
}

/// Relies on `redb::Database::create`: opens or creates the database file
/// `<filename>.redb`. Nothing is known of the table's prior contents, which
/// depend on what is on disk.
#[verifier::external_body]
fn db_create(filename: &str) -> Result<redb::Database, redb::Error> {
    Ok(redb::Database::create(format!("{}.redb", filename))?)
}

/// Relies on redb's write transaction (`begin_write`, `open_table`,
/// `Table::insert`, `commit`): a successful commit atomically makes the key
/// part of the table. A transaction abandoned before `commit` is never
/// applied; `commit` itself documents that on error its changes are applied
/// fully or not at all, and may still have become durable — so a failure
/// leaves the table either as it was or with the key added, never anything
/// else.
#[verifier::external_body]
fn db_insert(db: &mut redb::Database, id: u64) -> (r: Result<(), redb::Error>)
    ensures
        r is Ok ==> db_contents(*final(db)) == db_contents(*old(db)).insert(id),
        r is Err ==> db_contents(*final(db)) == db_contents(*old(db)) || db_contents(*final(db))
            == db_contents(*old(db)).insert(id),
{
    let table_def: redb::TableDefinition<u64, bool> = redb::TableDefinition::new("broadcast");
    let txn = db.begin_write()?;
    {
        let mut table = txn.open_table(table_def)?;
        table.insert(id, true)?;
    }
    txn.commit()?;
    Ok(())
}

/// Relies on redb's read transaction (`begin_read`, `open_table`,
/// `ReadableTable::iter`): the iteration yields every key of the table
/// exactly once, and a table that was never created reads as empty.
#[verifier::external_body]
fn db_list(db: &redb::Database) -> (r: Result<Vec<u64>, redb::Error>)
    ensures
        r is Ok ==> r.unwrap()@.to_set() == db_contents(*db) && r.unwrap()@.no_duplicates(),
{
    let table_def: redb::TableDefinition<u64, bool> = redb::TableDefinition::new("broadcast");
    let txn = db.begin_read()?;
    let table = match txn.open_table(table_def) {
        Ok(table) => table,
        Err(redb::TableError::TableDoesNotExist(_)) => return Ok(Vec::new()),
        Err(e) => return Err(e.into()),
    };
    let mut values: Vec<u64> = Vec::new();
    for entry in table.iter()? {
        values.push(entry?.0.value());
    }
    Ok(values)
}

/// Relies on the `Display` impl of `redb::Error` for a human-readable cause.
#[verifier::external_body]
fn error_text(e: &redb::Error) -> String {
    format!("{}", e)
}

impl Db {
    /// Opens (or creates) the durable store backing the node named
    /// `filename`. The recorded set is whatever the file already held:
    /// empty for a fresh file, the node's history after a restart.
    pub fn new(filename: &str) -> Result<Db, StoreError> {
        match db_create(filename) {
            Ok(d) => Ok(Db { db: d }),
            Err(e) => Err(StoreError { message: error_text(&e) }),
        }
    }

    /// Records a broadcast value. On success the recorded set is the old
    /// set plus `id` (a no-op when `id` was already recorded); on failure
    /// the set is either untouched or, when the final commit step failed
    /// after taking effect, already holds `id` — never anything else.
    pub fn set_broadcast_id(&mut self, id: u64) -> (r: Result<(), StoreError>)
        ensures
            r is Ok ==> final(self)@ == old(self)@.insert(id),
            r is Err ==> final(self)@ == old(self)@ || final(self)@ == old(self)@.insert(id),
    {
        match db_insert(&mut self.db, id) {
            Ok(()) => Ok(()),
            Err(e) => Err(StoreError { message: error_text(&e) }),
        }
    }

    /// Enumerates the recorded set: on success the returned values are
    /// exactly the store's contents, each value once, in no particular
    /// order.
    pub fn seen_broadcast_values(&self) -> (r: Result<Vec<u64>, StoreError>)
        ensures
            r is Ok ==> r.unwrap()@.to_set() == self@ && r.unwrap()@.no_duplicates(),
    {
        match db_list(&self.db) {
            Ok(values) => Ok(values),
            Err(e) => Err(StoreError { message: error_text(&e) }),
        }
    }
}

/// Idempotence of recording: inserting a value twice leaves the recorded
/// set exactly as one insert leaves it, and inserting a value that is
/// already recorded changes nothing — so repeated inserts of one value
/// never change what an enumeration returns after the first.
pub proof fn lemma_insert_idempotent(s: Set<u64>, v: u64)
    ensures
        s.insert(v).insert(v) == s.insert(v),
        s.contains(v) ==> s.insert(v) == s,
{
    assert(s.insert(v).insert(v) =~= s.insert(v));
    if s.contains(v) {
        assert(s.insert(v) =~= s);
    }
}

} // verus!
