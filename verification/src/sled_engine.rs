//! The adapter over the embedded `sled` database: the alternative engine.
//!
//! The database itself is outside code; each call the adapter makes is
//! declared below with the contract the sled documentation gives it, over
//! `sled_contents`, the map of string pairs the tree holds.

use vstd::prelude::*;

verus! {

use crate::engine::KvsEngine;
use crate::error::KvStoreError;

#[verifier::external_type_specification]
#[verifier::external_body]
pub struct ExDb(sled::Db);

/// The key-value pairs a sled tree holds, both read as strings.
pub uninterp spec fn sled_contents(db: sled::Db) -> Map<Seq<char>, Seq<char>>;

/// Relies on `sled::open`: opens or creates the database at `path`. Nothing
/// is assumed about what an existing database holds.
#[verifier::external_body]
fn sled_open(path: &str) -> (r: Result<sled::Db, KvStoreError>)
{
    match sled::open(path) {
        Ok(db) => Ok(db),
        Err(e) => Err(KvStoreError::SledError { message: format!("{}", e) }),
    }
}

/// Relies on `sled::Tree::insert`: maps the key to the new value. The call
/// touches no other key, so even on failure the tree holds the old map or
/// the old map with this one pair set.
#[verifier::external_body]
fn sled_insert(db: &mut sled::Db, key: &str, value: &str) -> (r: Result<(), KvStoreError>)
    ensures
        r is Ok ==> sled_contents(*final(db)) == sled_contents(*old(db)).insert(key@, value@),
        r is Err ==> sled_contents(*final(db)) == sled_contents(*old(db)) || sled_contents(
            *final(db),
        ) == sled_contents(*old(db)).insert(key@, value@),
        r matches Err(e) ==> e is SledError,
{
    match db.insert(key, value) {
        Ok(_) => Ok(()),
        Err(e) => Err(KvStoreError::SledError { message: format!("{}", e) }),
    }
}

/// Relies on `sled::Tree::get`: retrieves the value mapped to the key, if
/// one exists. A value that is not valid text is reported as an error.
#[verifier::external_body]
fn sled_get(db: &sled::Db, key: &str) -> (r: Result<Option<String>, KvStoreError>)
    ensures
        r matches Ok(v) && v matches Some(v) ==> sled_contents(*db).dom().contains(key@) && v@
            == sled_contents(*db)[key@],
        r matches Ok(v) && v is None ==> !sled_contents(*db).dom().contains(key@),
        r matches Err(e) ==> e is SledError,
{
    match db.get(key) {
        Ok(Some(ivec)) => match core::str::from_utf8(ivec.as_ref()) {
            Ok(s) => Ok(Some(s.to_string())),
            Err(e) => Err(KvStoreError::SledError { message: format!("{}", e) }),
        },
        Ok(None) => Ok(None),
        Err(e) => Err(KvStoreError::SledError { message: format!("{}", e) }),
    }
}

/// Relies on `sled::Tree::contains_key`: whether the tree holds the key.
#[verifier::external_body]
fn sled_contains(db: &sled::Db, key: &str) -> (r: Result<bool, KvStoreError>)
    ensures
        r matches Ok(b) ==> b == sled_contents(*db).dom().contains(key@),
        r matches Err(e) ==> e is SledError,
{
    match db.contains_key(key) {
        Ok(b) => Ok(b),
        Err(e) => Err(KvStoreError::SledError { message: format!("{}", e) }),
    }
}

/// Relies on `sled::Tree::remove`: deletes the key's mapping. The call
/// touches no other key, so even on failure the tree holds the old map or
/// the old map without this one key.
#[verifier::external_body]
fn sled_remove(db: &mut sled::Db, key: &str) -> (r: Result<(), KvStoreError>)
    ensures
        r is Ok ==> sled_contents(*final(db)) == sled_contents(*old(db)).remove(key@),
        r is Err ==> sled_contents(*final(db)) == sled_contents(*old(db)) || sled_contents(
            *final(db),
        ) == sled_contents(*old(db)).remove(key@),
        r matches Err(e) ==> e is SledError,
{
    match db.remove(key) {
        Ok(_) => Ok(()),
        Err(e) => Err(KvStoreError::SledError { message: format!("{}", e) }),
    }
}

/// Relies on `sled::Tree::flush`: syncs dirty buffers to disk; what the tree
/// holds does not change, whether or not the sync succeeds.
#[verifier::external_body]
fn sled_flush(db: &mut sled::Db) -> (r: Result<(), KvStoreError>)
    ensures
        sled_contents(*final(db)) == sled_contents(*old(db)),
        r matches Err(e) ==> e is SledError,
{
    match db.flush() {
        Ok(_) => Ok(()),
        Err(e) => Err(KvStoreError::SledError { message: format!("{}", e) }),
    }
}

/// The embedded-database engine.
pub struct SledEngine {
    engine: sled::Db,
}

impl SledEngine {
    /// What the engine holds.
    pub closed spec fn contents(&self) -> Map<Seq<char>, Seq<char>> {
        sled_contents(self.engine)
    }

    /// Opens or creates the database under `path`.
    pub fn open(path: &str) -> (r: Result<Self, KvStoreError>) {
        let engine = match sled_open(path) {
            Ok(db) => db,
            Err(e) => {
                return Err(e);
            },
        };
        Ok(Self { engine })
    }
}

impl KvsEngine for SledEngine {
    open spec fn live(&self) -> Map<Seq<char>, Seq<char>> {
        self.contents()
    }

    open spec fn inv(&self) -> bool {
        true
    }

    fn set(&mut self, key: String, value: String) -> (r: Result<(), KvStoreError>) {
        match sled_insert(&mut self.engine, key.as_str(), value.as_str()) {
            Ok(()) => {},
            Err(e) => {
                return Err(e);
            },
        }
        match sled_flush(&mut self.engine) {
            Ok(()) => Ok(()),
            Err(e) => Err(e),
        }
    }

    fn get(&mut self, key: String) -> (r: Result<Option<String>, KvStoreError>) {
        sled_get(&self.engine, key.as_str())
    }

    fn remove(&mut self, key: String) -> (r: Result<(), KvStoreError>) {
        let held = match sled_contains(&self.engine, key.as_str()) {
            Ok(b) => b,
            Err(e) => {
                return Err(e);
            },
        };
        if !held {
            return Err(KvStoreError::KeyNotFound { key });
        }
        match sled_remove(&mut self.engine, key.as_str()) {
            Ok(()) => {},
            Err(e) => {
                return Err(e);
            },
        }
        match sled_flush(&mut self.engine) {
            Ok(()) => Ok(()),
            Err(e) => Err(e),
        }
    }
}

} // verus!
