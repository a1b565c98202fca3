//! The durable key-value layer behind the transaction history: an
//! embedded ordered store on disk. Every call into it goes through a
//! trusted wrapper whose contract speaks of `db_contents`, the byte map
//! the tree holds.
use vstd::prelude::*;

verus! {

#[verifier::external_type_specification]
#[verifier::external_body]
pub struct ExDb(sled::Db);

/// What the tree holds, key bytes to value bytes.
pub uninterp spec fn db_contents(db: sled::Db) -> Map<Seq<u8>, Seq<u8>>;

/// The path a tree was opened at; writing to the tree never moves it.
pub uninterp spec fn db_path(db: sled::Db) -> Seq<u8>;

/// Relies on sled::open: opens or creates the tree rooted at `path`.
/// What it holds is whatever the disk holds, so nothing is promised of
/// the contents; the handle is rooted at exactly the given path.
#[verifier::external_body]
pub(crate) fn db_open(path: &Vec<u8>) -> (r: Result<sled::Db, String>)
    ensures
        r matches Ok(db) ==> db_path(db) == path@,
{
    let s = String::from_utf8_lossy(path).into_owned();
    match sled::open(&s) {
        Ok(db) => Ok(db),
        Err(e) => Err(e.to_string()),
    }
}

/// Relies on sled::Tree::get: returns the value stored for a key, and
/// nothing on a missing key.
#[verifier::external_body]
pub(crate) fn db_get(db: &sled::Db, key: &Vec<u8>) -> (r: Result<Option<Vec<u8>>, String>)
    ensures
        match r {
            Ok(Some(v)) => db_contents(*db).contains_key(key@) && v@ == db_contents(*db)[key@],
            Ok(None) => !db_contents(*db).contains_key(key@),
            Err(_) => true,
        },
{
    match db.get(key.as_slice()) {
        Ok(Some(iv)) => Ok(Some(iv.as_ref().to_vec())),
        Ok(None) => Ok(None),
        Err(e) => Err(e.to_string()),
    }
}

/// Relies on sled::Tree::insert: sets a key to a value. On an error the
/// tree's contents are no longer relied on.
#[verifier::external_body]
pub(crate) fn db_insert(db: &mut sled::Db, key: &Vec<u8>, val: &Vec<u8>) -> (r: Result<
    (),
    String,
>)
    ensures
        r is Ok ==> db_contents(*final(db)) == db_contents(*old(db)).insert(key@, val@),
        db_path(*final(db)) == db_path(*old(db)),
{
    match db.insert(key.as_slice(), val.as_slice()) {
        Ok(_) => Ok(()),
        Err(e) => Err(e.to_string()),
    }
}

/// Relies on sled::Tree::clear: removes every key.
#[verifier::external_body]
pub(crate) fn db_clear(db: &mut sled::Db) -> (r: Result<(), String>)
    ensures
        r is Ok ==> forall|k: Seq<u8>| !db_contents(*final(db)).contains_key(k),
        db_path(*final(db)) == db_path(*old(db)),
{
    match db.clear() {
        Ok(_) => Ok(()),
        Err(e) => Err(e.to_string()),
    }
}

/// Relies on sled::Tree::flush: forces pending writes to disk; the
/// contents do not change.
#[verifier::external_body]
pub(crate) fn db_flush(db: &mut sled::Db) -> (r: Result<(), String>)
    ensures
        db_contents(*final(db)) == db_contents(*old(db)),
        db_path(*final(db)) == db_path(*old(db)),
{
    match db.flush() {
        Ok(_) => Ok(()),
        Err(e) => Err(e.to_string()),
    }
}

} // verus!
