//! The ordered key/value store (`sled`) that holds the metadata.
//!
//! `sled` changes a tree through `&self`; the wrappers here take the
//! database by `&mut` where the call changes what it holds, so that the
//! contracts can speak of the contents before and after the call.
use vstd::prelude::*;
use crate::text::lex_lt;

verus! {

/// `sled::Db`, an open database.
#[verifier::external_type_specification]
#[verifier::external_body]
pub struct ExDb(sled::Db);

/// `sled::Error`.
#[verifier::external_type_specification]
#[verifier::external_body]
pub struct ExSledError(sled::Error);

/// The key/value pairs that a database holds.
pub uninterp spec fn db_contents(db: sled::Db) -> Map<Seq<u8>, Seq<u8>>;

/// `p` is a prefix of `k`.
pub open spec fn is_prefix(p: Seq<u8>, k: Seq<u8>) -> bool {
    p.len() <= k.len() && k.subrange(0, p.len() as int) == p
}

/// `m1` holds what `m0` holds under every key but `key`.
pub open spec fn same_except(m0: Map<Seq<u8>, Seq<u8>>, m1: Map<Seq<u8>, Seq<u8>>, key: Seq<u8>) -> bool {
    forall|k: Seq<u8>|
        k != key ==> (#[trigger] m1.contains_key(k) == m0.contains_key(k) && (m0.contains_key(k) ==> m1[k] == m0[k]))
}

/// `sled::open`: opens (or creates) the database in the directory `path`.
/// What it holds comes from the disk.
#[verifier::external_body]
pub(crate) fn sled_open(path: &str) -> (r: Result<sled::Db, sled::Error>) {
    sled::open(path)
}

/// The text of a `sled` error (its `Display`).
#[verifier::external_body]
pub(crate) fn sled_error_text(e: &sled::Error) -> String {
    format!("{}", e)
}

/// `Tree::get`: the value stored under `key`, if any.
#[verifier::external_body]
pub(crate) fn db_get(db: &sled::Db, key: &[u8]) -> (r: Result<Option<Vec<u8>>, sled::Error>)
    ensures
        r matches Ok(v) ==> match v {
            Some(b) => db_contents(*db).contains_key(key@) && db_contents(*db)[key@] == b@,
            None => !db_contents(*db).contains_key(key@),
        },
{
    db.get(key).map(|v| v.map(|b| b.to_vec()))
}

/// `Tree::insert`: stores `value` under `key`, replacing what was there.
/// Whatever comes back, no other key is touched: the one change the call
/// makes is the link for `key`.
#[verifier::external_body]
pub(crate) fn db_insert(db: &mut sled::Db, key: &[u8], value: Vec<u8>) -> (r: Result<(), sled::Error>)
    ensures
        same_except(db_contents(*old(db)), db_contents(*final(db)), key@),
        r is Ok ==> db_contents(*final(db)) == db_contents(*old(db)).insert(key@, value@),
{
    db.insert(key, value).map(|_| ())
}

/// `Tree::remove`: removes what is stored under `key`. Whatever comes
/// back, no other key is touched.
#[verifier::external_body]
pub(crate) fn db_remove(db: &mut sled::Db, key: &[u8]) -> (r: Result<(), sled::Error>)
    ensures
        same_except(db_contents(*old(db)), db_contents(*final(db)), key@),
        r is Ok ==> db_contents(*final(db)) == db_contents(*old(db)).remove(key@),
{
    db.remove(key).map(|_| ())
}

/// `Tree::flush`: writes the contents to disk; what the database holds does
/// not change.
#[verifier::external_body]
pub(crate) fn db_flush(db: &sled::Db) -> (r: Result<(), sled::Error>) {
    db.flush().map(|_| ())
}

/// `Tree::scan_prefix`, run to its end: the pairs whose key starts with
/// `prefix`. The pairs read come in ascending key order and are what the
/// database holds; when no item is an error, every key with the prefix is
/// there.
#[verifier::external_body]
pub(crate) fn db_scan_prefix(db: &sled::Db, prefix: &[u8]) -> (r: Vec<
    Result<(Vec<u8>, Vec<u8>), sled::Error>,
>)
    ensures
        forall|i: int|
            0 <= i < r@.len() ==> (#[trigger] r@[i] matches Ok(kv) ==> is_prefix(prefix@, kv.0@)
                && db_contents(*db).contains_key(kv.0@) && db_contents(*db)[kv.0@] == kv.1@),
        forall|i: int, j: int|
            0 <= i < j < r@.len() ==> (#[trigger] r@[i] matches Ok(a) ==> (#[trigger] r@[j] matches Ok(
                b,
            ) ==> lex_lt(a.0@, b.0@))),
        (forall|i: int| 0 <= i < r@.len() ==> #[trigger] r@[i] is Ok) ==> forall|k: Seq<u8>|
            #![trigger db_contents(*db).contains_key(k)]
            db_contents(*db).contains_key(k) && is_prefix(prefix@, k) ==> exists|i: int|
                0 <= i < r@.len() && (#[trigger] r@[i] matches Ok(kv) && kv.0@ == k),
{
    db.scan_prefix(prefix).map(|item| item.map(|(k, v)| (k.to_vec(), v.to_vec()))).collect()
}

} // verus!
