//! Binary encoding of the metadata records with `bincode` (version 1, its
//! default options: fixed-width little-endian integers, no size limit).
//!
//! Each record is handed to `bincode` as a tuple of plain values, which
//! `bincode` lays out exactly as it lays out a struct with those fields in
//! that order; an enum's variant goes as its `u32` index. The bytes that
//! `bincode` writes are named, not spelled out; what the library relies on
//! is that decoding what was encoded gives the value back.
use vstd::prelude::*;

verus! {

/// `bincode::ErrorKind`, the error that `bincode` reports.
#[verifier::external_type_specification]
#[verifier::external_body]
pub struct ExBincodeErrorKind(bincode::ErrorKind);

/// The text of a `bincode` error (its `Display`).
#[verifier::external_body]
pub(crate) fn bincode_error_text(e: &bincode::Error) -> String {
    format!("{}", e)
}

/// The bytes `bincode::serialize` writes for a `u64`.
pub uninterp spec fn bincode_u64(x: u64) -> Seq<u8>;

/// What `bincode::deserialize::<u64>` reads from bytes (`None`: an error).
pub uninterp spec fn bincode_decode_u64(bytes: Seq<u8>) -> Option<u64>;

/// `bincode::serialize` of a `u64`. With the default options there is no
/// size limit and the output is a `Vec`, so it cannot fail; decoding its
/// output gives the value back.
#[verifier::external_body]
pub(crate) fn encode_u64(x: u64) -> (r: Result<Vec<u8>, bincode::Error>)
    ensures
        r is Ok,
        r is Ok ==> r->Ok_0@ == bincode_u64(x) && bincode_decode_u64(r->Ok_0@) == Some(x),
{
    bincode::serialize(&x)
}

/// `bincode::deserialize::<u64>`.
#[verifier::external_body]
pub(crate) fn decode_u64(bytes: &[u8]) -> (r: Result<u64, bincode::Error>)
    ensures
        r matches Ok(x) ==> bincode_decode_u64(bytes@) == Some(x),
        r is Err ==> bincode_decode_u64(bytes@) is None,
{
    bincode::deserialize::<u64>(bytes)
}

/// The bytes `bincode::serialize` writes for a `Vec<u64>`.
pub uninterp spec fn bincode_ids(ids: Seq<u64>) -> Seq<u8>;

/// What `bincode::deserialize::<Vec<u64>>` reads from bytes.
pub uninterp spec fn bincode_decode_ids(bytes: Seq<u8>) -> Option<Seq<u64>>;

/// `bincode::serialize` of a `Vec<u64>`; it cannot fail (as for `u64`),
/// and decoding its output gives the sequence back.
#[verifier::external_body]
pub(crate) fn encode_ids(ids: &Vec<u64>) -> (r: Result<Vec<u8>, bincode::Error>)
    ensures
        r is Ok,
        r is Ok ==> r->Ok_0@ == bincode_ids(ids@) && bincode_decode_ids(r->Ok_0@) == Some(ids@),
{
    bincode::serialize(ids)
}

/// `bincode::deserialize::<Vec<u64>>`.
#[verifier::external_body]
pub(crate) fn decode_ids(bytes: &[u8]) -> (r: Result<Vec<u64>, bincode::Error>)
    ensures
        r matches Ok(v) ==> bincode_decode_ids(bytes@) == Some(v@),
        r is Err ==> bincode_decode_ids(bytes@) is None,
{
    bincode::deserialize::<Vec<u64>>(bytes)
}

/// The bytes `bincode::serialize` writes for a tag set record
/// `(file_id, filename, tags)`.
pub uninterp spec fn bincode_tag_set(file_id: u64, filename: Seq<char>, tags: Seq<Seq<char>>) -> Seq<u8>;

/// What `bincode::deserialize::<(u64, String, Vec<String>)>` reads.
pub uninterp spec fn bincode_decode_tag_set(bytes: Seq<u8>) -> Option<(u64, Seq<char>, Seq<Seq<char>>)>;

/// `bincode::serialize` of `(file_id, filename, tags)`; it cannot fail, and
/// decoding its output gives the record back.
#[verifier::external_body]
pub(crate) fn encode_tag_set(file_id: u64, filename: &str, tags: &Vec<String>) -> (r: Result<
    Vec<u8>,
    bincode::Error,
>)
    ensures
        r is Ok,
        r is Ok ==> r->Ok_0@ == bincode_tag_set(file_id, filename@, tags.deep_view())
            && bincode_decode_tag_set(r->Ok_0@) == Some((file_id, filename@, tags.deep_view())),
{
    bincode::serialize(&(file_id, filename, tags))
}

/// `bincode::deserialize::<(u64, String, Vec<String>)>`.
#[verifier::external_body]
pub(crate) fn decode_tag_set(bytes: &[u8]) -> (r: Result<(u64, String, Vec<String>), bincode::Error>)
    ensures
        r matches Ok(t) ==> bincode_decode_tag_set(bytes@) == Some((t.0, t.1@, t.2.deep_view())),
        r is Err ==> bincode_decode_tag_set(bytes@) is None,
{
    bincode::deserialize::<(u64, String, Vec<String>)>(bytes)
}

/// The bytes `bincode::serialize` writes for an inode record
/// `(id, parent_id, name, is_dir, size)`.
pub uninterp spec fn bincode_inode(id: u64, parent_id: u64, name: Seq<char>, is_dir: bool, size: u64) -> Seq<u8>;

/// What `bincode::deserialize::<(u64, u64, String, bool, u64)>` reads.
pub uninterp spec fn bincode_decode_inode(bytes: Seq<u8>) -> Option<(u64, u64, Seq<char>, bool, u64)>;

/// `bincode::serialize` of `(id, parent_id, name, is_dir, size)`; it cannot
/// fail, and decoding its output gives the record back.
#[verifier::external_body]
pub(crate) fn encode_inode(id: u64, parent_id: u64, name: &str, is_dir: bool, size: u64) -> (r: Result<
    Vec<u8>,
    bincode::Error,
>)
    ensures
        r is Ok,
        r is Ok ==> r->Ok_0@ == bincode_inode(id, parent_id, name@, is_dir, size)
            && bincode_decode_inode(r->Ok_0@) == Some((id, parent_id, name@, is_dir, size)),
{
    bincode::serialize(&(id, parent_id, name, is_dir, size))
}

/// `bincode::deserialize::<(u64, u64, String, bool, u64)>`.
#[verifier::external_body]
pub(crate) fn decode_inode(bytes: &[u8]) -> (r: Result<(u64, u64, String, bool, u64), bincode::Error>)
    ensures
        r matches Ok(t) ==> bincode_decode_inode(bytes@) == Some((t.0, t.1, t.2@, t.3, t.4)),
        r is Err ==> bincode_decode_inode(bytes@) is None,
{
    bincode::deserialize::<(u64, u64, String, bool, u64)>(bytes)
}

/// The bytes `bincode::serialize` writes for a snapshot record
/// `(name, timestamp, root_id)`.
pub uninterp spec fn bincode_snapshot(name: Seq<char>, timestamp: u64, root_id: u64) -> Seq<u8>;

/// What `bincode::deserialize::<(String, u64, u64)>` reads.
pub uninterp spec fn bincode_decode_snapshot(bytes: Seq<u8>) -> Option<(Seq<char>, u64, u64)>;

/// `bincode::serialize` of `(name, timestamp, root_id)`; it cannot fail, and
/// decoding its output gives the record back.
#[verifier::external_body]
pub(crate) fn encode_snapshot(name: &str, timestamp: u64, root_id: u64) -> (r: Result<
    Vec<u8>,
    bincode::Error,
>)
    ensures
        r is Ok,
        r is Ok ==> r->Ok_0@ == bincode_snapshot(name@, timestamp, root_id)
            && bincode_decode_snapshot(r->Ok_0@) == Some((name@, timestamp, root_id)),
{
    bincode::serialize(&(name, timestamp, root_id))
}

/// `bincode::deserialize::<(String, u64, u64)>`.
#[verifier::external_body]
pub(crate) fn decode_snapshot(bytes: &[u8]) -> (r: Result<(String, u64, u64), bincode::Error>)
    ensures
        r matches Ok(t) ==> bincode_decode_snapshot(bytes@) == Some((t.0@, t.1, t.2)),
        r is Err ==> bincode_decode_snapshot(bytes@) is None,
{
    bincode::deserialize::<(String, u64, u64)>(bytes)
}

/// The bytes `bincode::serialize` writes for a recipe record
/// `(file_size, chunks, kind)`, the kind as its variant index.
pub uninterp spec fn bincode_recipe(file_size: u64, chunks: Seq<Seq<char>>, kind: u32) -> Seq<u8>;

/// What `bincode::deserialize::<(u64, Vec<String>, u32)>` reads.
pub uninterp spec fn bincode_decode_recipe(bytes: Seq<u8>) -> Option<(u64, Seq<Seq<char>>, u32)>;

/// `bincode::serialize` of `(file_size, chunks, kind)`; it cannot fail, and
/// decoding its output gives the record back.
#[verifier::external_body]
pub(crate) fn encode_recipe(file_size: u64, chunks: &Vec<String>, kind: u32) -> (r: Result<
    Vec<u8>,
    bincode::Error,
>)
    ensures
        r is Ok,
        r is Ok ==> r->Ok_0@ == bincode_recipe(file_size, chunks.deep_view(), kind)
            && bincode_decode_recipe(r->Ok_0@) == Some((file_size, chunks.deep_view(), kind)),
{
    bincode::serialize(&(file_size, chunks, kind))
}

/// `bincode::deserialize::<(u64, Vec<String>, u32)>`.
#[verifier::external_body]
pub(crate) fn decode_recipe(bytes: &[u8]) -> (r: Result<(u64, Vec<String>, u32), bincode::Error>)
    ensures
        r matches Ok(t) ==> bincode_decode_recipe(bytes@) == Some((t.0, t.1.deep_view(), t.2)),
        r is Err ==> bincode_decode_recipe(bytes@) is None,
{
    bincode::deserialize::<(u64, Vec<String>, u32)>(bytes)
}

} // verus!
