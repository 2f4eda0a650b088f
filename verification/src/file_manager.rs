//! The metadata store: inodes, directory entries, file recipes, snapshots,
//! file tags and the tag index, all kept as records in one `sled` database.
//!
//! Every record lives under a text key: `ino_meta:{id}`, `ino_recipe:{id}`,
//! `dirent:{parent}:{name}`, `ino_tags:{id}`, `tag_index:{tag}`,
//! `snapshot:{name}`, `legacy_name:{name}` and the counter
//! `legacy:next_ino`. The database stores the UTF-8 bytes of the key.
use vstd::prelude::*;
use vstd::utf8::*;
use crate::codec::{
    bincode_decode_ids, bincode_decode_inode, bincode_decode_recipe, bincode_decode_snapshot,
    bincode_decode_tag_set, bincode_decode_u64, bincode_error_text, bincode_ids, bincode_inode,
    bincode_recipe, bincode_snapshot, bincode_tag_set, bincode_u64, decode_ids, decode_inode,
    decode_recipe, decode_snapshot, decode_tag_set, decode_u64, encode_ids, encode_inode,
    encode_recipe, encode_snapshot, encode_tag_set, encode_u64,
};
use crate::store::{
    same_except,
    db_contents, db_flush, db_get, db_insert, db_remove, db_scan_prefix, is_prefix, sled_error_text,
    sled_open,
};
use crate::text::{
    canonical_of, canonical_tags, chars_of, lemma_canonical_of, contains_id, contains_text, decimal, insert_id_sorted,
    insert_text_sorted, lemma_decimal_digits, lemma_decimal_injective, lemma_encode_concat,
    lemma_push_to_set, lemma_take_contains, lex_lt, lemma_lex_order, message, normal_tag, normal_tag_set, normalize_tag,
    normalize_tag_list, push_decimal, remove_id_sorted, sorted_ids, sorted_texts, sorted_unique_ids,
    string_of, string_push, text_lt, retain_ids_in, string_from_utf8, strip_prefix_text,
    text_starts_with, utf8_error_text, lemma_text_order, remove_all, lemma_sorted_texts_same_set, without_text, path_components,
    split_path, string_from_utf8_lossy, utf8_lossy, retain_unused, unused,
};

verus! {

broadcast use vstd::utf8::encode_utf8_decode_utf8;

// ---------------------------------------------------------------------------
// Records
// ---------------------------------------------------------------------------

/// Whether a recipe describes a file or a directory.
#[derive(Debug, Clone, Copy, PartialEq, Eq, Structural)]
pub enum FileKind {
    File,
    Directory,
}

/// How to rebuild a file: its size and the content addresses of its chunks,
/// in order.
#[derive(Debug, Clone)]
pub struct FileRecipe {
    pub file_size: u64,
    pub chunks: Vec<String>,
    pub kind: FileKind,
}

/// The attributes stored with an inode.
#[derive(Debug, Clone)]
pub struct InodeAttr {
    pub size: u64,
}

/// The stored form of an inode.
#[derive(Debug, Clone)]
pub struct InodeMetadata {
    pub id: u64,
    pub parent_id: u64,
    pub name: String,
    pub is_dir: bool,
    pub attr: InodeAttr,
}

/// A directory entry: `name` in directory `parent_id` is inode
/// `child_inode_id`.
#[derive(Debug, Clone)]
pub struct Dirent {
    pub parent_id: u64,
    pub name: String,
    pub child_inode_id: u64,
}

/// The stored form of a snapshot.
#[derive(Debug, Clone)]
pub struct SnapshotMetadata {
    pub name: String,
    pub timestamp: u64,
    pub root_id: u64,
}

/// The tags of one file.
#[derive(Debug, Clone)]
pub struct FileTagSet {
    pub file_id: u64,
    pub filename: String,
    pub tags: Vec<String>,
}

/// The variant index that the encoding gives a kind.
pub open spec fn kind_index(k: FileKind) -> u32 {
    match k {
        FileKind::File => 0,
        FileKind::Directory => 1,
    }
}

// ---------------------------------------------------------------------------
// Keys
// ---------------------------------------------------------------------------

pub open spec fn prefix_inode() -> Seq<char> {
    seq!['i', 'n', 'o', '_', 'm', 'e', 't', 'a', ':']
}

pub open spec fn prefix_recipe() -> Seq<char> {
    seq!['i', 'n', 'o', '_', 'r', 'e', 'c', 'i', 'p', 'e', ':']
}

pub open spec fn prefix_dirent() -> Seq<char> {
    seq!['d', 'i', 'r', 'e', 'n', 't', ':']
}

pub open spec fn prefix_tags() -> Seq<char> {
    seq!['i', 'n', 'o', '_', 't', 'a', 'g', 's', ':']
}

pub open spec fn prefix_tag_index() -> Seq<char> {
    seq!['t', 'a', 'g', '_', 'i', 'n', 'd', 'e', 'x', ':']
}

pub open spec fn prefix_snapshot() -> Seq<char> {
    seq!['s', 'n', 'a', 'p', 's', 'h', 'o', 't', ':']
}

pub open spec fn prefix_legacy() -> Seq<char> {
    seq!['l', 'e', 'g', 'a', 'c', 'y', '_', 'n', 'a', 'm', 'e', ':']
}

/// The key of the legacy inode counter, `legacy:next_ino`.
pub open spec fn counter_key() -> Seq<char> {
    seq!['l', 'e', 'g', 'a', 'c', 'y', ':', 'n', 'e', 'x', 't', '_', 'i', 'n', 'o']
}

pub open spec fn spec_inode_key(id: u64) -> Seq<char> {
    prefix_inode() + decimal(id as nat)
}

pub open spec fn spec_recipe_key(id: u64) -> Seq<char> {
    prefix_recipe() + decimal(id as nat)
}

pub open spec fn spec_dirent_prefix(parent: u64) -> Seq<char> {
    prefix_dirent() + decimal(parent as nat) + seq![':']
}

pub open spec fn spec_dirent_key(parent: u64, name: Seq<char>) -> Seq<char> {
    spec_dirent_prefix(parent) + name
}

pub open spec fn spec_tags_key(id: u64) -> Seq<char> {
    prefix_tags() + decimal(id as nat)
}

pub open spec fn spec_tag_index_key(tag: Seq<char>) -> Seq<char> {
    prefix_tag_index() + tag
}

pub open spec fn spec_snapshot_key(name: Seq<char>) -> Seq<char> {
    prefix_snapshot() + name
}

pub open spec fn spec_legacy_key(name: Seq<char>) -> Seq<char> {
    prefix_legacy() + name
}

/// The bytes the database stores for a text key.
pub open spec fn key_bytes(k: Seq<char>) -> Seq<u8> {
    encode_utf8(k)
}

/// Two keys that both start with `p` are equal only if their rests are.
pub proof fn lemma_key_suffix(p: Seq<char>, a: Seq<char>, b: Seq<char>)
    requires
        key_bytes(p + a) == key_bytes(p + b),
    ensures
        a == b,
{
    assert(decode_utf8(encode_utf8(p + a)) == p + a);
    assert(decode_utf8(encode_utf8(p + b)) == p + b);
    assert((p + a).subrange(p.len() as int, (p + a).len() as int) =~= a);
    assert((p + b).subrange(p.len() as int, (p + b).len() as int) =~= b);
}

/// Keys that differ at a position both have differ as bytes.
pub proof fn lemma_key_differs(a: Seq<char>, b: Seq<char>, i: int)
    requires
        0 <= i < a.len(),
        i < b.len(),
        a[i] != b[i],
    ensures
        key_bytes(a) != key_bytes(b),
{
    assert(decode_utf8(encode_utf8(a)) == a);
    assert(decode_utf8(encode_utf8(b)) == b);
}

/// Different inode ids give different tag-record keys.
pub proof fn lemma_tags_key_injective(a: u64, b: u64)
    requires
        key_bytes(spec_tags_key(a)) == key_bytes(spec_tags_key(b)),
    ensures
        a == b,
{
    lemma_key_suffix(prefix_tags(), decimal(a as nat), decimal(b as nat));
    lemma_decimal_injective(a as nat, b as nat);
}

/// Different inodes have different recipe keys.
pub proof fn lemma_recipe_key_injective(a: u64, b: u64)
    requires
        key_bytes(spec_recipe_key(a)) == key_bytes(spec_recipe_key(b)),
    ensures
        a == b,
{
    lemma_key_suffix(prefix_recipe(), decimal(a as nat), decimal(b as nat));
    lemma_decimal_injective(a as nat, b as nat);
}

/// Different tags give different index keys.
pub proof fn lemma_index_key_injective(a: Seq<char>, b: Seq<char>)
    requires
        key_bytes(spec_tag_index_key(a)) == key_bytes(spec_tag_index_key(b)),
    ensures
        a == b,
{
    lemma_key_suffix(prefix_tag_index(), a, b);
}

/// An inode-record key is never a recipe key.
pub proof fn lemma_inode_recipe_keys_differ(a: u64, b: u64)
    ensures
        key_bytes(spec_inode_key(a)) != key_bytes(spec_recipe_key(b)),
{
    lemma_key_differs(spec_inode_key(a), spec_recipe_key(b), 4);
}

/// An inode-record key is never a directory-entry key.
pub proof fn lemma_inode_dirent_keys_differ(a: u64, parent: u64, name: Seq<char>)
    ensures
        key_bytes(spec_inode_key(a)) != key_bytes(spec_dirent_key(parent, name)),
{
    lemma_key_differs(spec_inode_key(a), spec_dirent_key(parent, name), 0);
}

/// An inode-record key is never one a tag update writes.
pub proof fn lemma_inode_not_tag_key(a: u64, id: u64, x: Seq<Seq<char>>, y: Seq<Seq<char>>)
    ensures
        !tag_update_key(key_bytes(spec_inode_key(a)), id, x, y),
{
    lemma_key_differs(spec_inode_key(a), spec_tags_key(id), 4);
    assert forall|t: Seq<char>| #[trigger] spec_tag_index_key(t) == spec_tag_index_key(t) implies key_bytes(
        spec_inode_key(a),
    ) != key_bytes(spec_tag_index_key(t)) by {
        lemma_key_differs(spec_inode_key(a), spec_tag_index_key(t), 0);
    }
}

/// A recipe key is never a directory-entry key.
pub proof fn lemma_recipe_dirent_keys_differ(a: u64, parent: u64, name: Seq<char>)
    ensures
        key_bytes(spec_recipe_key(a)) != key_bytes(spec_dirent_key(parent, name)),
{
    lemma_key_differs(spec_recipe_key(a), spec_dirent_key(parent, name), 0);
}

/// `k` is the key of some tag's index record.
pub open spec fn is_index_key(k: Seq<u8>) -> bool {
    exists|t: Seq<char>| k == key_bytes(#[trigger] spec_tag_index_key(t))
}

/// `m1` holds what `m0` holds under every key but inode `id`'s tag record
/// and the tag index records.
pub open spec fn only_tags_changed(m0: Map<Seq<u8>, Seq<u8>>, m1: Map<Seq<u8>, Seq<u8>>, id: u64) -> bool {
    forall|k: Seq<u8>|
        k != key_bytes(spec_tags_key(id)) && !is_index_key(k) ==> (#[trigger] m1.contains_key(k) == m0.contains_key(k) && (
        m0.contains_key(k) ==> m1[k] == m0[k]))
}

/// Inode, recipe and directory-entry records are not tag records.
pub proof fn lemma_records_not_tag_keys(a: u64, id: u64, parent: u64, name: Seq<char>)
    ensures
        key_bytes(spec_inode_key(a)) != key_bytes(spec_tags_key(id)) && !is_index_key(key_bytes(spec_inode_key(a))),
        key_bytes(spec_recipe_key(a)) != key_bytes(spec_tags_key(id)) && !is_index_key(key_bytes(spec_recipe_key(a))),
        key_bytes(spec_dirent_key(parent, name)) != key_bytes(spec_tags_key(id)) && !is_index_key(
            key_bytes(spec_dirent_key(parent, name)),
        ),
{
    lemma_key_differs(spec_inode_key(a), spec_tags_key(id), 4);
    lemma_key_differs(spec_recipe_key(a), spec_tags_key(id), 4);
    lemma_key_differs(spec_dirent_key(parent, name), spec_tags_key(id), 0);
    assert forall|t: Seq<char>| #[trigger] spec_tag_index_key(t) == spec_tag_index_key(t) implies key_bytes(
        spec_inode_key(a),
    ) != key_bytes(spec_tag_index_key(t)) && key_bytes(spec_recipe_key(a)) != key_bytes(spec_tag_index_key(t))
        && key_bytes(spec_dirent_key(parent, name)) != key_bytes(spec_tag_index_key(t)) by {
        lemma_key_differs(spec_inode_key(a), spec_tag_index_key(t), 0);
        lemma_key_differs(spec_recipe_key(a), spec_tag_index_key(t), 0);
        lemma_key_differs(spec_dirent_key(parent, name), spec_tag_index_key(t), 0);
    }
}

/// A change of one index record changes only tag records.
proof fn lemma_only_tags_index(m0: Map<Seq<u8>, Seq<u8>>, m1: Map<Seq<u8>, Seq<u8>>, tag: Seq<char>, id: u64)
    requires
        same_except(m0, m1, key_bytes(spec_tag_index_key(tag))),
    ensures
        only_tags_changed(m0, m1, id),
{
    assert forall|k: Seq<u8>| k != key_bytes(spec_tags_key(id)) && !is_index_key(k) implies (#[trigger] m1.contains_key(k)
        == m0.contains_key(k) && (m0.contains_key(k) ==> m1[k] == m0[k])) by {
        if k == key_bytes(spec_tag_index_key(tag)) {
            assert(is_index_key(k));
        } else {
            assert(m1.contains_key(k) == m0.contains_key(k));
            if m0.contains_key(k) {
                assert(m1[k] == m0[k]);
            }
        }
    }
}

/// A change of inode `id`'s tag record changes only tag records.
proof fn lemma_only_tags_record(m0: Map<Seq<u8>, Seq<u8>>, m1: Map<Seq<u8>, Seq<u8>>, id: u64)
    requires
        same_except(m0, m1, key_bytes(spec_tags_key(id))),
    ensures
        only_tags_changed(m0, m1, id),
{
}

/// Changing only tag records twice changes only tag records.
proof fn lemma_only_tags_trans(a: Map<Seq<u8>, Seq<u8>>, b: Map<Seq<u8>, Seq<u8>>, c: Map<Seq<u8>, Seq<u8>>, id: u64)
    requires
        only_tags_changed(a, b, id),
        only_tags_changed(b, c, id),
    ensures
        only_tags_changed(a, c, id),
{
    assert forall|k: Seq<u8>| k != key_bytes(spec_tags_key(id)) && !is_index_key(k) implies (#[trigger] c.contains_key(k)
        == a.contains_key(k) && (a.contains_key(k) ==> c[k] == a[k])) by {
        assert(b.contains_key(k) == a.contains_key(k));
        assert(c.contains_key(k) == b.contains_key(k));
        if a.contains_key(k) {
            assert(b[k] == a[k]);
            assert(c[k] == b[k]);
        }
    }
}

/// Directory entries of two different directories have different keys.
pub proof fn lemma_dirent_parents_differ(p: u64, q: u64, a: Seq<char>, b: Seq<char>)
    requires
        p != q,
    ensures
        key_bytes(spec_dirent_key(p, a)) != key_bytes(spec_dirent_key(q, b)),
{
    let da = decimal(p as nat);
    let db = decimal(q as nat);
    lemma_decimal_digits(p as nat);
    lemma_decimal_digits(q as nat);
    let ka = spec_dirent_key(p, a);
    let kb = spec_dirent_key(q, b);
    assert(prefix_dirent().len() == 7);
    if da.len() == db.len() {
        if forall|i: int| 0 <= i < da.len() ==> da[i] == db[i] {
            assert(da =~= db);
            lemma_decimal_injective(p as nat, q as nat);
        }
        let i = choose|i: int| 0 <= i < da.len() && da[i] != db[i];
        assert(ka[7 + i] == da[i]);
        assert(kb[7 + i] == db[i]);
        lemma_key_differs(ka, kb, 7 + i);
    } else if da.len() < db.len() {
        let i: int = 7 + da.len() as int;
        assert(ka[i] == ':');
        assert(kb[i] == db[da.len() as int]);
        lemma_key_differs(ka, kb, i);
    } else {
        let i: int = 7 + db.len() as int;
        assert(kb[i] == ':');
        assert(ka[i] == da[db.len() as int]);
        lemma_key_differs(ka, kb, i);
    }
}

/// No inode-record key starts with the snapshot-record prefix.
pub proof fn lemma_inode_key_not_snapshot(id: u64)
    ensures
        !is_prefix(key_bytes(prefix_snapshot()), key_bytes(spec_inode_key(id))),
{
    lemma_encode_concat(prefix_inode(), decimal(id as nat));
    let pi = prefix_inode();
    let ps = prefix_snapshot();
    assert(encode_utf8(pi) == encode_scalar(pi[0] as u32) + encode_utf8(pi.drop_first()));
    assert(encode_utf8(ps) == encode_scalar(ps[0] as u32) + encode_utf8(ps.drop_first()));
    assert(pi[0] as u32 == 0x69u32);
    assert(ps[0] as u32 == 0x73u32);
    assert((0x69u32 & 0x7Fu32) as u8 == 0x69u8) by (bit_vector);
    assert((0x73u32 & 0x7Fu32) as u8 == 0x73u8) by (bit_vector);
    assert(encode_scalar(pi[0] as u32) == seq![0x69u8]);
    assert(encode_scalar(ps[0] as u32) == seq![0x73u8]);
    assert(encode_utf8(pi)[0] == 0x69u8);
    assert(encode_utf8(ps)[0] == 0x73u8);
    let k = key_bytes(spec_inode_key(id));
    let p = key_bytes(prefix_snapshot());
    assert(k[0] == 0x69u8);
    if is_prefix(p, k) {
        assert(k.subrange(0, p.len() as int)[0] == k[0]);
    }
}

/// A store that differs from another at most in a snapshot record has the
/// same directory entries and inode records.
pub proof fn lemma_snapshot_key_apart(m0: Map<Seq<u8>, Seq<u8>>, m1: Map<Seq<u8>, Seq<u8>>, name: Seq<char>)
    requires
        same_except(m0, m1, key_bytes(spec_snapshot_key(name))),
    ensures
        forall|p: u64, n: Seq<char>| #[trigger] dirent_child(m1, p, n) == dirent_child(m0, p, n),
        forall|t: u64| #[trigger] inode_record(m1, t) == inode_record(m0, t),
{
    assert forall|p: u64, n: Seq<char>| #[trigger] dirent_child(m1, p, n) == dirent_child(m0, p, n) by {
        lemma_key_differs(spec_snapshot_key(name), spec_dirent_key(p, n), 0);
        let k = key_bytes(spec_dirent_key(p, n));
        assert(m1.contains_key(k) == m0.contains_key(k));
    }
    assert forall|t: u64| #[trigger] inode_record(m1, t) == inode_record(m0, t) by {
        lemma_key_differs(spec_snapshot_key(name), spec_inode_key(t), 0);
        let k = key_bytes(spec_inode_key(t));
        assert(m1.contains_key(k) == m0.contains_key(k));
    }
}

/// A tag-record key is never an index key.
pub proof fn lemma_tags_index_keys_differ(id: u64, t: Seq<char>)
    ensures
        key_bytes(spec_tags_key(id)) != key_bytes(spec_tag_index_key(t)),
{
    lemma_key_differs(spec_tags_key(id), spec_tag_index_key(t), 0);
}

// ---------------------------------------------------------------------------
// The tag model
// ---------------------------------------------------------------------------

/// The tags stored for inode `id`: none when there is no record, `None`
/// when the record does not decode.
pub open spec fn tags_of(m: Map<Seq<u8>, Seq<u8>>, id: u64) -> Option<Seq<Seq<char>>> {
    let k = key_bytes(spec_tags_key(id));
    if !m.contains_key(k) {
        Some(Seq::empty())
    } else {
        match bincode_decode_tag_set(m[k]) {
            Some(r) => Some(r.2),
            None => None,
        }
    }
}

/// The inodes the index lists under `tag`: none when there is no entry,
/// `None` when the entry does not decode.
pub open spec fn index_of(m: Map<Seq<u8>, Seq<u8>>, tag: Seq<char>) -> Option<Set<u64>> {
    let k = key_bytes(spec_tag_index_key(tag));
    if !m.contains_key(k) {
        Some(Set::empty())
    } else {
        match bincode_decode_ids(m[k]) {
            Some(v) => Some(v.to_set()),
            None => None,
        }
    }
}

/// The index entry of `tag` is stored only where it lists some inode.
pub open spec fn index_tidy_at(m: Map<Seq<u8>, Seq<u8>>, tag: Seq<char>) -> bool {
    m.contains_key(key_bytes(spec_tag_index_key(tag))) ==> index_of(m, tag) != Some(Set::<u64>::empty())
}

/// No index entry is stored that lists no inode.
pub open spec fn index_tidy(m: Map<Seq<u8>, Seq<u8>>) -> bool {
    forall|t: Seq<char>| #[trigger] index_tidy_at(m, t)
}

/// Where the index key of `tag` holds what it held, so does its tidiness.
proof fn lemma_tidy_frame(m0: Map<Seq<u8>, Seq<u8>>, m1: Map<Seq<u8>, Seq<u8>>, tag: Seq<char>)
    requires
        m1.contains_key(key_bytes(spec_tag_index_key(tag))) == m0.contains_key(key_bytes(spec_tag_index_key(tag))),
        m1[key_bytes(spec_tag_index_key(tag))] == m0[key_bytes(spec_tag_index_key(tag))],
    ensures
        index_tidy_at(m1, tag) == index_tidy_at(m0, tag),
        index_of(m1, tag) == index_of(m0, tag),
{
}

/// The tag records and the tag index agree: every record and index entry
/// decodes, and an inode is listed under a tag exactly when the tag is one
/// of its tags.
pub open spec fn tags_consistent(m: Map<Seq<u8>, Seq<u8>>) -> bool {
    &&& forall|id: u64| #[trigger] tags_of(m, id) is Some
    &&& forall|t: Seq<char>| #[trigger] index_of(m, t) is Some
    &&& forall|id: u64, t: Seq<char>|
        #![trigger tags_of(m, id), index_of(m, t)]
        tags_of(m, id).unwrap().contains(t) <==> index_of(m, t).unwrap().contains(id)
}

/// The keys that a change of inode `id`'s tags from `old_tags` to
/// `new_tags` may write.
pub open spec fn tag_update_key(k: Seq<u8>, id: u64, new_tags: Seq<Seq<char>>, old_tags: Seq<Seq<char>>) -> bool {
    k == key_bytes(spec_tags_key(id)) || exists|t: Seq<char>|
        (new_tags.contains(t) || old_tags.contains(t)) && k == key_bytes(
            #[trigger] spec_tag_index_key(t),
        )
}

/// The store holds no directory entry `name` of `parent`, and inode `id`
/// has no tags.
pub open spec fn entry_forgotten(m: Map<Seq<u8>, Seq<u8>>, parent: u64, name: Seq<char>, id: u64) -> bool {
    &&& dirent_child(m, parent, name) == Some(None::<u64>)
    &&& tags_of(m, id) == Some(Seq::<Seq<char>>::empty())
}

/// A directory-entry key is never a key that a tag change writes.
pub proof fn lemma_dirent_not_tag_key(parent: u64, name: Seq<char>, id: u64, a: Seq<Seq<char>>, b: Seq<Seq<char>>)
    ensures
        !tag_update_key(key_bytes(spec_dirent_key(parent, name)), id, a, b),
{
    let k = key_bytes(spec_dirent_key(parent, name));
    lemma_key_differs(spec_dirent_key(parent, name), spec_tags_key(id), 0);
    assert forall|t: Seq<char>| #[trigger] spec_tag_index_key(t) == spec_tag_index_key(t) implies k != key_bytes(
        spec_tag_index_key(t),
    ) by {
        lemma_key_differs(spec_dirent_key(parent, name), spec_tag_index_key(t), 0);
    }
}

/// An inode record as plain values.
pub open spec fn inode_tuple(x: InodeMetadata) -> (u64, u64, Seq<char>, bool, u64) {
    (x.id, x.parent_id, x.name@, x.is_dir, x.attr.size)
}

/// The inode record stored for `id`: `Some(None)` when there is none,
/// `None` when it does not decode.
pub open spec fn inode_record(m: Map<Seq<u8>, Seq<u8>>, id: u64) -> Option<Option<(u64, u64, Seq<char>, bool, u64)>> {
    let k = key_bytes(spec_inode_key(id));
    if !m.contains_key(k) {
        Some(None)
    } else {
        match bincode_decode_inode(m[k]) {
            Some(t) => Some(Some(t)),
            None => None,
        }
    }
}

/// A recipe as plain values, its kind as the variant index.
pub open spec fn recipe_tuple(r: FileRecipe) -> (u64, Seq<Seq<char>>, u32) {
    (r.file_size, r.chunks.deep_view(), kind_index(r.kind))
}

/// The recipe stored for inode `id`: `Some(None)` when there is none,
/// `None` when it does not decode or names no kind.
pub open spec fn recipe_record(m: Map<Seq<u8>, Seq<u8>>, id: u64) -> Option<Option<(u64, Seq<Seq<char>>, u32)>> {
    let k = key_bytes(spec_recipe_key(id));
    if !m.contains_key(k) {
        Some(None)
    } else {
        match bincode_decode_recipe(m[k]) {
            Some(t) => if t.2 <= 1 {
                Some(Some(t))
            } else {
                None
            },
            None => None,
        }
    }
}

/// A snapshot record as plain values.
pub open spec fn snapshot_tuple(x: SnapshotMetadata) -> (Seq<char>, u64, u64) {
    (x.name@, x.timestamp, x.root_id)
}

/// Some key with prefix `p` holds a value that decodes to the snapshot `s`.
pub open spec fn snapshot_stored(m: Map<Seq<u8>, Seq<u8>>, s: (Seq<char>, u64, u64)) -> bool {
    exists|k: Seq<u8>|
        #[trigger] m.contains_key(k) && is_prefix(key_bytes(prefix_snapshot()), k)
            && bincode_decode_snapshot(m[k]) == Some(s)
}

/// Some key with the inode prefix holds a value that decodes to `x`.
pub open spec fn inode_stored(m: Map<Seq<u8>, Seq<u8>>, x: (u64, u64, Seq<char>, bool, u64)) -> bool {
    exists|k: Seq<u8>|
        #[trigger] m.contains_key(k) && is_prefix(key_bytes(prefix_inode()), k)
            && bincode_decode_inode(m[k]) == Some(x)
}

/// The inode that the legacy name `name` refers to: `Some(None)` when
/// there is no entry, `None` when it does not decode.
pub open spec fn legacy_record(m: Map<Seq<u8>, Seq<u8>>, name: Seq<char>) -> Option<Option<u64>> {
    let k = key_bytes(spec_legacy_key(name));
    if !m.contains_key(k) {
        Some(None)
    } else {
        match bincode_decode_u64(m[k]) {
            Some(c) => Some(Some(c)),
            None => None,
        }
    }
}

/// The first legacy inode id handed out.
pub open spec fn first_legacy_ino() -> u64 {
    1_000_000
}

/// The next legacy inode id: the stored counter, or the first id when
/// there is none; `None` when the counter does not decode.
pub open spec fn counter_value(m: Map<Seq<u8>, Seq<u8>>) -> Option<u64> {
    let k = key_bytes(counter_key());
    if !m.contains_key(k) {
        Some(first_legacy_ino())
    } else {
        bincode_decode_u64(m[k])
    }
}

/// Some key with the recipe prefix holds a recipe that lists chunk `c`.
pub open spec fn chunk_in_use(m: Map<Seq<u8>, Seq<u8>>, c: Seq<char>) -> bool {
    exists|k: Seq<u8>|
        #[trigger] m.contains_key(k) && is_prefix(key_bytes(prefix_recipe()), k) && (
        bincode_decode_recipe(m[k]) matches Some(t) && t.2 <= 1 && t.1.contains(c))
}

/// How a stored record shows up when the database is inspected: its key as
/// text, and the recipe it holds when its value reads as one.
pub open spec fn record_shown(m: Map<Seq<u8>, Seq<u8>>, key_text: Seq<char>, recipe: Option<(u64, Seq<Seq<char>>, u32)>) -> bool {
    exists|k: Seq<u8>|
        #[trigger] m.contains_key(k) && utf8_lossy(k) == key_text && match recipe {
            Some(t) => bincode_decode_recipe(m[k]) == Some(t) && t.2 <= 1,
            None => !(bincode_decode_recipe(m[k]) matches Some(t) && t.2 <= 1),
        }
}

/// The names of directory entries.
pub open spec fn dirent_names(v: Seq<Dirent>) -> Seq<Seq<char>> {
    v.map_values(|d: Dirent| d.name@)
}

/// The names of scanned entries.
pub open spec fn entry_names(v: Seq<(String, Vec<u8>)>) -> Seq<Seq<char>> {
    v.map_values(|p: (String, Vec<u8>)| p.0@)
}

/// `k` is the index key of one of `tags`.
pub open spec fn index_key_of_any(k: Seq<u8>, tags: Seq<Seq<char>>) -> bool {
    exists|t: Seq<char>| tags.contains(t) && k == key_bytes(#[trigger] spec_tag_index_key(t))
}

/// `m1` is `m0` after inode `id`'s tags changed from `old_tags` to
/// `new_tags`: the record holds the new tags, the inode is listed under
/// each new tag and no longer under an old tag that is not new, and nothing
/// else changed.
pub open spec fn tags_updated(
    m0: Map<Seq<u8>, Seq<u8>>,
    m1: Map<Seq<u8>, Seq<u8>>,
    id: u64,
    new_tags: Seq<Seq<char>>,
    old_tags: Seq<Seq<char>>,
) -> bool {
    &&& tags_of(m1, id) == Some(new_tags)
    &&& forall|o: u64| o != id ==> #[trigger] tags_of(m1, o) == tags_of(m0, o)
    &&& forall|t: Seq<char>|
        (new_tags.contains(t) || old_tags.contains(t)) ==> #[trigger] index_of(m0, t) is Some
    &&& forall|t: Seq<char>| #[trigger]
        index_of(m1, t) == if new_tags.contains(t) {
            Some(index_of(m0, t).unwrap().insert(id))
        } else if old_tags.contains(t) {
            Some(index_of(m0, t).unwrap().remove(id))
        } else {
            index_of(m0, t)
        }
    &&& forall|k: Seq<u8>|
        !tag_update_key(k, id, new_tags, old_tags) ==> (#[trigger] m1.contains_key(k)
            == m0.contains_key(k) && m1[k] == m0[k])
}

/// Writing an index entry changes no tag record and no other index entry.
pub proof fn lemma_index_write(m: Map<Seq<u8>, Seq<u8>>, t0: Seq<char>, m2: Map<Seq<u8>, Seq<u8>>)
    requires
        forall|k: Seq<u8>|
            k != key_bytes(spec_tag_index_key(t0)) ==> (#[trigger] m2.contains_key(k)
                == m.contains_key(k) && m2[k] == m[k]),
    ensures
        forall|t: Seq<char>| t != t0 ==> #[trigger] index_of(m2, t) == index_of(m, t),
        forall|id: u64| #[trigger] tags_of(m2, id) == tags_of(m, id),
{
    assert forall|t: Seq<char>| t != t0 implies #[trigger] index_of(m2, t) == index_of(m, t) by {
        if key_bytes(spec_tag_index_key(t)) == key_bytes(spec_tag_index_key(t0)) {
            lemma_index_key_injective(t, t0);
        }
    }
    assert forall|id: u64| #[trigger] tags_of(m2, id) == tags_of(m, id) by {
        lemma_tags_index_keys_differ(id, t0);
    }
}

/// Writing a tag record changes no other record and no index entry.
pub proof fn lemma_tags_write(m: Map<Seq<u8>, Seq<u8>>, id0: u64, m2: Map<Seq<u8>, Seq<u8>>)
    requires
        forall|k: Seq<u8>|
            k != key_bytes(spec_tags_key(id0)) ==> (#[trigger] m2.contains_key(k)
                == m.contains_key(k) && m2[k] == m[k]),
    ensures
        forall|t: Seq<char>| #[trigger] index_of(m2, t) == index_of(m, t),
        forall|id: u64| id != id0 ==> #[trigger] tags_of(m2, id) == tags_of(m, id),
{
    assert forall|t: Seq<char>| #[trigger] index_of(m2, t) == index_of(m, t) by {
        lemma_tags_index_keys_differ(id0, t);
    }
    assert forall|id: u64| id != id0 implies #[trigger] tags_of(m2, id) == tags_of(m, id) by {
        if key_bytes(spec_tags_key(id)) == key_bytes(spec_tags_key(id0)) {
            lemma_tags_key_injective(id, id0);
        }
    }
}

/// A tag change keeps the tag records and the index in agreement.
pub proof fn lemma_tag_update_keeps_consistency(
    m0: Map<Seq<u8>, Seq<u8>>,
    m1: Map<Seq<u8>, Seq<u8>>,
    id: u64,
    new_tags: Seq<Seq<char>>,
    old_tags: Seq<Seq<char>>,
)
    requires
        tags_consistent(m0),
        tags_of(m0, id) == Some(old_tags),
        tags_updated(m0, m1, id, new_tags, old_tags),
    ensures
        tags_consistent(m1),
{
    assert forall|o: u64| #[trigger] tags_of(m1, o) is Some by {
        if o != id {
            assert(tags_of(m0, o) is Some);
        }
    }
    assert forall|t: Seq<char>| #[trigger] index_of(m1, t) is Some by {
        assert(index_of(m0, t) is Some);
    }
    assert forall|o: u64, t: Seq<char>|
        #![trigger tags_of(m1, o), index_of(m1, t)]
        tags_of(m1, o).unwrap().contains(t) <==> index_of(m1, t).unwrap().contains(o) by {
        assert(tags_of(m0, o) is Some);
        assert(index_of(m0, t) is Some);
        assert(tags_of(m0, o).unwrap().contains(t) <==> index_of(m0, t).unwrap().contains(o));
    }
}

/// Tags that were set are read back: afterwards the inode's tags are the
/// canonical list (trimmed, lower-cased, without empty ones or duplicates,
/// ascending) of those given, the index lists it under exactly those tags,
/// and a consistent store stays consistent.
pub proof fn lemma_set_tags_read_back(
    m0: Map<Seq<u8>, Seq<u8>>,
    m1: Map<Seq<u8>, Seq<u8>>,
    id: u64,
    tags: Seq<Seq<char>>,
)
    requires
        tags_consistent(m0),
        tags_set_to(m0, m1, id, tags),
    ensures
        tags_of(m1, id) == Some(canonical_of(tags)),
        tags_consistent(m1),
        forall|t: Seq<char>|
            #[trigger] index_of(m1, t).unwrap().contains(id) <==> normal_tag_set(tags).contains(t),
{
    let n = tags_of(m1, id).unwrap();
    lemma_canonical_of(tags, n);
    lemma_tag_update_keeps_consistency(m0, m1, id, n, tags_of(m0, id).unwrap());
    assert forall|t: Seq<char>|
        #[trigger] index_of(m1, t).unwrap().contains(id) <==> normal_tag_set(tags).contains(t) by {
        assert(tags_of(m1, id).unwrap().contains(t) <==> index_of(m1, t).unwrap().contains(id));
        assert(n.to_set().contains(t) <==> n.contains(t));
    }
}

/// What is left after taking every `x` out of a list is what the list
/// holds other than `x`.
proof fn lemma_remove_all_contains(s: Seq<Seq<char>>, x: Seq<char>, y: Seq<char>)
    ensures
        remove_all(s, x).contains(y) <==> (s.contains(y) && y != x),
    decreases s.len(),
{
    if s.len() > 0 {
        lemma_remove_all_contains(s.drop_last(), x, y);
        let r = remove_all(s.drop_last(), x);
        if s.contains(y) && y != x {
            let j = choose|j: int| 0 <= j < s.len() && s[j] == y;
            if j < s.len() - 1 {
                assert(s.drop_last()[j] == y);
            }
        }
        if s.last() != x {
            if r.push(s.last()).contains(y) {
                let j = choose|j: int| 0 <= j < r.push(s.last()).len() && r.push(s.last())[j] == y;
                if j < r.len() {
                    assert(r[j] == y);
                }
            }
            if r.contains(y) {
                let j = choose|j: int| 0 <= j < r.len() && r[j] == y;
                assert(r.push(s.last())[j] == y);
            }
            if y == s.last() {
                assert(r.push(s.last())[r.len() as int] == y);
            }
        }
        if s.drop_last().contains(y) {
            let j = choose|j: int| 0 <= j < s.drop_last().len() && s.drop_last()[j] == y;
            assert(s[j] == y);
        }
    }
}

/// Removing a tag just added undoes the adding: when a file's tags are
/// in their normal form, sorted, and lack `tag` (whose normal form is its
/// own normal form again), adding `tag` (the store going from `m0` to
/// `m1`) and then removing it (to `m2`) gives the file back the tags it
/// had, and the tag's index no longer lists it.
pub proof fn lemma_remove_undoes_add(m0: Map<Seq<u8>, Seq<u8>>, m1: Map<Seq<u8>, Seq<u8>>, m2: Map<Seq<u8>, Seq<u8>>, id: u64, tag: Seq<char>)
    requires
        tags_of(m0, id) is Some,
        sorted_texts(tags_of(m0, id).unwrap()),
        forall|i: int|
            0 <= i < tags_of(m0, id).unwrap().len() ==> #[trigger] normal_tag(tags_of(m0, id).unwrap()[i]) == tags_of(
                m0,
                id,
            ).unwrap()[i] && tags_of(m0, id).unwrap()[i].len() > 0,
        normal_tag(tag).len() > 0,
        normal_tag(normal_tag(tag)) == normal_tag(tag),
        !tags_of(m0, id).unwrap().contains(normal_tag(tag)),
        tags_set_to(m0, m1, id, tags_of(m0, id).unwrap().push(normal_tag(tag))),
        tags_set_to(m1, m2, id, remove_all(tags_of(m1, id).unwrap(), normal_tag(tag))),
    ensures
        tags_of(m2, id) == tags_of(m0, id),
        index_of(m2, normal_tag(tag)) matches Some(ix) && !ix.contains(id),
{
    let old = tags_of(m0, id).unwrap();
    let u = normal_tag(tag);
    let n1 = tags_of(m1, id).unwrap();
    let n2 = tags_of(m2, id).unwrap();
    let added = old.push(u);
    assert(normal_tag_set(added) =~= old.to_set().insert(u)) by {
        assert forall|x: Seq<char>| normal_tag_set(added).contains(x) implies old.to_set().insert(u).contains(x) by {
            let i = choose|i: int| 0 <= i < added.len() && normal_tag(added[i]) == x;
            if i < old.len() {
                assert(added[i] == old[i]);
                assert(normal_tag(old[i]) == old[i]);
            }
        }
        assert forall|x: Seq<char>| old.to_set().insert(u).contains(x) implies normal_tag_set(added).contains(x) by {
            if x == u {
                assert(normal_tag(added[old.len() as int]) == x);
            } else {
                let i = choose|i: int| 0 <= i < old.len() && old[i] == x;
                assert(added[i] == old[i]);
                assert(normal_tag(old[i]) == old[i]);
            }
        }
    }
    let kept = remove_all(n1, u);
    assert(normal_tag_set(kept) =~= old.to_set()) by {
        assert forall|x: Seq<char>| normal_tag_set(kept).contains(x) implies old.to_set().contains(x) by {
            let i = choose|i: int| 0 <= i < kept.len() && normal_tag(kept[i]) == x;
            assert(kept.contains(kept[i]));
            lemma_remove_all_contains(n1, u, kept[i]);
            assert(n1.to_set().contains(kept[i]));
            assert(old.contains(kept[i]));
            let j = choose|j: int| 0 <= j < old.len() && old[j] == kept[i];
            assert(normal_tag(old[j]) == old[j]);
        }
        assert forall|x: Seq<char>| old.to_set().contains(x) implies normal_tag_set(kept).contains(x) by {
            let j = choose|j: int| 0 <= j < old.len() && old[j] == x;
            assert(normal_tag(old[j]) == old[j]);
            assert(n1.to_set().contains(x));
            lemma_remove_all_contains(n1, u, x);
            let i = choose|i: int| 0 <= i < kept.len() && kept[i] == x;
            assert(normal_tag(kept[i]) == x);
        }
    }
    lemma_sorted_texts_same_set(n2, old);
    assert(n1.to_set().contains(u));
    assert(n1.contains(u));
    assert(!n2.contains(u));
}

/// Deleted tags are gone: afterwards the inode has no tag, the index lists
/// it under none, and a consistent store stays consistent.
pub proof fn lemma_delete_tags_read_back(m0: Map<Seq<u8>, Seq<u8>>, m1: Map<Seq<u8>, Seq<u8>>, id: u64)
    requires
        tags_consistent(m0),
        tags_updated(m0, m1, id, Seq::empty(), tags_of(m0, id).unwrap()),
    ensures
        tags_of(m1, id) == Some(Seq::<Seq<char>>::empty()),
        tags_consistent(m1),
        forall|t: Seq<char>| !(#[trigger] index_of(m1, t).unwrap().contains(id)),
{
    lemma_tag_update_keeps_consistency(m0, m1, id, Seq::empty(), tags_of(m0, id).unwrap());
    assert forall|t: Seq<char>| !(#[trigger] index_of(m1, t).unwrap().contains(id)) by {
        assert(tags_of(m1, id).unwrap().contains(t) <==> index_of(m1, t).unwrap().contains(id));
    }
}

/// Inode `id` is listed under every tag of the non-empty set `tags`.
pub open spec fn listed_under_all(m: Map<Seq<u8>, Seq<u8>>, tags: Set<Seq<char>>, id: u64) -> bool {
    &&& tags != Set::<Seq<char>>::empty()
    &&& forall|t: Seq<char>|
        tags.contains(t) ==> #[trigger] index_of(m, t) is Some && index_of(m, t).unwrap().contains(id)
}

/// Tag `t` is a next-level tag below the non-empty set `tags`: it is not
/// one of them, and some inode listed under all of them has it.
pub open spec fn next_level_tag(m: Map<Seq<u8>, Seq<u8>>, tags: Set<Seq<char>>, t: Seq<char>) -> bool {
    &&& !tags.contains(t)
    &&& exists|id: u64|
        listed_under_all(m, tags, id) && #[trigger] tags_of(m, id) is Some && tags_of(
            m,
            id,
        ).unwrap().contains(t)
}

/// Tag `t` is not among `tags` and one of the inodes `ids` has it.
pub open spec fn tags_among(m: Map<Seq<u8>, Seq<u8>>, tags: Set<Seq<char>>, ids: Seq<u64>, t: Seq<char>) -> bool {
    &&& !tags.contains(t)
    &&& exists|j: int| 0 <= j < ids.len() && #[trigger] tags_of(m, ids[j]) is Some && tags_of(m, ids[j]).unwrap().contains(t)
}

/// Among exactly the inodes listed under all of `tags`, the tags found are
/// the next-level tags.
pub proof fn lemma_tags_among_exact(m: Map<Seq<u8>, Seq<u8>>, tags: Set<Seq<char>>, ids: Seq<u64>)
    requires
        tags != Set::<Seq<char>>::empty(),
        forall|id: u64| #[trigger] ids.contains(id) <==> listed_under_all(m, tags, id),
    ensures
        forall|t: Seq<char>| #[trigger] tags_among(m, tags, ids, t) <==> next_level_tag(m, tags, t),
{
    assert forall|t: Seq<char>| #[trigger] tags_among(m, tags, ids, t) <==> next_level_tag(m, tags, t) by {
        if tags_among(m, tags, ids, t) {
            let j = choose|j: int| 0 <= j < ids.len() && #[trigger] tags_of(m, ids[j]) is Some && tags_of(m, ids[j]).unwrap().contains(t);
            assert(ids.contains(ids[j]));
        }
        if next_level_tag(m, tags, t) {
            let id = choose|id: u64|
                listed_under_all(m, tags, id) && #[trigger] tags_of(m, id) is Some && tags_of(m, id).unwrap().contains(t);
            assert(ids.contains(id));
            let j = choose|j: int| 0 <= j < ids.len() && ids[j] == id;
            assert(tags_of(m, ids[j]) is Some);
        }
    }
}

/// The inode a directory entry names: `Some(None)` when there is no entry,
/// `None` when the entry does not decode.
pub open spec fn dirent_child(m: Map<Seq<u8>, Seq<u8>>, parent: u64, name: Seq<char>) -> Option<Option<u64>> {
    let k = key_bytes(spec_dirent_key(parent, name));
    if !m.contains_key(k) {
        Some(None)
    } else {
        match bincode_decode_u64(m[k]) {
            Some(c) => Some(Some(c)),
            None => None,
        }
    }
}

/// Walks the directory entries from inode `cur` along `parts`: the inode
/// reached, `Some(None)` when a component is missing, `None` when an entry
/// on the way does not decode.
pub open spec fn spec_resolve(m: Map<Seq<u8>, Seq<u8>>, cur: u64, parts: Seq<Seq<char>>) -> Option<Option<u64>>
    decreases parts.len(),
{
    if parts.len() == 0 {
        Some(Some(cur))
    } else {
        match dirent_child(m, cur, parts[0]) {
            Some(Some(c)) => spec_resolve(m, c, parts.drop_first()),
            Some(None) => Some(None),
            None => None,
        }
    }
}

/// The inode that `path` names, walking from the root inode 1.
pub open spec fn spec_resolve_path(m: Map<Seq<u8>, Seq<u8>>, path: Seq<char>) -> Option<Option<u64>> {
    spec_resolve(m, 1, path_components(path))
}

/// The name a path gives its file: its last non-empty component, or the
/// whole path when it has none.
pub open spec fn path_file_name(path: Seq<char>) -> Seq<char> {
    let parts = path_components(path);
    if parts.len() > 0 {
        parts.last()
    } else {
        path
    }
}

/// The outcome of a tag change that succeeded: the record now holds a
/// canonical list of the normal forms of `tags`, and the index followed.
pub open spec fn tags_set_to(
    m0: Map<Seq<u8>, Seq<u8>>,
    m1: Map<Seq<u8>, Seq<u8>>,
    id: u64,
    tags: Seq<Seq<char>>,
) -> bool {
    &&& tags_of(m0, id) is Some
    &&& tags_of(m1, id) matches Some(n) && canonical_tags(n, normal_tag_set(tags)) && tags_updated(
        m0,
        m1,
        id,
        n,
        tags_of(m0, id).unwrap(),
    )
}

// ---------------------------------------------------------------------------
// The manager
// ---------------------------------------------------------------------------

/// The directory of the metadata database inside the storage directory
/// (`Path::join` with `metadata_db`).
pub open spec fn spec_db_path(storage_path: Seq<char>) -> Seq<char> {
    let leaf = seq!['m', 'e', 't', 'a', 'd', 'a', 't', 'a', '_', 'd', 'b'];
    if storage_path.len() == 0 {
        leaf
    } else if storage_path.last() == '/' {
        storage_path + leaf
    } else {
        storage_path + seq!['/'] + leaf
    }
}

/// The path of the metadata database inside `storage_path`.
pub fn metadata_db_path(storage_path: &str) -> (p: String)
    ensures
        p@ == spec_db_path(storage_path@),
{
    let cs = chars_of(storage_path);
    let mut p = String::from_str(storage_path);
    if cs.len() > 0 && cs[cs.len() - 1] != '/' {
        string_push(&mut p, '/');
    }
    let leaf = string_of("metadata_db");
    proof {
        reveal_strlit("metadata_db");
    }
    p.append(leaf.as_str());
    p
}

/// An error text of the store. Each begins with a letter other than `S`,
/// so that none reads as a message about a snapshot.
pub open spec fn store_error_text(e: Seq<char>) -> bool {
    e.len() > 0 && e[0] != 'S'
}

/// What a scan read, item by item: `None` for an item that is an error.
pub open spec fn scan_view(items: Seq<Result<(Vec<u8>, Vec<u8>), sled::Error>>) -> Seq<Option<(Seq<u8>, Seq<u8>)>> {
    items.map_values(
        |it: Result<(Vec<u8>, Vec<u8>), sled::Error>|
            match it {
                Ok(kv) => Some((kv.0@, kv.1@)),
                Err(_) => None::<(Seq<u8>, Seq<u8>)>,
            },
    )
}

/// The inode records that the values read decode to, in the order read;
/// errors and values that do not decode are passed over.
pub open spec fn decoded_inodes(v: Seq<Option<(Seq<u8>, Seq<u8>)>>) -> Seq<(u64, u64, Seq<char>, bool, u64)>
    decreases v.len(),
{
    if v.len() == 0 {
        Seq::empty()
    } else {
        let rest = decoded_inodes(v.drop_last());
        match v.last() {
            Some(kv) => match bincode_decode_inode(kv.1) {
                Some(t) => rest.push(t),
                None => rest,
            },
            None => rest,
        }
    }
}

/// The snapshot records that the values read decode to, in the order
/// read; errors and values that do not decode are passed over.
pub open spec fn decoded_snapshots(v: Seq<Option<(Seq<u8>, Seq<u8>)>>) -> Seq<(Seq<char>, u64, u64)>
    decreases v.len(),
{
    if v.len() == 0 {
        Seq::empty()
    } else {
        let rest = decoded_snapshots(v.drop_last());
        match v.last() {
            Some(kv) => match bincode_decode_snapshot(kv.1) {
                Some(t) => rest.push(t),
                None => rest,
            },
            None => rest,
        }
    }
}

/// A value read decodes to the inode record `t`.
pub open spec fn inode_read_as(o: Option<(Seq<u8>, Seq<u8>)>, t: (u64, u64, Seq<char>, bool, u64)) -> bool {
    o matches Some(kv) && bincode_decode_inode(kv.1) == Some(t)
}

/// A value read decodes to the snapshot record `t`.
pub open spec fn snapshot_read_as(o: Option<(Seq<u8>, Seq<u8>)>, t: (Seq<char>, u64, u64)) -> bool {
    o matches Some(kv) && bincode_decode_snapshot(kv.1) == Some(t)
}

/// A value read that decodes to a snapshot record is among the decoded
/// records.
proof fn lemma_decoded_snapshot_to(v: Seq<Option<(Seq<u8>, Seq<u8>)>>, a: int, t: (Seq<char>, u64, u64))
    requires
        0 <= a < v.len(),
        snapshot_read_as(v[a], t),
    ensures
        decoded_snapshots(v).contains(t),
    decreases v.len(),
{
    let rest = decoded_snapshots(v.drop_last());
    if a < v.len() - 1 {
        assert(v.drop_last()[a] == v[a]);
        lemma_decoded_snapshot_to(v.drop_last(), a, t);
        let j = choose|j: int| 0 <= j < rest.len() && rest[j] == t;
        match v.last() {
            Some(kv) => match bincode_decode_snapshot(kv.1) {
                Some(x) => {
                    assert(decoded_snapshots(v) == rest.push(x));
                    assert(decoded_snapshots(v)[j] == t);
                },
                None => {},
            },
            None => {},
        }
    } else {
        assert(v.last() == v[a]);
        assert(decoded_snapshots(v) == rest.push(t));
        assert(decoded_snapshots(v)[rest.len() as int] == t);
    }
}

/// Each decoded inode record comes from a value read.
proof fn lemma_decoded_inode_from(v: Seq<Option<(Seq<u8>, Seq<u8>)>>, t: (u64, u64, Seq<char>, bool, u64))
    requires
        decoded_inodes(v).contains(t),
    ensures
        exists|j: int| 0 <= j < v.len() && inode_read_as(#[trigger] v[j], t),
    decreases v.len(),
{
    let rest = decoded_inodes(v.drop_last());
    if rest.contains(t) {
        lemma_decoded_inode_from(v.drop_last(), t);
        let j = choose|j: int| 0 <= j < v.drop_last().len() && inode_read_as(#[trigger] v.drop_last()[j], t);
        assert(v[j] == v.drop_last()[j]);
    } else {
        assert(v[v.len() - 1] == v.last());
    }
}

/// Each decoded snapshot record comes from a value read.
proof fn lemma_decoded_snapshot_from(v: Seq<Option<(Seq<u8>, Seq<u8>)>>, t: (Seq<char>, u64, u64))
    requires
        decoded_snapshots(v).contains(t),
    ensures
        exists|j: int| 0 <= j < v.len() && snapshot_read_as(#[trigger] v[j], t),
    decreases v.len(),
{
    let rest = decoded_snapshots(v.drop_last());
    if rest.contains(t) {
        lemma_decoded_snapshot_from(v.drop_last(), t);
        let j = choose|j: int| 0 <= j < v.drop_last().len() && snapshot_read_as(#[trigger] v.drop_last()[j], t);
        assert(v[j] == v.drop_last()[j]);
    } else {
        assert(v[v.len() - 1] == v.last());
    }
}

/// The error text for a failed database call: `Database error: ` and then
/// the error's own text, which the contract leaves unsaid (`sled` writes it).
fn db_error(e: &sled::Error) -> (r: String)
    ensures
        text_starts_with(r@, "Database error: "@),
        store_error_text(r@),
{
    let t = sled_error_text(e);
    let r = message("Database error: ", t.as_str());
    proof {
        reveal_strlit("Database error: ");
        assert(r@.take("Database error: "@.len() as int) =~= "Database error: "@);
    }
    r
}

/// The error text for a failed flush: `Flush error: ` and then the
/// error's own text, which the contract leaves unsaid (`sled` writes it).
fn flush_error(e: &sled::Error) -> (r: String)
    ensures
        text_starts_with(r@, "Flush error: "@),
        store_error_text(r@),
{
    let t = sled_error_text(e);
    let r = message("Flush error: ", t.as_str());
    proof {
        reveal_strlit("Flush error: ");
        assert(r@.take("Flush error: "@.len() as int) =~= "Flush error: "@);
    }
    r
}

/// The metadata store.
pub struct FileManager {
    db: sled::Db,
}

impl View for FileManager {
    type V = Map<Seq<u8>, Seq<u8>>;

    /// The key/value pairs in the database.
    closed spec fn view(&self) -> Map<Seq<u8>, Seq<u8>> {
        db_contents(self.db)
    }
}

impl FileManager {
    /// Opens the metadata database under `storage_path`; what it holds is
    /// what an earlier run left there.
    pub fn new(storage_path: &str) -> (r: Result<FileManager, String>) {
        let path = metadata_db_path(storage_path);
        match sled_open(path.as_str()) {
            Ok(db) => Ok(FileManager { db }),
            Err(e) => {
                let t = sled_error_text(&e);
                Err(message("Failed to open metadata database: ", t.as_str()))
            },
        }
    }

    fn prefixed(lit: &str, id: u64) -> (k: String)
        ensures
            k@ == lit@ + decimal(id as nat),
    {
        let mut k = String::from_str(lit);
        push_decimal(&mut k, id);
        k
    }

    /// `ino_meta:{id}`.
    pub fn inode_key(id: u64) -> (k: String)
        ensures
            k@ == spec_inode_key(id),
    {
        proof {
            reveal_strlit("ino_meta:");
        }
        Self::prefixed("ino_meta:", id)
    }

    /// `ino_recipe:{id}`.
    pub fn recipe_key(id: u64) -> (k: String)
        ensures
            k@ == spec_recipe_key(id),
    {
        proof {
            reveal_strlit("ino_recipe:");
        }
        Self::prefixed("ino_recipe:", id)
    }

    /// `dirent:{parent_id}:`.
    pub fn dirent_prefix(parent_id: u64) -> (k: String)
        ensures
            k@ == spec_dirent_prefix(parent_id),
    {
        proof {
            reveal_strlit("dirent:");
        }
        let mut k = Self::prefixed("dirent:", parent_id);
        string_push(&mut k, ':');
        k
    }

    /// `dirent:{parent_id}:{name}`.
    pub fn dirent_key(parent_id: u64, name: &str) -> (k: String)
        ensures
            k@ == spec_dirent_key(parent_id, name@),
    {
        let mut k = Self::dirent_prefix(parent_id);
        k.append(name);
        k
    }

    /// `ino_tags:{inode_id}`.
    pub fn ino_tags_key(inode_id: u64) -> (k: String)
        ensures
            k@ == spec_tags_key(inode_id),
    {
        proof {
            reveal_strlit("ino_tags:");
        }
        Self::prefixed("ino_tags:", inode_id)
    }

    /// `tag_index:{tag}`.
    pub fn tag_index_key(tag: &str) -> (k: String)
        ensures
            k@ == spec_tag_index_key(tag@),
    {
        proof {
            reveal_strlit("tag_index:");
        }
        message("tag_index:", tag)
    }

    /// `snapshot:{name}`.
    pub fn snapshot_key(name: &str) -> (k: String)
        ensures
            k@ == spec_snapshot_key(name@),
    {
        proof {
            reveal_strlit("snapshot:");
        }
        message("snapshot:", name)
    }

    /// `legacy_name:{name}`.
    pub fn get_legacy_key(name: &str) -> (k: String)
        ensures
            k@ == spec_legacy_key(name@),
    {
        proof {
            reveal_strlit("legacy_name:");
        }
        message("legacy_name:", name)
    }

    /// Normalises tags: trimmed, lower-cased, empty ones dropped, no
    /// duplicates, in ascending order.
    pub fn normalize_tags(tags: Vec<String>) -> (out: Vec<String>)
        ensures
            canonical_tags(out.deep_view(), normal_tag_set(tags.deep_view())),
    {
        normalize_tag_list(tags.as_slice())
    }

    /// The inodes listed under `tag` in the index, in ascending order.
    fn load_tag_index_set(&self, tag: &str) -> (r: Result<Vec<u64>, String>)
        ensures
            r matches Ok(v) ==> sorted_ids(v@) && index_of(self@, tag@) == Some(v@.to_set()),
            index_of(self@, tag@) is None ==> r is Err,
    {
        let key = Self::tag_index_key(tag);
        let value = match db_get(&self.db, key.as_str().as_bytes()) {
            Ok(v) => v,
            Err(e) => return Err(db_error(&e)),
        };
        Self::index_from_stored(value)
    }

    /// The inodes, ascending, that the stored index entry `value` lists
    /// (`None`: no entry stored): none for no entry, its inodes where it
    /// decodes, an error where it does not.
    pub fn index_from_stored(value: Option<Vec<u8>>) -> (r: Result<Vec<u64>, String>)
        ensures
            match value {
                None => r matches Ok(v) && v@.len() == 0,
                Some(b) => match bincode_decode_ids(b@) {
                    Some(ids) => r matches Ok(v) && sorted_ids(v@) && v@.to_set() == ids.to_set(),
                    None => r is Err,
                },
            },
    {
        match value {
            Some(bytes) => match decode_ids(bytes.as_slice()) {
                Ok(ids) => Ok(sorted_unique_ids(&ids)),
                Err(e) => {
                    let t = bincode_error_text(&e);
                    Err(message("Tag index deserialization error: ", t.as_str()))
                },
            },
            None => Ok(Vec::new()),
        }
    }

    /// Stores `ids` as the index entry of `tag`; an empty set removes the
    /// entry.
    fn save_tag_index_set(&mut self, tag: &str, ids: &Vec<u64>) -> (r: Result<(), String>)
        requires
            sorted_ids(ids@),
        ensures
            r is Ok ==> index_of(final(self)@, tag@) == Some(ids@.to_set()),
            r is Ok ==> forall|k: Seq<u8>|
                k != key_bytes(spec_tag_index_key(tag@)) ==> (#[trigger] final(self)@.contains_key(k)
                    == old(self)@.contains_key(k) && final(self)@[k] == old(self)@[k]),
            r is Ok ==> (final(self)@.contains_key(key_bytes(spec_tag_index_key(tag@))) <==> ids@.len() > 0),
            r is Ok ==> index_tidy_at(final(self)@, tag@),
            same_except(old(self)@, final(self)@, key_bytes(spec_tag_index_key(tag@))),
    {
        let key = Self::tag_index_key(tag);
        if ids.len() == 0 {
            match db_remove(&mut self.db, key.as_str().as_bytes()) {
                Ok(()) => {},
                Err(e) => return Err(db_error(&e)),
            }
            assert(ids@.to_set() =~= Set::empty());
            return Ok(());
        }
        let encoded = encode_ids(ids).unwrap();
        match db_insert(&mut self.db, key.as_str().as_bytes(), encoded) {
            Ok(()) => {
                assert(ids@.to_set().contains(ids@[0]));
                Ok(())
            },
            Err(e) => Err(db_error(&e)),
        }
    }

    /// The tags stored for inode `inode_id` (none if there is no record).
    pub fn get_file_tags(&self, inode_id: u64) -> (r: Result<Vec<String>, String>)
        ensures
            r matches Ok(v) ==> tags_of(self@, inode_id) == Some(v.deep_view()),
            tags_of(self@, inode_id) is None ==> r is Err,
    {
        let key = Self::ino_tags_key(inode_id);
        let value = match db_get(&self.db, key.as_str().as_bytes()) {
            Ok(v) => v,
            Err(e) => return Err(db_error(&e)),
        };
        Self::tags_from_stored(value)
    }

    /// The tags that the stored tag record `value` holds (`None`: no record
    /// stored): none for no record, its tags where it decodes, an error
    /// where it does not.
    pub fn tags_from_stored(value: Option<Vec<u8>>) -> (r: Result<Vec<String>, String>)
        ensures
            match value {
                None => r matches Ok(v) && v@.len() == 0,
                Some(b) => match bincode_decode_tag_set(b@) {
                    Some(t) => r matches Ok(v) && v.deep_view() == t.2,
                    None => r is Err,
                },
            },
    {
        match value {
            Some(bytes) => match decode_tag_set(bytes.as_slice()) {
                Ok(rec) => Ok(rec.2),
                Err(e) => {
                    let t = bincode_error_text(&e);
                    Err(message("Tag set deserialization error: ", t.as_str()))
                },
            },
            None => {
                let v: Vec<String> = Vec::new();
                assert(v.deep_view() =~= Seq::<Seq<char>>::empty());
                Ok(v)
            },
        }
    }

    /// Removes `inode_id` from the index entry of `tag`.
    fn unlist(&mut self, tag: &str, inode_id: u64) -> (r: Result<(), String>)
        ensures
            r is Ok ==> index_of(old(self)@, tag@) is Some,
            r is Ok ==> index_of(final(self)@, tag@) == Some(
                index_of(old(self)@, tag@).unwrap().remove(inode_id),
            ),
            r is Ok ==> index_tidy_at(final(self)@, tag@),
            r is Ok ==> forall|k: Seq<u8>|
                k != key_bytes(spec_tag_index_key(tag@)) ==> (#[trigger] final(self)@.contains_key(k)
                    == old(self)@.contains_key(k) && final(self)@[k] == old(self)@[k]),
            same_except(old(self)@, final(self)@, key_bytes(spec_tag_index_key(tag@))),
    {
        let mut ids = match self.load_tag_index_set(tag) {
            Ok(x) => x,
            Err(e) => return Err(e),
        };
        remove_id_sorted(&mut ids, inode_id);
        self.save_tag_index_set(tag, &ids)
    }

    /// Adds `inode_id` to the index entry of `tag`.
    fn enlist(&mut self, tag: &str, inode_id: u64) -> (r: Result<(), String>)
        ensures
            r is Ok ==> index_of(old(self)@, tag@) is Some,
            r is Ok ==> index_of(final(self)@, tag@) == Some(
                index_of(old(self)@, tag@).unwrap().insert(inode_id),
            ),
            r is Ok ==> index_tidy_at(final(self)@, tag@),
            r is Ok ==> forall|k: Seq<u8>|
                k != key_bytes(spec_tag_index_key(tag@)) ==> (#[trigger] final(self)@.contains_key(k)
                    == old(self)@.contains_key(k) && final(self)@[k] == old(self)@[k]),
            same_except(old(self)@, final(self)@, key_bytes(spec_tag_index_key(tag@))),
    {
        let mut ids = match self.load_tag_index_set(tag) {
            Ok(x) => x,
            Err(e) => return Err(e),
        };
        insert_id_sorted(&mut ids, inode_id);
        self.save_tag_index_set(tag, &ids)
    }

    /// Removes `inode_id` from the index entry of every tag of `tags` that
    /// `keep` does not hold.
    #[verifier::spinoff_prover]
    fn unlist_dropped(&mut self, inode_id: u64, tags: &Vec<String>, keep: &Vec<String>) -> (r: Result<(), String>)
        ensures
            only_tags_changed(old(self)@, final(self)@, inode_id),
            r is Ok ==> forall|o: u64| #[trigger] tags_of(final(self)@, o) == tags_of(old(self)@, o),
            r is Ok ==> forall|t: Seq<char>|
                tags.deep_view().contains(t) && !keep.deep_view().contains(t) ==> #[trigger] index_of(
                    old(self)@,
                    t,
                ) is Some,
            r is Ok ==> forall|t: Seq<char>| #[trigger]
                index_of(final(self)@, t) == if tags.deep_view().contains(t) && !keep.deep_view().contains(t) {
                    Some(index_of(old(self)@, t).unwrap().remove(inode_id))
                } else {
                    index_of(old(self)@, t)
                },
            r is Ok ==> forall|k: Seq<u8>|
                !index_key_of_any(k, tags.deep_view()) ==> (#[trigger] final(self)@.contains_key(k)
                    == old(self)@.contains_key(k) && final(self)@[k] == old(self)@[k]),
            (forall|t: Seq<char>| #[trigger] tags.deep_view().contains(t) ==> keep.deep_view().contains(t)) ==> r is Ok
                && final(self)@ == old(self)@,
            r is Ok ==> forall|t: Seq<char>| index_tidy_at(old(self)@, t) ==> #[trigger] index_tidy_at(final(self)@, t),
    {
        let ghost m0 = self@;
        let ghost prev = tags.deep_view();
        let ghost n = keep.deep_view();
        let ghost all_kept = forall|t: Seq<char>| #[trigger] prev.contains(t) ==> n.contains(t);
        let mut k: usize = 0;
        while k < tags.len()
            invariant
                k <= tags@.len(),
                prev == tags.deep_view(),
                n == keep.deep_view(),
                forall|o: u64| #[trigger] tags_of(self@, o) == tags_of(m0, o),
                forall|t: Seq<char>|
                    prev.take(k as int).contains(t) && !n.contains(t) ==> #[trigger] index_of(m0, t) is Some,
                forall|t: Seq<char>| #[trigger]
                    index_of(self@, t) == if prev.take(k as int).contains(t) && !n.contains(t) {
                        Some(index_of(m0, t).unwrap().remove(inode_id))
                    } else {
                        index_of(m0, t)
                    },
                forall|kk: Seq<u8>|
                    !index_key_of_any(kk, prev) ==> (#[trigger] self@.contains_key(kk)
                        == m0.contains_key(kk) && self@[kk] == m0[kk]),
                all_kept == (forall|t: Seq<char>| #[trigger] prev.contains(t) ==> n.contains(t)),
                all_kept ==> self@ == m0,
                forall|t: Seq<char>| index_tidy_at(m0, t) ==> #[trigger] index_tidy_at(self@, t),
                only_tags_changed(m0, self@, inode_id),
                m0 == old(self)@,
            decreases tags@.len() - k,
        {
            let ghost m = self@;
            let ghost t0 = prev[k as int];
            proof {
                lemma_take_contains(prev, k as int);
            }
            let skip = contains_text(keep, &tags[k]);
            if !skip {
                assert(tags@[k as int]@ == t0);
                assert(!all_kept) by {
                    assert(prev.contains(t0) && !n.contains(t0));
                }
                let ghost mb = self@;
                let res = self.unlist(tags[k].as_str(), inode_id);
                proof {
                    lemma_only_tags_index(mb, self@, t0, inode_id);
                    lemma_only_tags_trans(m0, mb, self@, inode_id);
                }
                match res {
                    Ok(()) => {},
                    Err(e) => return Err(e),
                }
                proof {
                    assert forall|t: Seq<char>| index_tidy_at(m0, t) implies #[trigger] index_tidy_at(self@, t) by {
                        if t != t0 {
                            if key_bytes(spec_tag_index_key(t)) == key_bytes(spec_tag_index_key(t0)) {
                                lemma_index_key_injective(t, t0);
                            }
                            lemma_tidy_frame(mb, self@, t);
                        }
                    }
                }
                proof {
                    lemma_index_write(m, t0, self@);
                    assert(prev.contains(t0));
                    assert(index_key_of_any(key_bytes(spec_tag_index_key(t0)), prev));
                    if !prev.take(k as int).contains(t0) {
                        assert(index_of(m, t0) == index_of(m0, t0));
                    }
                }
            }
            proof {
                assert forall|kk: Seq<u8>|
                    !index_key_of_any(kk, prev) implies (#[trigger] self@.contains_key(kk)
                        == m0.contains_key(kk) && self@[kk] == m0[kk]) by {
                    if !skip {
                        assert(kk != key_bytes(spec_tag_index_key(t0)));
                        assert(self@.contains_key(kk) == m.contains_key(kk) && self@[kk] == m[kk]);
                    }
                    assert(m.contains_key(kk) == m0.contains_key(kk) && m[kk] == m0[kk]);
                }
            }
            k = k + 1;
        }
        proof {
            assert(prev.take(tags@.len() as int) =~= prev);
        }
        Ok(())
    }

    /// Adds `inode_id` to the index entry of every tag of `tags`.
    fn enlist_all(&mut self, inode_id: u64, tags: &Vec<String>) -> (r: Result<(), String>)
        ensures
            only_tags_changed(old(self)@, final(self)@, inode_id),
            r is Ok ==> forall|o: u64| #[trigger] tags_of(final(self)@, o) == tags_of(old(self)@, o),
            r is Ok ==> forall|t: Seq<char>|
                tags.deep_view().contains(t) ==> #[trigger] index_of(old(self)@, t) is Some,
            r is Ok ==> forall|t: Seq<char>| #[trigger]
                index_of(final(self)@, t) == if tags.deep_view().contains(t) {
                    Some(index_of(old(self)@, t).unwrap().insert(inode_id))
                } else {
                    index_of(old(self)@, t)
                },
            r is Ok ==> forall|k: Seq<u8>|
                !index_key_of_any(k, tags.deep_view()) ==> (#[trigger] final(self)@.contains_key(k)
                    == old(self)@.contains_key(k) && final(self)@[k] == old(self)@[k]),
            tags@.len() == 0 ==> r is Ok && final(self)@ == old(self)@,
            r is Ok ==> forall|t: Seq<char>| index_tidy_at(old(self)@, t) ==> #[trigger] index_tidy_at(final(self)@, t),
    {
        let ghost m0 = self@;
        let ghost n = tags.deep_view();
        let mut k: usize = 0;
        while k < tags.len()
            invariant
                k <= tags@.len(),
                n == tags.deep_view(),
                forall|o: u64| #[trigger] tags_of(self@, o) == tags_of(m0, o),
                forall|t: Seq<char>| n.take(k as int).contains(t) ==> #[trigger] index_of(m0, t) is Some,
                forall|t: Seq<char>| #[trigger]
                    index_of(self@, t) == if n.take(k as int).contains(t) {
                        Some(index_of(m0, t).unwrap().insert(inode_id))
                    } else {
                        index_of(m0, t)
                    },
                forall|kk: Seq<u8>|
                    !index_key_of_any(kk, n) ==> (#[trigger] self@.contains_key(kk) == m0.contains_key(kk)
                        && self@[kk] == m0[kk]),
                forall|t: Seq<char>| index_tidy_at(m0, t) ==> #[trigger] index_tidy_at(self@, t),
                only_tags_changed(m0, self@, inode_id),
                m0 == old(self)@,
            decreases tags@.len() - k,
        {
            let ghost m = self@;
            let ghost t0 = n[k as int];
            assert(tags@[k as int]@ == t0);
            let res = self.enlist(tags[k].as_str(), inode_id);
            proof {
                lemma_only_tags_index(m, self@, t0, inode_id);
                lemma_only_tags_trans(m0, m, self@, inode_id);
            }
            match res {
                Ok(_) => {},
                Err(e) => return Err(e),
            }
            proof {
                assert forall|t: Seq<char>| index_tidy_at(m0, t) implies #[trigger] index_tidy_at(self@, t) by {
                    if t != t0 {
                        if key_bytes(spec_tag_index_key(t)) == key_bytes(spec_tag_index_key(t0)) {
                            lemma_index_key_injective(t, t0);
                        }
                        lemma_tidy_frame(m, self@, t);
                    }
                }
            }
            proof {
                lemma_index_write(m, t0, self@);
                lemma_take_contains(n, k as int);
                assert(n.contains(t0));
                assert(index_key_of_any(key_bytes(spec_tag_index_key(t0)), n));
                if !n.take(k as int).contains(t0) {
                    assert(index_of(m, t0) == index_of(m0, t0));
                }
            }
            k = k + 1;
        }
        proof {
            assert(n.take(tags@.len() as int) =~= n);
        }
        Ok(())
    }

    /// Removes every tag of inode `inode_id`: the inode leaves the index
    /// entry of each of its tags and its tag record is removed.
    pub fn delete_file_tags(&mut self, inode_id: u64) -> (r: Result<(), String>)
        ensures
            only_tags_changed(old(self)@, final(self)@, inode_id),
            tags_of(old(self)@, inode_id) is None ==> r is Err,
            r is Ok ==> tags_of(old(self)@, inode_id) is Some,
            r is Ok ==> tags_updated(
                old(self)@,
                final(self)@,
                inode_id,
                Seq::empty(),
                tags_of(old(self)@, inode_id).unwrap(),
            ),
            r is Ok ==> forall|t: Seq<char>| index_tidy_at(old(self)@, t) ==> #[trigger] index_tidy_at(final(self)@, t),
    {
        let ghost m0 = self@;
        let existing = match self.get_file_tags(inode_id) {
            Ok(x) => x,
            Err(e) => return Err(e),
        };
        let ghost prev = existing.deep_view();
        let ghost empty = Seq::<Seq<char>>::empty();
        let none: Vec<String> = Vec::new();
        assert(none.deep_view() =~= empty);
        match self.unlist_dropped(inode_id, &existing, &none) {
            Ok(_) => {},
            Err(e) => return Err(e),
        }
        let key = Self::ino_tags_key(inode_id);
        let ghost m = self@;
        let removed = db_remove(&mut self.db, key.as_str().as_bytes());
        proof {
            lemma_only_tags_record(m, self@, inode_id);
            lemma_only_tags_trans(m0, m, self@, inode_id);
        }
        match removed {
            Ok(()) => {},
            Err(e) => return Err(db_error(&e)),
        }
        proof {
            assert forall|t: Seq<char>| index_tidy_at(m0, t) implies #[trigger] index_tidy_at(self@, t) by {
                lemma_tags_index_keys_differ(inode_id, t);
                lemma_tidy_frame(m, self@, t);
            }
            lemma_tags_write(m, inode_id, self@);
            assert forall|kk: Seq<u8>|
                !tag_update_key(kk, inode_id, empty, prev) implies (#[trigger] self@.contains_key(kk)
                    == m0.contains_key(kk) && self@[kk] == m0[kk]) by {
                if index_key_of_any(kk, prev) {
                    let t = choose|t: Seq<char>| prev.contains(t) && kk == key_bytes(#[trigger] spec_tag_index_key(t));
                    assert(tag_update_key(kk, inode_id, empty, prev));
                }
                assert(kk != key_bytes(spec_tags_key(inode_id)));
            }
            assert forall|t: Seq<char>| #[trigger]
                index_of(self@, t) == if empty.contains(t) {
                    Some(index_of(m0, t).unwrap().insert(inode_id))
                } else if prev.contains(t) {
                    Some(index_of(m0, t).unwrap().remove(inode_id))
                } else {
                    index_of(m0, t)
                } by {
                assert(!none.deep_view().contains(t));
            }
        }
        match db_flush(&self.db) {
            Ok(()) => {},
            Err(e) => return Err(flush_error(&e)),
        }
        Ok(())
    }

    /// Replaces the tags of inode `inode_id` with the normal forms of
    /// `tags` (trimmed, lower-cased, empty ones dropped, without duplicates,
    /// ascending), keeping the tag index in step. With no tag left this is
    /// `delete_file_tags`.
    #[verifier::spinoff_prover]
    pub fn set_file_tags(&mut self, inode_id: u64, filename: &str, tags: Vec<String>) -> (r: Result<(), String>)
        ensures
            only_tags_changed(old(self)@, final(self)@, inode_id),
            tags_of(old(self)@, inode_id) is None ==> r is Err,
            r is Ok ==> tags_set_to(old(self)@, final(self)@, inode_id, tags.deep_view()),
            r is Ok && normal_tag_set(tags.deep_view()) != Set::<Seq<char>>::empty() ==> final(self)@[key_bytes(spec_tags_key(inode_id))]
                == bincode_tag_set(
                inode_id,
                filename@,
                tags_of(final(self)@, inode_id).unwrap(),
            ),
            r is Ok ==> forall|t: Seq<char>| index_tidy_at(old(self)@, t) ==> #[trigger] index_tidy_at(final(self)@, t),
    {
        let ghost m0 = self@;
        let normalized = normalize_tag_list(tags.as_slice());
        let ghost n = normalized.deep_view();
        let previous = match self.get_file_tags(inode_id) {
            Ok(x) => x,
            Err(e) => return Err(e),
        };
        let ghost prev = previous.deep_view();
        if normalized.len() == 0 {
            proof {
                assert(n =~= Seq::<Seq<char>>::empty());
                assert(normal_tag_set(tags.deep_view()) =~= Set::<Seq<char>>::empty()) by {
                    assert forall|x: Seq<char>| !normal_tag_set(tags.deep_view()).contains(x) by {
                        if normal_tag_set(tags.deep_view()).contains(x) {
                            assert(n.to_set().contains(x));
                        }
                    }
                }
            }
            match self.delete_file_tags(inode_id) {
                Ok(_) => {},
                Err(e) => return Err(e),
            }
            return Ok(());
        }
        let key = Self::ino_tags_key(inode_id);
        let encoded = encode_tag_set(inode_id, filename, &normalized).unwrap();
        let inserted = db_insert(&mut self.db, key.as_str().as_bytes(), encoded);
        proof {
            lemma_only_tags_record(m0, self@, inode_id);
        }
        match inserted {
            Ok(()) => {},
            Err(e) => return Err(db_error(&e)),
        }
        proof {
            lemma_tags_write(m0, inode_id, self@);
            assert(n.len() > 0);
            assert(n.to_set().contains(n[0]));
            assert forall|t: Seq<char>| index_tidy_at(m0, t) implies #[trigger] index_tidy_at(self@, t) by {
                lemma_tags_index_keys_differ(inode_id, t);
                lemma_tidy_frame(m0, self@, t);
            }
        }
        let ghost m1 = self@;
        let dropped = self.unlist_dropped(inode_id, &previous, &normalized);
        proof {
            lemma_only_tags_trans(m0, m1, self@, inode_id);
        }
        match dropped {
            Ok(()) => {},
            Err(e) => return Err(e),
        }
        let ghost m2 = self@;
        let added = self.enlist_all(inode_id, &normalized);
        proof {
            lemma_only_tags_trans(m0, m2, self@, inode_id);
        }
        match added {
            Ok(()) => {},
            Err(e) => return Err(e),
        }
        proof {
            assert forall|kk: Seq<u8>| !index_key_of_any(kk, prev) && !index_key_of_any(kk, n) implies
                #[trigger] self@.contains_key(kk) == m1.contains_key(kk) && self@[kk] == m1[kk] by {
                assert(m2.contains_key(kk) == m1.contains_key(kk) && m2[kk] == m1[kk]);
            }
            let ktag = key_bytes(spec_tags_key(inode_id));
            assert(!index_key_of_any(ktag, prev)) by {
                if index_key_of_any(ktag, prev) {
                    let t = choose|t: Seq<char>| prev.contains(t) && ktag == key_bytes(#[trigger] spec_tag_index_key(t));
                    lemma_tags_index_keys_differ(inode_id, t);
                }
            }
            assert(!index_key_of_any(ktag, n)) by {
                if index_key_of_any(ktag, n) {
                    let t = choose|t: Seq<char>| n.contains(t) && ktag == key_bytes(#[trigger] spec_tag_index_key(t));
                    lemma_tags_index_keys_differ(inode_id, t);
                }
            }
            assert(self@.contains_key(ktag) == m1.contains_key(ktag) && self@[ktag] == m1[ktag]);
            assert forall|kk: Seq<u8>|
                !tag_update_key(kk, inode_id, n, prev) implies (#[trigger] self@.contains_key(kk)
                    == m0.contains_key(kk) && self@[kk] == m0[kk]) by {
                if index_key_of_any(kk, prev) {
                    let t = choose|t: Seq<char>| prev.contains(t) && kk == key_bytes(#[trigger] spec_tag_index_key(t));
                    assert(tag_update_key(kk, inode_id, n, prev));
                }
                if index_key_of_any(kk, n) {
                    let t = choose|t: Seq<char>| n.contains(t) && kk == key_bytes(#[trigger] spec_tag_index_key(t));
                    assert(tag_update_key(kk, inode_id, n, prev));
                }
                assert(kk != ktag);
                assert(m1.contains_key(kk) == m0.contains_key(kk) && m1[kk] == m0[kk]);
            }
            assert forall|t: Seq<char>| (n.contains(t) || prev.contains(t)) implies #[trigger] index_of(m0, t) is Some by {
                assert(index_of(m1, t) == index_of(m0, t));
                if n.contains(t) {
                    assert(index_of(m2, t) is Some);
                    if !(prev.contains(t) && !n.contains(t)) {
                        assert(index_of(m2, t) == index_of(m1, t));
                    }
                }
            }
            assert forall|t: Seq<char>| #[trigger]
                index_of(self@, t) == if n.contains(t) {
                    Some(index_of(m0, t).unwrap().insert(inode_id))
                } else if prev.contains(t) {
                    Some(index_of(m0, t).unwrap().remove(inode_id))
                } else {
                    index_of(m0, t)
                } by {
                assert(index_of(m1, t) == index_of(m0, t));
                assert(index_of(m2, t) == if prev.contains(t) && !n.contains(t) {
                    Some(index_of(m1, t).unwrap().remove(inode_id))
                } else {
                    index_of(m1, t)
                });
            }
            assert(tags_of(self@, inode_id) == Some(n));
            assert(canonical_tags(n, normal_tag_set(tags.deep_view())));
        }
        match db_flush(&self.db) {
            Ok(()) => {},
            Err(e) => return Err(flush_error(&e)),
        }
        Ok(())
    }

    /// The inodes that have the tag `tag` (normalised first), ascending; none
    /// for a tag that normalises to nothing.
    pub fn get_files_with_tag(&self, tag: &str) -> (r: Result<Vec<u64>, String>)
        ensures
            normal_tag(tag@).len() == 0 ==> (r matches Ok(v) && v@.len() == 0),
            normal_tag(tag@).len() > 0 ==> (r matches Ok(v) ==> sorted_ids(v@) && index_of(
                self@,
                normal_tag(tag@),
            ) == Some(v@.to_set())),
            normal_tag(tag@).len() > 0 && index_of(self@, normal_tag(tag@)) is None ==> r is Err,
    {
        let normalized = normalize_tag(tag);
        if normalized.as_str().is_empty() {
            return Ok(Vec::new());
        }
        self.load_tag_index_set(normalized.as_str())
    }

    /// The inodes that have every one of `tags` (normalised first),
    /// ascending; none when no tag is left after normalisation.
    pub fn get_files_by_tags(&self, tags: &[String]) -> (r: Result<Vec<u64>, String>)
        ensures
            normal_tag_set(tags.deep_view()) == Set::<Seq<char>>::empty() ==> (r matches Ok(v)
                && v@.len() == 0),
            r matches Ok(v) ==> sorted_ids(v@) && forall|id: u64|
                #[trigger] v@.contains(id) <==> listed_under_all(
                    self@,
                    normal_tag_set(tags.deep_view()),
                    id,
                ),
    {
        let normalized = normalize_tag_list(tags);
        let ghost n = normalized.deep_view();
        let ghost big_n = normal_tag_set(tags.deep_view());
        if normalized.len() == 0 {
            proof {
                assert(n =~= Seq::<Seq<char>>::empty());
                assert(big_n =~= Set::<Seq<char>>::empty()) by {
                    assert forall|x: Seq<char>| !big_n.contains(x) by {
                        if big_n.contains(x) {
                            assert(n.to_set().contains(x));
                        }
                    }
                }
            }
            return Ok(Vec::new());
        }
        proof {
            assert(big_n.contains(n[0])) by {
                assert(n.to_set().contains(n[0]));
            }
        }
        let mut candidates = match self.load_tag_index_set(normalized[0].as_str()) {
            Ok(x) => x,
            Err(e) => return Err(e),
        };
        let mut k: usize = 1;
        while k < normalized.len()
            invariant
                1 <= k <= normalized@.len(),
                n == normalized.deep_view(),
                n.to_set() == big_n,
                big_n == normal_tag_set(tags.deep_view()),
                big_n.contains(n[0]),
                sorted_ids(candidates@),
                forall|id: u64|
                    #[trigger] candidates@.contains(id) <==> forall|j: int|
                        0 <= j < k ==> #[trigger] index_of(self@, n[j]) is Some && index_of(
                            self@,
                            n[j],
                        ).unwrap().contains(id),
            decreases normalized@.len() - k,
        {
            assert(normalized@[k as int]@ == n[k as int]);
            let ids = match self.load_tag_index_set(normalized[k].as_str()) {
                Ok(x) => x,
                Err(e) => return Err(e),
            };
            let ghost before = candidates@;
            candidates = retain_ids_in(&candidates, &ids);
            proof {
                assert forall|id: u64|
                    #[trigger] candidates@.contains(id) <==> forall|j: int|
                        0 <= j < k + 1 ==> #[trigger] index_of(self@, n[j]) is Some && index_of(
                            self@,
                            n[j],
                        ).unwrap().contains(id) by {
                    assert(ids@.contains(id) == ids@.to_set().contains(id));
                    if candidates@.contains(id) {
                        assert(before.contains(id));
                        assert forall|j: int| 0 <= j < k + 1 implies #[trigger] index_of(self@, n[j]) is Some
                            && index_of(self@, n[j]).unwrap().contains(id) by {
                            if j < k {
                            } else {
                                assert(j == k);
                            }
                        }
                    }
                    if forall|j: int|
                        0 <= j < k + 1 ==> #[trigger] index_of(self@, n[j]) is Some && index_of(
                            self@,
                            n[j],
                        ).unwrap().contains(id) {
                        assert(index_of(self@, n[k as int]) is Some);
                        assert(before.contains(id));
                    }
                }
            }
            if candidates.len() == 0 {
                proof {
                    assert forall|id: u64| !listed_under_all(self@, big_n, id) by {
                        assert(!candidates@.contains(id));
                        let j = choose|j: int|
                            0 <= j < k + 1 && !(#[trigger] index_of(self@, n[j]) is Some && index_of(
                                self@,
                                n[j],
                            ).unwrap().contains(id));
                        assert(n.to_set().contains(n[j]));
                    }
                }
                return Ok(candidates);
            }
            k = k + 1;
        }
        proof {
            assert forall|id: u64| #[trigger] candidates@.contains(id) <==> listed_under_all(self@, big_n, id) by {
                if candidates@.contains(id) {
                    assert forall|t: Seq<char>| big_n.contains(t) implies #[trigger] index_of(self@, t) is Some
                        && index_of(self@, t).unwrap().contains(id) by {
                        assert(n.to_set().contains(t));
                        let j = choose|j: int| 0 <= j < n.len() && n[j] == t;
                    }
                }
                if listed_under_all(self@, big_n, id) {
                    assert forall|j: int| 0 <= j < k implies #[trigger] index_of(self@, n[j]) is Some
                        && index_of(self@, n[j]).unwrap().contains(id) by {
                        assert(n.to_set().contains(n[j]));
                    }
                }
            }
        }
        Ok(candidates)
    }

    /// Adds to `acc` the tags of inode `id` that `exclude` does not hold.
    fn merge_other_tags(&self, id: u64, exclude: &Vec<String>, acc: &mut Vec<String>) -> (r: Result<(), String>)
        requires
            sorted_texts(old(acc).deep_view()),
        ensures
            sorted_texts(final(acc).deep_view()),
            r is Ok ==> tags_of(self@, id) is Some,
            r is Ok ==> forall|t: Seq<char>|
                #[trigger] final(acc).deep_view().contains(t) <==> old(acc).deep_view().contains(t) || (
                tags_of(self@, id).unwrap().contains(t) && !exclude.deep_view().contains(t)),
    {
        let tags = match self.get_file_tags(id) {
            Ok(x) => x,
            Err(e) => return Err(e),
        };
        let ghost ts = tags.deep_view();
        let ghost a0 = acc.deep_view();
        let mut i: usize = 0;
        while i < tags.len()
            invariant
                i <= tags@.len(),
                ts == tags.deep_view(),
                tags_of(self@, id) == Some(ts),
                sorted_texts(acc.deep_view()),
                forall|t: Seq<char>|
                    #[trigger] acc.deep_view().contains(t) <==> a0.contains(t) || (ts.take(i as int).contains(
                        t,
                    ) && !exclude.deep_view().contains(t)),
            decreases tags@.len() - i,
        {
            proof {
                lemma_take_contains(ts, i as int);
            }
            if !contains_text(exclude, &tags[i]) {
                let t = tags[i].clone();
                let ghost before = acc.deep_view();
                insert_text_sorted(acc, t);
                proof {
                    assert forall|x: Seq<char>| #[trigger] acc.deep_view().contains(x) <==> before.contains(x) || x == ts[i as int] by {
                        assert(acc.deep_view().contains(x) == acc.deep_view().to_set().contains(x));
                        assert(before.contains(x) == before.to_set().contains(x));
                    }
                }
            }
            i = i + 1;
        }
        proof {
            assert(ts.take(tags@.len() as int) =~= ts);
        }
        Ok(())
    }

    /// The tags one level below `current_tags` (normalised first): with no
    /// tag, every tag that has an index entry; else each tag, not among the
    /// current ones, that some inode having all current tags has; ascending.
    pub fn get_next_level_tags(&self, current_tags: &[String]) -> (r: Result<Vec<String>, String>)
        ensures
            r matches Ok(v) ==> sorted_texts(v.deep_view()),
            normal_tag_set(current_tags.deep_view()) == Set::<Seq<char>>::empty() ==> (r matches Ok(v)
                ==> forall|t: Seq<char>|
                #[trigger] v.deep_view().contains(t) <==> self@.contains_key(
                    key_bytes(spec_tag_index_key(t)),
                )),
            normal_tag_set(current_tags.deep_view()) != Set::<Seq<char>>::empty() ==> (r matches Ok(v)
                ==> forall|t: Seq<char>|
                #[trigger] v.deep_view().contains(t) <==> next_level_tag(
                    self@,
                    normal_tag_set(current_tags.deep_view()),
                    t,
                )),
    {
        let matching = match self.get_files_by_tags(current_tags) {
            Ok(x) => x,
            Err(e) => return Err(e),
        };
        let r = self.next_level_tags_among(current_tags, &matching);
        proof {
            let big_n = normal_tag_set(current_tags.deep_view());
            if big_n != Set::<Seq<char>>::empty() {
                lemma_tags_among_exact(self@, big_n, matching@);
            }
        }
        r
    }

    /// The tags next below `current_tags` among the inodes `matching`: with
    /// no tag after normalisation, every tag that has an index entry; else
    /// each tag not among the current ones that one of `matching` has,
    /// ascending.
    pub fn next_level_tags_among(&self, current_tags: &[String], matching: &Vec<u64>) -> (r: Result<Vec<String>, String>)
        ensures
            r matches Ok(v) ==> sorted_texts(v.deep_view()),
            normal_tag_set(current_tags.deep_view()) == Set::<Seq<char>>::empty() ==> (r matches Ok(v)
                ==> forall|t: Seq<char>|
                #[trigger] v.deep_view().contains(t) <==> self@.contains_key(
                    key_bytes(spec_tag_index_key(t)),
                )),
            normal_tag_set(current_tags.deep_view()) != Set::<Seq<char>>::empty() ==> (r matches Ok(v)
                ==> forall|t: Seq<char>|
                #[trigger] v.deep_view().contains(t) <==> tags_among(
                    self@,
                    normal_tag_set(current_tags.deep_view()),
                    matching@,
                    t,
                )),
    {
        let normalized = normalize_tag_list(current_tags);
        let ghost n = normalized.deep_view();
        let ghost big_n = normal_tag_set(current_tags.deep_view());
        if normalized.len() == 0 {
            proof {
                assert(n =~= Seq::<Seq<char>>::empty());
                assert(big_n =~= Set::<Seq<char>>::empty()) by {
                    assert forall|x: Seq<char>| !big_n.contains(x) by {
                        if big_n.contains(x) {
                            assert(n.to_set().contains(x));
                        }
                    }
                }
            }
            return self.all_tags();
        }
        proof {
            assert(big_n.contains(n[0])) by {
                assert(n.to_set().contains(n[0]));
            }
            assert(big_n != Set::<Seq<char>>::empty());
        }
        let mut next: Vec<String> = Vec::new();
        proof {
            assert(next.deep_view() =~= Seq::<Seq<char>>::empty());
        }
        let mut i: usize = 0;
        while i < matching.len()
            invariant
                i <= matching@.len(),
                n == normalized.deep_view(),
                n.to_set() == big_n,
                big_n == normal_tag_set(current_tags.deep_view()),
                sorted_texts(next.deep_view()),
                forall|j: int| 0 <= j < i ==> #[trigger] tags_of(self@, matching@[j]) is Some,
                forall|t: Seq<char>|
                    #[trigger] next.deep_view().contains(t) <==> !n.contains(t) && exists|j: int|
                        0 <= j < i && #[trigger] tags_of(self@, matching@[j]) is Some && tags_of(
                            self@,
                            matching@[j],
                        ).unwrap().contains(t),
            decreases matching@.len() - i,
        {
            let ghost before = next.deep_view();
            match self.merge_other_tags(matching[i], &normalized, &mut next) {
                Ok(_) => {},
                Err(e) => return Err(e),
            }
            proof {
                assert forall|t: Seq<char>|
                    #[trigger] next.deep_view().contains(t) <==> !n.contains(t) && exists|j: int|
                        0 <= j < i + 1 && #[trigger] tags_of(self@, matching@[j]) is Some && tags_of(
                            self@,
                            matching@[j],
                        ).unwrap().contains(t) by {
                    if before.contains(t) {
                        let j = choose|j: int|
                            0 <= j < i && #[trigger] tags_of(self@, matching@[j]) is Some && tags_of(
                                self@,
                                matching@[j],
                            ).unwrap().contains(t);
                    }
                    if !n.contains(t) && exists|j: int|
                        0 <= j < i + 1 && #[trigger] tags_of(self@, matching@[j]) is Some && tags_of(
                            self@,
                            matching@[j],
                        ).unwrap().contains(t) {
                        let j = choose|j: int|
                            0 <= j < i + 1 && #[trigger] tags_of(self@, matching@[j]) is Some && tags_of(
                                self@,
                                matching@[j],
                            ).unwrap().contains(t);
                        if j < i {
                            assert(before.contains(t));
                        }
                    }
                }
            }
            i = i + 1;
        }
        proof {
            assert forall|t: Seq<char>| #[trigger] next.deep_view().contains(t) <==> tags_among(self@, big_n, matching@, t) by {
                if next.deep_view().contains(t) {
                    let j = choose|j: int|
                        0 <= j < i && #[trigger] tags_of(self@, matching@[j]) is Some && tags_of(
                            self@,
                            matching@[j],
                        ).unwrap().contains(t);
                    assert(!big_n.contains(t)) by {
                        if big_n.contains(t) {
                            assert(n.to_set().contains(t));
                        }
                    }
                }
                if tags_among(self@, big_n, matching@, t) {
                    assert(!n.contains(t)) by {
                        if n.contains(t) {
                            assert(n.to_set().contains(t));
                        }
                    }
                }
            }
        }
        Ok(next)
    }

    /// Every tag that has an index entry, ascending.
    fn all_tags(&self) -> (r: Result<Vec<String>, String>)
        ensures
            r matches Ok(v) ==> sorted_texts(v.deep_view()) && forall|t: Seq<char>|
                #[trigger] v.deep_view().contains(t) <==> self@.contains_key(
                    key_bytes(spec_tag_index_key(t)),
                ),
    {
        let prefix = string_of("tag_index:");
        proof {
            reveal_strlit("tag_index:");
            assert(prefix@ =~= prefix_tag_index());
        }
        let items = db_scan_prefix(&self.db, prefix.as_str().as_bytes());
        let mut all: Vec<String> = Vec::new();
        proof {
            assert(all.deep_view() =~= Seq::<Seq<char>>::empty());
        }
        let mut i: usize = 0;
        while i < items.len()
            invariant
                i <= items@.len(),
                prefix@ == prefix_tag_index(),
                sorted_texts(all.deep_view()),
                forall|j: int| 0 <= j < i ==> #[trigger] items@[j] is Ok,
                forall|t: Seq<char>|
                    #[trigger] all.deep_view().contains(t) <==> exists|j: int|
                        0 <= j < i && (#[trigger] items@[j] matches Ok(kv) && kv.0@ == key_bytes(
                            spec_tag_index_key(t),
                        )),
                forall|j: int|
                    0 <= j < items@.len() ==> (#[trigger] items@[j] matches Ok(kv) ==> self@.contains_key(
                        kv.0@,
                    )),
            decreases items@.len() - i,
        {
            let ghost before = all.deep_view();
            match &items[i] {
                Err(e) => {
                    return Err(db_error(e));
                },
                Ok(kv) => {
                    let key_bytes_v = kv.0.clone();
                    assert(key_bytes_v@ == kv.0@);
                    let key_str = match string_from_utf8(key_bytes_v) {
                        Ok(s) => s,
                        Err(e) => {
                            let t = utf8_error_text(&e);
                            return Err(message("Invalid UTF-8 tag index key: ", t.as_str()));
                        },
                    };
                    proof {
                        vstd::utf8::decode_utf8_encode_utf8(kv.0@);
                    }
                    match strip_prefix_text(key_str.as_str(), prefix.as_str()) {
                        Some(tag) => {
                            let ghost tg = tag@;
                            insert_text_sorted(&mut all, tag);
                            proof {
                                assert(key_bytes(spec_tag_index_key(tg)) == kv.0@);
                                assert forall|t: Seq<char>|
                                    #[trigger] all.deep_view().contains(t) <==> exists|j: int|
                                        0 <= j < i + 1 && (#[trigger] items@[j] matches Ok(kv2) && kv2.0@
                                            == key_bytes(spec_tag_index_key(t))) by {
                                    assert(all.deep_view().contains(t) == all.deep_view().to_set().contains(t));
                                    assert(before.contains(t) == before.to_set().contains(t));
                                    if t == tg {
                                        assert(items@[i as int] matches Ok(kv2) && kv2.0@ == key_bytes(
                                            spec_tag_index_key(t),
                                        ));
                                    }
                                    if exists|j: int|
                                        0 <= j < i + 1 && (#[trigger] items@[j] matches Ok(kv2) && kv2.0@
                                            == key_bytes(spec_tag_index_key(t))) {
                                        let j = choose|j: int|
                                            0 <= j < i + 1 && (#[trigger] items@[j] matches Ok(kv2)
                                                && kv2.0@ == key_bytes(spec_tag_index_key(t)));
                                        if j == i {
                                            lemma_index_key_injective(t, tg);
                                        }
                                    }
                                }
                            }
                        },
                        None => {
                            proof {
                                assert forall|t: Seq<char>|
                                    #[trigger] all.deep_view().contains(t) <==> exists|j: int|
                                        0 <= j < i + 1 && (#[trigger] items@[j] matches Ok(kv2) && kv2.0@
                                            == key_bytes(spec_tag_index_key(t))) by {
                                    if exists|j: int|
                                        0 <= j < i + 1 && (#[trigger] items@[j] matches Ok(kv2) && kv2.0@
                                            == key_bytes(spec_tag_index_key(t))) {
                                        let j = choose|j: int|
                                            0 <= j < i + 1 && (#[trigger] items@[j] matches Ok(kv2)
                                                && kv2.0@ == key_bytes(spec_tag_index_key(t)));
                                        if j == i {
                                            assert(key_str@ == spec_tag_index_key(t));
                                            assert(key_str@.take(prefix@.len() as int) =~= prefix@);
                                        }
                                    }
                                }
                            }
                        },
                    }
                },
            }
            i = i + 1;
        }
        proof {
            assert forall|t: Seq<char>| #[trigger] all.deep_view().contains(t) <==> self@.contains_key(
                key_bytes(spec_tag_index_key(t)),
            ) by {
                if self@.contains_key(key_bytes(spec_tag_index_key(t))) {
                    lemma_encode_concat(prefix_tag_index(), t);
                    let k = key_bytes(spec_tag_index_key(t));
                    assert(k.subrange(0, encode_utf8(prefix_tag_index()).len() as int) =~= encode_utf8(prefix_tag_index()));
                    assert(is_prefix(encode_utf8(prefix@), k));
                }
            }
        }
        Ok(all)
    }

    /// Adds one tag (normalised first) to inode `inode_id`; a tag that
    /// normalises to nothing changes nothing.
    pub fn add_tag_to_file(&mut self, inode_id: u64, filename: &str, tag: &str) -> (r: Result<(), String>)
        ensures
            normal_tag(tag@).len() == 0 ==> r is Ok && final(self)@ == old(self)@,
            normal_tag(tag@).len() > 0 && r is Ok ==> tags_of(old(self)@, inode_id) is Some
                && tags_set_to(
                old(self)@,
                final(self)@,
                inode_id,
                tags_of(old(self)@, inode_id).unwrap().push(normal_tag(tag@)),
            ),
    {
        let normalized_tag = normalize_tag(tag);
        if normalized_tag.as_str().is_empty() {
            return Ok(());
        }
        let mut tags = match self.get_file_tags(inode_id) {
            Ok(x) => x,
            Err(e) => return Err(e),
        };
        let ghost before = tags.deep_view();
        tags.push(normalized_tag);
        assert(tags.deep_view() =~= before.push(normal_tag(tag@)));
        self.set_file_tags(inode_id, filename, tags)
    }

    /// Removes one tag (normalised first) from inode `inode_id`; a tag that
    /// normalises to nothing changes nothing.
    pub fn remove_tag_from_file(&mut self, inode_id: u64, filename: &str, tag: &str) -> (r: Result<(), String>)
        ensures
            normal_tag(tag@).len() == 0 ==> r is Ok && final(self)@ == old(self)@,
            normal_tag(tag@).len() > 0 && r is Ok ==> tags_of(old(self)@, inode_id) is Some
                && tags_set_to(
                old(self)@,
                final(self)@,
                inode_id,
                remove_all(tags_of(old(self)@, inode_id).unwrap(), normal_tag(tag@)),
            ),
    {
        let normalized_tag = normalize_tag(tag);
        if normalized_tag.as_str().is_empty() {
            return Ok(());
        }
        let tags = match self.get_file_tags(inode_id) {
            Ok(x) => x,
            Err(e) => return Err(e),
        };
        let kept = without_text(&tags, &normalized_tag);
        self.set_file_tags(inode_id, filename, kept)
    }

    /// The inode that `path` names (walking directory entries from the root
    /// inode 1), or `None` when a component is missing.
    pub fn resolve_inode_by_path(&self, path: &str) -> (r: Result<Option<u64>, String>)
        ensures
            r matches Ok(x) ==> spec_resolve_path(self@, path@) == Some(x),
            spec_resolve_path(self@, path@) is None ==> r is Err,
            path_components(path@).len() == 0 ==> r == Ok::<Option<u64>, String>(Some(1)),
            spec_resolve_path(self@, path@) is Some ==> (r is Err ==> text_starts_with(r->Err_0@, "Database error: "@)),
    {
        let parts = split_path(path);
        let ghost ps = parts.deep_view();
        let mut current_inode: u64 = 1;
        let mut i: usize = 0;
        assert(ps.skip(0) =~= ps);
        while i < parts.len()
            invariant
                i <= parts@.len(),
                ps == parts.deep_view(),
                ps == path_components(path@),
                spec_resolve(self@, 1, ps) == spec_resolve(self@, current_inode, ps.skip(i as int)),
            decreases parts@.len() - i,
        {
            let key = Self::dirent_key(current_inode, parts[i].as_str());
            let ghost rest = ps.skip(i as int);
            assert(rest[0] == ps[i as int]);
            assert(rest.drop_first() =~= ps.skip(i + 1));
            let value = match db_get(&self.db, key.as_str().as_bytes()) {
                Ok(v) => v,
                Err(e) => return Err(db_error(&e)),
            };
            match Self::entry_target_from_stored(value) {
                Ok(None) => {
                    return Ok(None);
                },
                Ok(Some(c)) => {
                    current_inode = c;
                },
                Err(e) => {
                    proof {
                        assert(dirent_child(self@, current_inode, rest[0]) is None);
                    }
                    return Err(e);
                },
            }
            i = i + 1;
        }
        assert(ps.skip(parts@.len() as int) =~= Seq::<Seq<char>>::empty());
        Ok(Some(current_inode))
    }

    /// The inode that the stored directory entry `value` names (`None`: no
    /// entry stored): `Ok(None)` for none, the inode where the value
    /// decodes, an error where it does not.
    pub fn entry_target_from_stored(value: Option<Vec<u8>>) -> (r: Result<Option<u64>, String>)
        ensures
            match value {
                None => r == Ok::<Option<u64>, String>(None),
                Some(b) => match bincode_decode_u64(b@) {
                    Some(c) => r == Ok::<Option<u64>, String>(Some(c)),
                    None => r is Err && store_error_text(r->Err_0@),
                },
            },
    {
        proof {
            reveal_strlit("Dirent deserialization error: ");
        }
        match value {
            None => Ok(None),
            Some(bytes) => match decode_u64(bytes.as_slice()) {
                Ok(c) => Ok(Some(c)),
                Err(e) => {
                    let t = bincode_error_text(&e);
                    Err(message("Dirent deserialization error: ", t.as_str()))
                },
            },
        }
    }

    /// The last non-empty component of `path`, or `path` itself.
    fn file_name_of(path: &str) -> (name: String)
        ensures
            name@ == path_file_name(path@),
    {
        let parts = split_path(path);
        if parts.len() > 0 {
            let ghost ps = parts.deep_view();
            assert(parts@[parts@.len() - 1]@ == ps.last());
            parts[parts.len() - 1].clone()
        } else {
            String::from_str(path)
        }
    }

    /// Sets the tags of the inode that `path` names (see `set_file_tags`),
    /// recording the path's last component as the file name; returns the
    /// inode.
    pub fn set_file_tags_by_path(&mut self, path: &str, tags: Vec<String>) -> (r: Result<u64, String>)
        ensures
            spec_resolve_path(old(self)@, path@) matches Some(None) ==> r is Err,
            spec_resolve_path(old(self)@, path@) is None ==> r is Err,
            r matches Ok(id) ==> spec_resolve_path(old(self)@, path@) == Some(Some(id)) && tags_set_to(
                old(self)@,
                final(self)@,
                id,
                tags.deep_view(),
            ),
            normal_tag_set(tags.deep_view()) != Set::<Seq<char>>::empty() ==> (r matches Ok(id) ==> final(self)@[key_bytes(
                spec_tags_key(id),
            )] == bincode_tag_set(id, path_file_name(path@), tags_of(final(self)@, id).unwrap())),
            spec_resolve_path(old(self)@, path@) matches Some(None) ==> r is Err && final(self)@ == old(self)@ && (
            r->Err_0@ == "Path not found: "@ + path@ || text_starts_with(r->Err_0@, "Database error: "@)),
    {
        let found = match self.resolve_inode_by_path(path) {
            Ok(x) => x,
            Err(e) => return Err(e),
        };
        let inode_id = match found {
            Some(id) => id,
            None => {
                let e = message("Path not found: ", path);
                proof {
                    reveal_strlit("Path not found: ");
                }
                return Err(e);
            },
        };
        let filename = Self::file_name_of(path);
        match self.set_file_tags(inode_id, filename.as_str(), tags) {
            Ok(_) => {},
            Err(e) => return Err(e),
        }
        Ok(inode_id)
    }

    /// The entries whose key is `prefix` followed by a name: each name with
    /// the value stored under it, in ascending key order.
    fn scan_names(&self, prefix: &str) -> (r: Result<Vec<(String, Vec<u8>)>, String>)
        ensures
            r matches Ok(v) ==> forall|i: int|
                0 <= i < v@.len() ==> self@.contains_key(key_bytes(prefix@ + (#[trigger] v@[i]).0@))
                    && self@[key_bytes(prefix@ + v@[i].0@)] == v@[i].1@,
            r matches Ok(v) ==> forall|name: Seq<char>|
                #![trigger self@.contains_key(key_bytes(prefix@ + name))]
                self@.contains_key(key_bytes(prefix@ + name)) ==> entry_names(v@).contains(name),
            r matches Ok(v) ==> forall|i: int, j: int|
                0 <= i < j < v@.len() ==> (#[trigger] v@[i]).0@ != (#[trigger] v@[j]).0@,
            r is Err ==> store_error_text(r->Err_0@),
    {
        proof {
            reveal_strlit("Invalid UTF-8 key: ");
            reveal_strlit("Invalid key prefix: ");
        }
        let items = db_scan_prefix(&self.db, prefix.as_bytes());
        let mut out: Vec<(String, Vec<u8>)> = Vec::new();
        let mut i: usize = 0;
        while i < items.len()
            invariant
                i <= items@.len(),
                out@.len() == i,
                forall|a: int|
                    0 <= a < i ==> (#[trigger] items@[a] matches Ok(kv) && kv.0@ == key_bytes(
                        prefix@ + out@[a].0@,
                    ) && kv.1@ == out@[a].1@),
            decreases items@.len() - i,
        {
            match &items[i] {
                Err(e) => {
                    return Err(db_error(e));
                },
                Ok(kv) => {
                    let raw = kv.0.clone();
                    assert(raw@ == kv.0@);
                    let key_str = match string_from_utf8(raw) {
                        Ok(s) => s,
                        Err(e) => {
                            let t = utf8_error_text(&e);
                            proof {
                                reveal_strlit("Invalid UTF-8 key: ");
                            }
                            return Err(message("Invalid UTF-8 key: ", t.as_str()));
                        },
                    };
                    proof {
                        vstd::utf8::decode_utf8_encode_utf8(kv.0@);
                    }
                    let name = match strip_prefix_text(key_str.as_str(), prefix) {
                        Some(n) => n,
                        None => {
                            proof {
                                reveal_strlit("Invalid key prefix: ");
                            }
                            return Err(message("Invalid key prefix: ", key_str.as_str()));
                        },
                    };
                    let value = kv.1.clone();
                    assert(value@ == kv.1@);
                    out.push((name, value));
                },
            }
            i = i + 1;
        }
        proof {
            assert forall|a: int|
                0 <= a < out@.len() implies self@.contains_key(key_bytes(prefix@ + (#[trigger] out@[a]).0@))
                    && self@[key_bytes(prefix@ + out@[a].0@)] == out@[a].1@ by {
                assert(items@[a] is Ok);
            }
            assert forall|a: int, b: int|
                0 <= a < b < out@.len() implies (#[trigger] out@[a]).0@ != (#[trigger] out@[b]).0@ by {
                assert(items@[a] is Ok && items@[b] is Ok);
                if out@[a].0@ == out@[b].0@ {
                    if let Ok(ka) = items@[a] {
                        lemma_lex_order(ka.0@, ka.0@, ka.0@);
                    }
                }
            }
            assert forall|name: Seq<char>|
                #![trigger self@.contains_key(key_bytes(prefix@ + name))]
                self@.contains_key(key_bytes(prefix@ + name)) implies entry_names(out@).contains(name) by {
                lemma_encode_concat(prefix@, name);
                let k = key_bytes(prefix@ + name);
                assert(k.subrange(0, encode_utf8(prefix@).len() as int) =~= encode_utf8(prefix@));
                assert(is_prefix(encode_utf8(prefix@), k));
                assert(forall|j: int| 0 <= j < items@.len() ==> #[trigger] items@[j] is Ok);
                let j = choose|j: int| 0 <= j < items@.len() && (#[trigger] items@[j] matches Ok(kv) && kv.0@ == k);
                lemma_key_suffix(prefix@, out@[j].0@, name);
                assert(entry_names(out@)[j] == name);
            }
        }
        Ok(out)
    }

    /// Writes the database to disk; what it holds does not change.
    pub fn flush(&self) -> (r: Result<(), String>)
        ensures
            r is Err ==> store_error_text(r->Err_0@),
    {
        match db_flush(&self.db) {
            Ok(()) => Ok(()),
            Err(e) => Err(flush_error(&e)),
        }
    }

    /// Stores the record of an inode under `ino_meta:{id}`.
    pub fn save_inode(&mut self, inode: &InodeMetadata) -> (r: Result<(), String>)
        ensures
            same_except(old(self)@, final(self)@, key_bytes(spec_inode_key(inode.id))),
            r is Ok ==> final(self)@ == old(self)@.insert(
                key_bytes(spec_inode_key(inode.id)),
                bincode_inode(inode.id, inode.parent_id, inode.name@, inode.is_dir, inode.attr.size),
            ),
            r is Ok ==> inode_record(final(self)@, inode.id) == Some(Some(inode_tuple(*inode))),
            r is Err ==> store_error_text(r->Err_0@),
    {
        let key = Self::inode_key(inode.id);
        let encoded = encode_inode(
            inode.id,
            inode.parent_id,
            inode.name.as_str(),
            inode.is_dir,
            inode.attr.size,
        ).unwrap();
        match db_insert(&mut self.db, key.as_str().as_bytes(), encoded) {
            Ok(()) => {},
            Err(e) => return Err(db_error(&e)),
        }
        self.flush()
    }

    /// The record of inode `inode_id`, if there is one.
    pub fn load_inode(&self, inode_id: u64) -> (r: Result<Option<InodeMetadata>, String>)
        ensures
            r matches Ok(o) ==> inode_record(self@, inode_id) == Some(
                match o {
                    Some(x) => Some(inode_tuple(x)),
                    None => None,
                },
            ),
            inode_record(self@, inode_id) is None ==> r is Err,
            r is Err ==> store_error_text(r->Err_0@),
    {
        proof {
            reveal_strlit("Inode deserialization error: ");
        }
        let key = Self::inode_key(inode_id);
        let value = match db_get(&self.db, key.as_str().as_bytes()) {
            Ok(v) => v,
            Err(e) => return Err(db_error(&e)),
        };
        Self::inode_from_stored(value)
    }

    /// The inode record that the stored value `value` holds (`None`: no
    /// value stored): `Ok(None)` for none, the record where the value
    /// decodes, an error where it does not.
    pub fn inode_from_stored(value: Option<Vec<u8>>) -> (r: Result<Option<InodeMetadata>, String>)
        ensures
            match value {
                None => r matches Ok(None),
                Some(b) => match bincode_decode_inode(b@) {
                    Some(t) => r matches Ok(Some(x)) && inode_tuple(x) == t,
                    None => r is Err && store_error_text(r->Err_0@),
                },
            },
    {
        proof {
            reveal_strlit("Inode deserialization error: ");
        }
        match value {
            Some(bytes) => match decode_inode(bytes.as_slice()) {
                Ok(t) => Ok(
                    Some(
                        InodeMetadata {
                            id: t.0,
                            parent_id: t.1,
                            name: t.2,
                            is_dir: t.3,
                            attr: InodeAttr { size: t.4 },
                        },
                    ),
                ),
                Err(e) => {
                    let t = bincode_error_text(&e);
                    Err(message("Inode deserialization error: ", t.as_str()))
                },
            },
            None => Ok(None),
        }
    }

    /// Every inode record that can be read, in key order; records that do
    /// not decode and read errors are passed over.
    pub fn load_all_inodes(&self) -> (v: Vec<InodeMetadata>)
        ensures
            forall|i: int| 0 <= i < v@.len() ==> inode_stored(self@, inode_tuple(#[trigger] v@[i])),
    {
        let prefix = string_of("ino_meta:");
        proof {
            reveal_strlit("ino_meta:");
            assert(prefix@ =~= prefix_inode());
        }
        let items = db_scan_prefix(&self.db, prefix.as_str().as_bytes());
        let v = Self::inodes_from_scan(&items);
        proof {
            assert forall|a: int| 0 <= a < v@.len() implies inode_stored(self@, inode_tuple(#[trigger] v@[a])) by {
                let d = decoded_inodes(scan_view(items@));
                assert(v@.map_values(|x: InodeMetadata| inode_tuple(x))[a] == inode_tuple(v@[a]));
                assert(d.contains(inode_tuple(v@[a])));
                lemma_decoded_inode_from(scan_view(items@), inode_tuple(v@[a]));
                let j = choose|j: int|
                    0 <= j < scan_view(items@).len() && inode_read_as(#[trigger] scan_view(items@)[j], inode_tuple(v@[a]));
                assert(items@[j] is Ok);
                if let Ok(kv) = items@[j] {
                    assert(self@.contains_key(kv.0@));
                }
            }
        }
        v
    }

    /// The inode records that the scanned `items` decode to, in the order
    /// read; error items and values that do not decode are passed over.
    pub fn inodes_from_scan(items: &Vec<Result<(Vec<u8>, Vec<u8>), sled::Error>>) -> (v: Vec<InodeMetadata>)
        ensures
            v@.map_values(|x: InodeMetadata| inode_tuple(x)) == decoded_inodes(scan_view(items@)),
    {
        let mut out: Vec<InodeMetadata> = Vec::new();
        let mut i: usize = 0;
        while i < items.len()
            invariant
                i <= items@.len(),
                out@.map_values(|x: InodeMetadata| inode_tuple(x)) == decoded_inodes(scan_view(items@).take(i as int)),
            decreases items@.len() - i,
        {
            let ghost before = out@;
            assert(scan_view(items@).take(i + 1).drop_last() =~= scan_view(items@).take(i as int));
            assert(scan_view(items@).take(i + 1).last() == scan_view(items@)[i as int]);
            if let Ok(kv) = &items[i] {
                if let Ok(t) = decode_inode(kv.1.as_slice()) {
                    let x = InodeMetadata {
                        id: t.0,
                        parent_id: t.1,
                        name: t.2,
                        is_dir: t.3,
                        attr: InodeAttr { size: t.4 },
                    };
                    out.push(x);
                    assert(out@.map_values(|x: InodeMetadata| inode_tuple(x)) =~= before.map_values(|x: InodeMetadata| inode_tuple(x)).push(inode_tuple(x)));
                }
            }
            i = i + 1;
        }
        assert(scan_view(items@).take(items@.len() as int) =~= scan_view(items@));
        out
    }

    /// Records that `name` in directory `parent_id` is inode
    /// `child_inode_id`.
    pub fn save_dirent(&mut self, parent_id: u64, name: &str, child_inode_id: u64) -> (r: Result<(), String>)
        ensures
            r is Ok ==> final(self)@ == old(self)@.insert(
                key_bytes(spec_dirent_key(parent_id, name@)),
                bincode_u64(child_inode_id),
            ),
            r is Ok ==> dirent_child(final(self)@, parent_id, name@) == Some(Some(child_inode_id)),
            r is Err ==> store_error_text(r->Err_0@),
    {
        let key = Self::dirent_key(parent_id, name);
        let encoded = encode_u64(child_inode_id).unwrap();
        match db_insert(&mut self.db, key.as_str().as_bytes(), encoded) {
            Ok(()) => {},
            Err(e) => return Err(db_error(&e)),
        }
        self.flush()
    }

    /// Removes the stored directory entry `name` of `parent` and every tag
    /// of inode `id`, one after the other, whatever the first gave; tells
    /// whether both succeeded, in which case the store has forgotten both.
    pub fn forget_entry(&mut self, parent: u64, name: &str, id: u64) -> (done: bool)
        ensures
            done ==> entry_forgotten(final(self)@, parent, name@, id),
    {
        let a = self.delete_dirent(parent, name);
        let ghost mid = self@;
        let b = self.delete_file_tags(id);
        proof {
            if a is Ok && b is Ok {
                let prev = tags_of(mid, id).unwrap();
                lemma_dirent_not_tag_key(parent, name@, id, Seq::empty(), prev);
                let k = key_bytes(spec_dirent_key(parent, name@));
                assert(self@.contains_key(k) == mid.contains_key(k));
            }
        }
        a.is_ok() && b.is_ok()
    }

    /// Removes the entry `name` from directory `parent_id`.
    pub fn delete_dirent(&mut self, parent_id: u64, name: &str) -> (r: Result<(), String>)
        ensures
            same_except(old(self)@, final(self)@, key_bytes(spec_dirent_key(parent_id, name@))),
            r is Ok ==> final(self)@ == old(self)@.remove(key_bytes(spec_dirent_key(parent_id, name@))),
            r is Ok ==> dirent_child(final(self)@, parent_id, name@) == Some(None::<u64>),
    {
        let key = Self::dirent_key(parent_id, name);
        match db_remove(&mut self.db, key.as_str().as_bytes()) {
            Ok(()) => {},
            Err(e) => return Err(db_error(&e)),
        }
        self.flush()
    }

    /// The entries of directory `parent_id`, in key order: every stored
    /// entry once, each with the inode it names.
    pub fn list_dirents(&self, parent_id: u64) -> (r: Result<Vec<Dirent>, String>)
        ensures
            r matches Ok(v) ==> forall|i: int|
                0 <= i < v@.len() ==> (#[trigger] v@[i]).parent_id == parent_id && dirent_child(
                    self@,
                    parent_id,
                    v@[i].name@,
                ) == Some(Some(v@[i].child_inode_id)),
            r matches Ok(v) ==> forall|name: Seq<char>|
                #![trigger dirent_child(self@, parent_id, name)]
                dirent_child(self@, parent_id, name) != Some(None::<u64>) ==> dirent_names(v@).contains(
                    name,
                ),
            r matches Ok(v) ==> forall|i: int, j: int|
                0 <= i < j < v@.len() ==> (#[trigger] v@[i]).name@ != (#[trigger] v@[j]).name@,
            r is Err ==> store_error_text(r->Err_0@),
    {
        let prefix = Self::dirent_prefix(parent_id);
        let entries = match self.scan_names(prefix.as_str()) {
            Ok(e) => e,
            Err(e) => return Err(e),
        };
        let r = Self::dirents_from_entries(parent_id, entries);
        proof {
            if r is Ok {
                let v = r->Ok_0;
                assert forall|i: int| 0 <= i < v@.len() implies (#[trigger] v@[i]).parent_id == parent_id && dirent_child(
                    self@,
                    parent_id,
                    v@[i].name@,
                ) == Some(Some(v@[i].child_inode_id)) by {
                    assert(self@.contains_key(key_bytes(prefix@ + entries@[i].0@)));
                    assert(spec_dirent_key(parent_id, v@[i].name@) == prefix@ + entries@[i].0@);
                }
                assert forall|name: Seq<char>|
                    #![trigger dirent_child(self@, parent_id, name)]
                    dirent_child(self@, parent_id, name) != Some(None::<u64>) implies dirent_names(v@).contains(name) by {
                    assert(spec_dirent_key(parent_id, name) == prefix@ + name);
                    assert(self@.contains_key(key_bytes(prefix@ + name)));
                    assert(entry_names(entries@).contains(name));
                    let j = choose|j: int| 0 <= j < entry_names(entries@).len() && entry_names(entries@)[j] == name;
                    assert(dirent_names(v@)[j] == name);
                }
                assert forall|a: int, b: int|
                    0 <= a < b < v@.len() implies (#[trigger] v@[a]).name@ != (#[trigger] v@[b]).name@ by {
                    assert(entries@[a].0@ != entries@[b].0@);
                }
            }
        }
        r
    }

    /// The entries of directory `parent_id` from what a scan of its entries
    /// read (each name with the bytes stored under it): each name with the
    /// inode its bytes decode to, in order; an error when some bytes do
    /// not decode.
    pub fn dirents_from_entries(parent_id: u64, entries: Vec<(String, Vec<u8>)>) -> (r: Result<Vec<Dirent>, String>)
        ensures
            r is Ok <==> forall|a: int| 0 <= a < entries@.len() ==> bincode_decode_u64((#[trigger] entries@[a]).1@) is Some,
            r matches Ok(v) ==> v@.len() == entries@.len() && forall|a: int|
                0 <= a < v@.len() ==> (#[trigger] v@[a]).parent_id == parent_id && v@[a].name@ == entries@[a].0@
                    && bincode_decode_u64(entries@[a].1@) == Some(v@[a].child_inode_id),
            r is Err ==> store_error_text(r->Err_0@),
    {
        proof {
            reveal_strlit("Dirent deserialization error: ");
        }
        let mut out: Vec<Dirent> = Vec::new();
        let mut i: usize = 0;
        while i < entries.len()
            invariant
                i <= entries@.len(),
                out@.len() == i,
                forall|a: int|
                    0 <= a < i ==> (#[trigger] out@[a]).parent_id == parent_id && out@[a].name@ == entries@[a].0@
                        && bincode_decode_u64(entries@[a].1@) == Some(out@[a].child_inode_id),
            decreases entries@.len() - i,
        {
            let child = match decode_u64(entries[i].1.as_slice()) {
                Ok(c) => c,
                Err(e) => {
                    let t = bincode_error_text(&e);
                    proof {
                        reveal_strlit("Dirent deserialization error: ");
                    }
                    return Err(message("Dirent deserialization error: ", t.as_str()));
                },
            };
            let name = entries[i].0.clone();
            let ghost before = out@;
            out.push(Dirent { parent_id, name, child_inode_id: child });
            proof {
                assert forall|a: int|
                    0 <= a < i + 1 implies (#[trigger] out@[a]).parent_id == parent_id && out@[a].name@ == entries@[a].0@
                        && bincode_decode_u64(entries@[a].1@) == Some(out@[a].child_inode_id) by {
                    if a < i {
                        assert(out@[a] == before[a]);
                    }
                }
            }
            i = i + 1;
        }
        proof {
            assert forall|a: int| 0 <= a < entries@.len() implies bincode_decode_u64((#[trigger] entries@[a]).1@) is Some by {
                assert(bincode_decode_u64(entries@[a].1@) == Some(out@[a].child_inode_id));
            }
        }
        Ok(out)
    }

    /// Stores the recipe of inode `inode_id` under `ino_recipe:{id}`.
    pub fn save_recipe(&mut self, inode_id: u64, recipe: &FileRecipe) -> (r: Result<(), String>)
        ensures
            r is Ok ==> final(self)@ == old(self)@.insert(
                key_bytes(spec_recipe_key(inode_id)),
                bincode_recipe(recipe.file_size, recipe.chunks.deep_view(), kind_index(recipe.kind)),
            ),
            r is Ok ==> recipe_record(final(self)@, inode_id) == Some(Some(recipe_tuple(*recipe))),
            r is Err ==> store_error_text(r->Err_0@),
    {
        let key = Self::recipe_key(inode_id);
        let kind: u32 = match recipe.kind {
            FileKind::File => 0,
            FileKind::Directory => 1,
        };
        let encoded = encode_recipe(recipe.file_size, &recipe.chunks, kind).unwrap();
        match db_insert(&mut self.db, key.as_str().as_bytes(), encoded) {
            Ok(()) => {},
            Err(e) => return Err(db_error(&e)),
        }
        self.flush()
    }

    /// The recipe of inode `inode_id`, if there is one.
    pub fn load_recipe(&self, inode_id: u64) -> (r: Result<Option<FileRecipe>, String>)
        ensures
            r matches Ok(o) ==> recipe_record(self@, inode_id) == Some(
                match o {
                    Some(x) => Some(recipe_tuple(x)),
                    None => None,
                },
            ),
            recipe_record(self@, inode_id) is None ==> r is Err,
            r is Err ==> store_error_text(r->Err_0@),
    {
        proof {
            reveal_strlit("Recipe deserialization error: ");
            reveal_strlit("Recipe deserialization error: unknown file kind");
        }
        let key = Self::recipe_key(inode_id);
        let value = match db_get(&self.db, key.as_str().as_bytes()) {
            Ok(v) => v,
            Err(e) => return Err(db_error(&e)),
        };
        Self::recipe_from_stored(value)
    }

    /// The recipe that the stored value `value` holds (`None`: no value
    /// stored): `Ok(None)` for none, the recipe where the value decodes
    /// with a known kind, an error otherwise.
    pub fn recipe_from_stored(value: Option<Vec<u8>>) -> (r: Result<Option<FileRecipe>, String>)
        ensures
            match value {
                None => r matches Ok(None),
                Some(b) => match bincode_decode_recipe(b@) {
                    Some(t) => if t.2 == 0 || t.2 == 1 {
                        r matches Ok(Some(x)) && recipe_tuple(x) == t
                    } else {
                        r is Err && store_error_text(r->Err_0@)
                    },
                    None => r is Err && store_error_text(r->Err_0@),
                },
            },
    {
        proof {
            reveal_strlit("Recipe deserialization error: ");
            reveal_strlit("Recipe deserialization error: unknown file kind");
        }
        match value {
            Some(bytes) => match decode_recipe(bytes.as_slice()) {
                Ok(t) => {
                    let kind = if t.2 == 0 {
                        FileKind::File
                    } else if t.2 == 1 {
                        FileKind::Directory
                    } else {
                        return Err(string_of("Recipe deserialization error: unknown file kind"));
                    };
                    Ok(Some(FileRecipe { file_size: t.0, chunks: t.1, kind }))
                },
                Err(e) => {
                    let t = bincode_error_text(&e);
                    Err(message("Recipe deserialization error: ", t.as_str()))
                },
            },
            None => Ok(None),
        }
    }

    /// The chunk addresses to read to rebuild inode `inode_id`: those of its
    /// recipe, none for a directory; an error when it has no recipe.
    pub fn recipe_chunks(&self, inode_id: u64) -> (r: Result<Vec<String>, String>)
        ensures
            r matches Ok(c) ==> (recipe_record(self@, inode_id) matches Some(Some(t)) && if t.2 == 1 {
                c.deep_view() == Seq::<Seq<char>>::empty()
            } else {
                c.deep_view() == t.1
            }),
            recipe_record(self@, inode_id) matches Some(None) ==> r is Err,
            recipe_record(self@, inode_id) is None ==> r is Err,
    {
        let recipe = match self.load_recipe(inode_id) {
            Ok(Some(rec)) => rec,
            Ok(None) => {
                let mut msg = string_of("Recipe not found for inode ");
                push_decimal(&mut msg, inode_id);
                return Err(msg);
            },
            Err(e) => return Err(e),
        };
        if recipe.kind == FileKind::Directory {
            let none: Vec<String> = Vec::new();
            assert(none.deep_view() =~= Seq::<Seq<char>>::empty());
            return Ok(none);
        }
        Ok(recipe.chunks)
    }

    /// Stores the record of snapshot `name` under `snapshot:{name}`.
    pub fn save_snapshot(&mut self, name: &str, timestamp: u64, root_id: u64) -> (r: Result<(), String>)
        ensures
            r is Ok ==> final(self)@ == old(self)@.insert(
                key_bytes(spec_snapshot_key(name@)),
                bincode_snapshot(name@, timestamp, root_id),
            ),
            r is Err ==> store_error_text(r->Err_0@),
    {
        let key = Self::snapshot_key(name);
        let encoded = encode_snapshot(name, timestamp, root_id).unwrap();
        match db_insert(&mut self.db, key.as_str().as_bytes(), encoded) {
            Ok(()) => {},
            Err(e) => return Err(db_error(&e)),
        }
        self.flush()
    }

    /// Every snapshot record that can be read, in key order; records that
    /// do not decode and read errors are passed over.
    pub fn load_snapshots(&self) -> (v: Vec<SnapshotMetadata>)
        ensures
            forall|i: int| 0 <= i < v@.len() ==> snapshot_stored(self@, snapshot_tuple(#[trigger] v@[i])),
    {
        let (v, _) = self.load_snapshots_checked();
        v
    }

    /// What `load_snapshots` reads, and whether the scan read every record:
    /// when it did, every stored snapshot record that decodes is listed.
    pub fn load_snapshots_checked(&self) -> (r: (Vec<SnapshotMetadata>, bool))
        ensures
            forall|i: int| 0 <= i < r.0@.len() ==> snapshot_stored(self@, snapshot_tuple(#[trigger] r.0@[i])),
            r.1 ==> forall|t: (Seq<char>, u64, u64)|
                #[trigger] snapshot_stored(self@, t) ==> exists|j: int| 0 <= j < r.0@.len() && snapshot_tuple(r.0@[j]) == t,
    {
        let prefix = string_of("snapshot:");
        proof {
            reveal_strlit("snapshot:");
            assert(prefix@ =~= prefix_snapshot());
        }
        let items = db_scan_prefix(&self.db, prefix.as_str().as_bytes());
        let v = Self::snapshots_from_scan(&items);
        let mut all_read = true;
        let mut i: usize = 0;
        while i < items.len()
            invariant
                i <= items@.len(),
                all_read <==> forall|a: int| 0 <= a < i ==> #[trigger] items@[a] is Ok,
            decreases items@.len() - i,
        {
            if items[i].is_err() {
                all_read = false;
            }
            i = i + 1;
        }
        proof {
            let d = decoded_snapshots(scan_view(items@));
            assert forall|a: int| 0 <= a < v@.len() implies snapshot_stored(self@, snapshot_tuple(#[trigger] v@[a])) by {
                assert(v@.map_values(|x: SnapshotMetadata| snapshot_tuple(x))[a] == snapshot_tuple(v@[a]));
                assert(d.contains(snapshot_tuple(v@[a])));
                lemma_decoded_snapshot_from(scan_view(items@), snapshot_tuple(v@[a]));
                let j = choose|j: int|
                    0 <= j < scan_view(items@).len() && snapshot_read_as(#[trigger] scan_view(items@)[j], snapshot_tuple(v@[a]));
                assert(items@[j] is Ok);
                if let Ok(kv) = items@[j] {
                    assert(self@.contains_key(kv.0@));
                }
            }
            if all_read {
                assert forall|t: (Seq<char>, u64, u64)|
                    #[trigger] snapshot_stored(self@, t) implies exists|j: int| 0 <= j < v@.len() && snapshot_tuple(v@[j]) =~= t by {
                    let k = choose|k: Seq<u8>|
                        #[trigger] self@.contains_key(k) && is_prefix(key_bytes(prefix_snapshot()), k)
                            && bincode_decode_snapshot(self@[k]) == Some(t);
                    assert(forall|a: int| 0 <= a < items@.len() ==> #[trigger] items@[a] is Ok);
                    assert(encode_utf8(prefix@) == key_bytes(prefix_snapshot()));
                    let a = choose|a: int| 0 <= a < items@.len() && (#[trigger] items@[a] matches Ok(kv) && kv.0@ == k);
                    assert(scan_view(items@)[a] == Some((k, self@[k])));
                    lemma_decoded_snapshot_to(scan_view(items@), a, t);
                    let j = choose|j: int| 0 <= j < d.len() && d[j] == t;
                    assert(v@.map_values(|x: SnapshotMetadata| snapshot_tuple(x))[j] == snapshot_tuple(v@[j]));
                    assert(v@.map_values(|x: SnapshotMetadata| snapshot_tuple(x)).len() == v@.len());
                    assert(0 <= j < v@.len());
                    assert(snapshot_tuple(v@[j]) =~= t);
                }
            }
        }
        let r = (v, all_read);
        assert(r.0@ == v@);
        r
    }

    /// The snapshot records that the scanned `items` decode to, in the
    /// order read; error items and values that do not decode are passed
    /// over.
    pub fn snapshots_from_scan(items: &Vec<Result<(Vec<u8>, Vec<u8>), sled::Error>>) -> (v: Vec<SnapshotMetadata>)
        ensures
            v@.map_values(|x: SnapshotMetadata| snapshot_tuple(x)) == decoded_snapshots(scan_view(items@)),
    {
        let mut out: Vec<SnapshotMetadata> = Vec::new();
        let mut i: usize = 0;
        while i < items.len()
            invariant
                i <= items@.len(),
                out@.map_values(|x: SnapshotMetadata| snapshot_tuple(x)) == decoded_snapshots(scan_view(items@).take(i as int)),
            decreases items@.len() - i,
        {
            let ghost before = out@;
            assert(scan_view(items@).take(i + 1).drop_last() =~= scan_view(items@).take(i as int));
            assert(scan_view(items@).take(i + 1).last() == scan_view(items@)[i as int]);
            if let Ok(kv) = &items[i] {
                if let Ok(t) = decode_snapshot(kv.1.as_slice()) {
                    let x = SnapshotMetadata { name: t.0, timestamp: t.1, root_id: t.2 };
                    out.push(x);
                    assert(out@.map_values(|x: SnapshotMetadata| snapshot_tuple(x)) =~= before.map_values(|x: SnapshotMetadata| snapshot_tuple(x)).push(snapshot_tuple(x)));
                }
            }
            i = i + 1;
        }
        assert(scan_view(items@).take(items@.len() as int) =~= scan_view(items@));
        out
    }

    /// Removes the record of snapshot `name`.
    pub fn delete_snapshot(&mut self, name: &str) -> (r: Result<(), String>)
        ensures
            r is Ok ==> final(self)@ == old(self)@.remove(key_bytes(spec_snapshot_key(name@))),
            same_except(old(self)@, final(self)@, key_bytes(spec_snapshot_key(name@))),
    {
        let key = Self::snapshot_key(name);
        match db_remove(&mut self.db, key.as_str().as_bytes()) {
            Ok(()) => {},
            Err(e) => return Err(db_error(&e)),
        }
        self.flush()
    }

    /// The chunk addresses that some stored recipe lists, ascending; stored
    /// values that do not read as recipes are passed over.
    pub fn active_chunk_hashes(&self) -> (r: Result<Vec<String>, String>)
        ensures
            r matches Ok(v) ==> sorted_texts(v.deep_view()) && forall|c: Seq<char>|
                #[trigger] v.deep_view().contains(c) <==> chunk_in_use(self@, c),
    {
        let prefix = string_of("ino_recipe:");
        proof {
            reveal_strlit("ino_recipe:");
            assert(prefix@ =~= prefix_recipe());
        }
        let items = db_scan_prefix(&self.db, prefix.as_str().as_bytes());
        let mut active: Vec<String> = Vec::new();
        proof {
            assert(active.deep_view() =~= Seq::<Seq<char>>::empty());
        }
        let mut i: usize = 0;
        while i < items.len()
            invariant
                i <= items@.len(),
                prefix@ == prefix_recipe(),
                forall|j: int|
                    0 <= j < items@.len() ==> (#[trigger] items@[j] matches Ok(kv) ==> is_prefix(
                        encode_utf8(prefix@),
                        kv.0@,
                    ) && self@.contains_key(kv.0@) && self@[kv.0@] == kv.1@),
                forall|j: int| 0 <= j < i ==> #[trigger] items@[j] is Ok,
                sorted_texts(active.deep_view()),
                forall|c: Seq<char>|
                    #[trigger] active.deep_view().contains(c) <==> exists|j: int|
                        0 <= j < i && (#[trigger] items@[j] matches Ok(kv) && (bincode_decode_recipe(
                            kv.1@,
                        ) matches Some(t) && t.2 <= 1 && t.1.contains(c))),
            decreases items@.len() - i,
        {
            let ghost before = active.deep_view();
            match &items[i] {
                Err(e) => return Err(db_error(e)),
                Ok(kv) => {
                    match decode_recipe(kv.1.as_slice()) {
                        Ok(t) => {
                            if t.2 <= 1 {
                                let ghost cs = t.1.deep_view();
                                let mut k: usize = 0;
                                while k < t.1.len()
                                    invariant
                                        k <= t.1@.len(),
                                        cs == t.1.deep_view(),
                                        sorted_texts(active.deep_view()),
                                        forall|c: Seq<char>|
                                            #[trigger] active.deep_view().contains(c) <==> before.contains(c)
                                                || cs.take(k as int).contains(c),
                                    decreases t.1@.len() - k,
                                {
                                    let ghost b2 = active.deep_view();
                                    insert_text_sorted(&mut active, t.1[k].clone());
                                    proof {
                                        lemma_take_contains(cs, k as int);
                                        assert forall|c: Seq<char>| #[trigger] active.deep_view().contains(c) <==> before.contains(c) || cs.take(k + 1).contains(c) by {
                                            assert(active.deep_view().contains(c) == active.deep_view().to_set().contains(c));
                                            assert(b2.contains(c) == b2.to_set().contains(c));
                                        }
                                    }
                                    k = k + 1;
                                }
                                proof {
                                    assert(cs.take(t.1@.len() as int) =~= cs);
                                }
                            }
                        },
                        Err(_) => {},
                    }
                    proof {
                        assert forall|c: Seq<char>|
                            #[trigger] active.deep_view().contains(c) <==> exists|j: int|
                                0 <= j < i + 1 && (#[trigger] items@[j] matches Ok(kv2) && (bincode_decode_recipe(
                                    kv2.1@,
                                ) matches Some(t) && t.2 <= 1 && t.1.contains(c))) by {
                            if exists|j: int|
                                0 <= j < i + 1 && (#[trigger] items@[j] matches Ok(kv2) && (bincode_decode_recipe(
                                    kv2.1@,
                                ) matches Some(t) && t.2 <= 1 && t.1.contains(c))) {
                                let j = choose|j: int|
                                    0 <= j < i + 1 && (#[trigger] items@[j] matches Ok(kv2) && (bincode_decode_recipe(
                                        kv2.1@,
                                    ) matches Some(t) && t.2 <= 1 && t.1.contains(c)));
                            }
                        }
                    }
                },
            }
            i = i + 1;
        }
        proof {
            assert forall|c: Seq<char>| #[trigger] active.deep_view().contains(c) <==> chunk_in_use(self@, c) by {
                if active.deep_view().contains(c) {
                    let j = choose|j: int|
                        0 <= j < i && (#[trigger] items@[j] matches Ok(kv) && (bincode_decode_recipe(
                            kv.1@,
                        ) matches Some(t) && t.2 <= 1 && t.1.contains(c)));
                    if let Ok(kv) = items@[j] {
                        assert(self@.contains_key(kv.0@));
                    }
                }
                if chunk_in_use(self@, c) {
                    let k = choose|k: Seq<u8>|
                        #[trigger] self@.contains_key(k) && is_prefix(key_bytes(prefix_recipe()), k) && (
                        bincode_decode_recipe(self@[k]) matches Some(t) && t.2 <= 1 && t.1.contains(c));
                    let j = choose|j: int| 0 <= j < items@.len() && (#[trigger] items@[j] matches Ok(kv) && kv.0@ == k);
                    assert(items@[j] is Ok);
                }
            }
        }
        Ok(active)
    }

    /// The chunk addresses of `all_chunks` that `active` does not hold, in
    /// order: what garbage collection deletes.
    pub fn orphaned_chunks(all_chunks: &Vec<String>, active: &Vec<String>) -> (out: Vec<String>)
        ensures
            out.deep_view() == unused(all_chunks.deep_view(), active.deep_view()),
            forall|c: Seq<char>|
                #[trigger] out.deep_view().contains(c) <==> (all_chunks.deep_view().contains(c)
                    && !active.deep_view().contains(c)),
    {
        retain_unused(all_chunks, active)
    }

    /// Every record in the database, in key order: its key as text and the
    /// recipe it holds, if its value reads as one; read errors are passed
    /// over.
    pub fn inspect_records(&self) -> (v: Vec<(String, Option<FileRecipe>)>)
        ensures
            forall|i: int|
                0 <= i < v@.len() ==> record_shown(
                    self@,
                    (#[trigger] v@[i]).0@,
                    match v@[i].1 {
                        Some(x) => Some(recipe_tuple(x)),
                        None => None,
                    },
                ),
    {
        let empty: Vec<u8> = Vec::new();
        let items = db_scan_prefix(&self.db, empty.as_slice());
        let mut out: Vec<(String, Option<FileRecipe>)> = Vec::new();
        let mut i: usize = 0;
        while i < items.len()
            invariant
                i <= items@.len(),
                forall|j: int|
                    0 <= j < items@.len() ==> (#[trigger] items@[j] matches Ok(kv) ==> self@.contains_key(kv.0@)
                        && self@[kv.0@] == kv.1@),
                forall|a: int|
                    0 <= a < out@.len() ==> record_shown(
                        self@,
                        (#[trigger] out@[a]).0@,
                        match out@[a].1 {
                            Some(x) => Some(recipe_tuple(x)),
                            None => None,
                        },
                    ),
            decreases items@.len() - i,
        {
            if let Ok(kv) = &items[i] {
                let key_text = string_from_utf8_lossy(kv.0.as_slice());
                let parsed: Option<FileRecipe> = match decode_recipe(kv.1.as_slice()) {
                    Ok(t) => {
                        if t.2 == 0 {
                            Some(FileRecipe { file_size: t.0, chunks: t.1, kind: FileKind::File })
                        } else if t.2 == 1 {
                            Some(FileRecipe { file_size: t.0, chunks: t.1, kind: FileKind::Directory })
                        } else {
                            None
                        }
                    },
                    Err(_) => None,
                };
                proof {
                    assert(self@.contains_key(kv.0@));
                    assert(record_shown(
                        self@,
                        key_text@,
                        match parsed {
                            Some(x) => Some(recipe_tuple(x)),
                            None => None,
                        },
                    ));
                }
                let ghost before = out@;
                out.push((key_text, parsed));
                proof {
                    assert forall|a: int|
                        0 <= a < out@.len() implies record_shown(
                            self@,
                            (#[trigger] out@[a]).0@,
                            match out@[a].1 {
                                Some(x) => Some(recipe_tuple(x)),
                                None => None,
                            },
                        ) by {
                        if a < before.len() {
                            assert(out@[a] == before[a]);
                        }
                    }
                }
            }
            i = i + 1;
        }
        out
    }

    /// Hands out the next legacy inode id and advances the counter; the
    /// counter starts at `first_legacy_ino()`. The last id a `u64` can hold
    /// is never handed out: the counter could not move past it.
    fn get_next_legacy_ino(&mut self) -> (r: Result<u64, String>)
        ensures
            r matches Ok(c) ==> counter_value(old(self)@) == Some(c) && c < u64::MAX
                && final(self)@ == old(self)@.insert(key_bytes(counter_key()), bincode_u64((c + 1) as u64)),
            counter_value(old(self)@) is None ==> r is Err,
            counter_value(old(self)@) == Some(u64::MAX) ==> r is Err,
    {
        let key = string_of("legacy:next_ino");
        proof {
            reveal_strlit("legacy:next_ino");
            assert(key@ =~= counter_key());
        }
        let value = match db_get(&self.db, key.as_str().as_bytes()) {
            Ok(v) => v,
            Err(e) => return Err(db_error(&e)),
        };
        let current: u64 = match value {
            Some(bytes) => match decode_u64(bytes.as_slice()) {
                Ok(c) => c,
                Err(e) => {
                    let t = bincode_error_text(&e);
                    return Err(message("Counter deserialization error: ", t.as_str()));
                },
            },
            None => 1_000_000,
        };
        if current == u64::MAX {
            return Err(string_of("Legacy inode counter exhausted"));
        }
        let next = current + 1;
        let encoded = encode_u64(next).unwrap();
        match db_insert(&mut self.db, key.as_str().as_bytes(), encoded) {
            Ok(()) => {},
            Err(e) => return Err(db_error(&e)),
        }
        Ok(current)
    }

    /// The inode that the legacy name `filename` refers to, creating the
    /// name with a fresh id from the counter when it is new.
    pub fn assign_legacy_inode(&mut self, filename: &str) -> (r: Result<u64, String>)
        ensures
            legacy_record(old(self)@, filename@) is None ==> r is Err,
            r matches Ok(id) ==> match legacy_record(old(self)@, filename@) {
                Some(Some(x)) => id == x && final(self)@ == old(self)@,
                Some(None) => counter_value(old(self)@) == Some(id) && id < u64::MAX && final(self)@
                    == old(self)@.insert(key_bytes(counter_key()), bincode_u64((id + 1) as u64)).insert(
                    key_bytes(spec_legacy_key(filename@)),
                    bincode_u64(id),
                ),
                None => false,
            },
    {
        let legacy_key = Self::get_legacy_key(filename);
        let value = match db_get(&self.db, legacy_key.as_str().as_bytes()) {
            Ok(v) => v,
            Err(e) => return Err(db_error(&e)),
        };
        match value {
            Some(bytes) => match decode_u64(bytes.as_slice()) {
                Ok(id) => Ok(id),
                Err(e) => {
                    let t = bincode_error_text(&e);
                    Err(message("Legacy inode deserialization error: ", t.as_str()))
                },
            },
            None => {
                let id = match self.get_next_legacy_ino() {
                    Ok(id) => id,
                    Err(e) => return Err(e),
                };
                let encoded = encode_u64(id).unwrap();
                match db_insert(&mut self.db, legacy_key.as_str().as_bytes(), encoded) {
                    Ok(()) => {},
                    Err(e) => return Err(db_error(&e)),
                }
                Ok(id)
            },
        }
    }

    /// The inode that the legacy name `filename` refers to.
    pub fn legacy_inode(&self, filename: &str) -> (r: Result<u64, String>)
        ensures
            r matches Ok(id) ==> legacy_record(self@, filename@) == Some(Some(id)),
            legacy_record(self@, filename@) matches Some(None) ==> r is Err,
            legacy_record(self@, filename@) is None ==> r is Err,
    {
        let legacy_key = Self::get_legacy_key(filename);
        let value = match db_get(&self.db, legacy_key.as_str().as_bytes()) {
            Ok(v) => v,
            Err(e) => return Err(db_error(&e)),
        };
        match value {
            Some(bytes) => match decode_u64(bytes.as_slice()) {
                Ok(id) => Ok(id),
                Err(e) => {
                    let t = bincode_error_text(&e);
                    Err(message("Legacy inode deserialization error: ", t.as_str()))
                },
            },
            None => Err(message("File not found: ", filename)),
        }
    }

    /// The legacy names, ascending; keys that cannot be read are passed
    /// over.
    pub fn list_files(&self) -> (v: Vec<String>)
        ensures
            sorted_texts(v.deep_view()),
            forall|t: Seq<char>|
                #[trigger] v.deep_view().contains(t) ==> self@.contains_key(key_bytes(spec_legacy_key(t))),
    {
        let prefix = string_of("legacy_name:");
        proof {
            reveal_strlit("legacy_name:");
            assert(prefix@ =~= prefix_legacy());
        }
        let items = db_scan_prefix(&self.db, prefix.as_str().as_bytes());
        let mut files: Vec<String> = Vec::new();
        proof {
            assert(files.deep_view() =~= Seq::<Seq<char>>::empty());
        }
        let mut i: usize = 0;
        while i < items.len()
            invariant
                i <= items@.len(),
                prefix@ == prefix_legacy(),
                forall|j: int|
                    0 <= j < items@.len() ==> (#[trigger] items@[j] matches Ok(kv) ==> self@.contains_key(kv.0@)),
                sorted_texts(files.deep_view()),
                forall|t: Seq<char>|
                    #[trigger] files.deep_view().contains(t) ==> self@.contains_key(
                        key_bytes(spec_legacy_key(t)),
                    ),
            decreases items@.len() - i,
        {
            if let Ok(kv) = &items[i] {
                let raw = kv.0.clone();
                assert(raw@ == kv.0@);
                if let Ok(key_str) = string_from_utf8(raw) {
                    proof {
                        vstd::utf8::decode_utf8_encode_utf8(kv.0@);
                    }
                    if let Some(name) = strip_prefix_text(key_str.as_str(), prefix.as_str()) {
                        let ghost nm = name@;
                        let ghost before = files.deep_view();
                        insert_text_sorted(&mut files, name);
                        proof {
                            assert(key_bytes(spec_legacy_key(nm)) == kv.0@);
                            assert forall|t: Seq<char>|
                                #[trigger] files.deep_view().contains(t) implies self@.contains_key(
                                    key_bytes(spec_legacy_key(t)),
                                ) by {
                                assert(files.deep_view().contains(t) == files.deep_view().to_set().contains(t));
                                assert(before.contains(t) == before.to_set().contains(t));
                            }
                        }
                    }
                }
            }
            i = i + 1;
        }
        files
    }

    /// The size and kind that the recipe of legacy name `filename` records;
    /// `None` when there is no such name or recipe, or it cannot be read.
    pub fn get_file_metadata(&self, filename: &str) -> (r: Option<(u64, FileKind)>)
        ensures
            r matches Some(p) ==> (legacy_record(self@, filename@) matches Some(Some(id)) && (recipe_record(
                self@,
                id,
            ) matches Some(Some(t)) && t.0 == p.0 && t.2 == kind_index(p.1))),
    {
        let inode_id = match self.legacy_inode(filename) {
            Ok(id) => id,
            Err(_) => return None,
        };
        match self.load_recipe(inode_id) {
            Ok(Some(recipe)) => Some((recipe.file_size, recipe.kind)),
            _ => None,
        }
    }

    /// Removes the legacy name `filename`, and the recipe and inode record
    /// of the inode it referred to.
    pub fn delete_file(&mut self, filename: &str) -> (r: Result<(), String>)
        ensures
            legacy_record(old(self)@, filename@) is None ==> r is Err,
            r is Ok ==> match legacy_record(old(self)@, filename@) {
                Some(Some(id)) => final(self)@ == old(self)@.remove(key_bytes(spec_legacy_key(filename@))).remove(
                    key_bytes(spec_recipe_key(id)),
                ).remove(key_bytes(spec_inode_key(id))),
                Some(None) => final(self)@ == old(self)@.remove(key_bytes(spec_legacy_key(filename@))),
                None => false,
            },
    {
        let legacy_key = Self::get_legacy_key(filename);
        let value = match db_get(&self.db, legacy_key.as_str().as_bytes()) {
            Ok(v) => v,
            Err(e) => return Err(db_error(&e)),
        };
        let inode_id: Option<u64> = match value {
            Some(bytes) => match decode_u64(bytes.as_slice()) {
                Ok(id) => Some(id),
                Err(e) => {
                    let t = bincode_error_text(&e);
                    return Err(message("Legacy inode deserialization error: ", t.as_str()));
                },
            },
            None => None,
        };
        match db_remove(&mut self.db, legacy_key.as_str().as_bytes()) {
            Ok(()) => {},
            Err(e) => return Err(db_error(&e)),
        }
        if let Some(id) = inode_id {
            let recipe_key = Self::recipe_key(id);
            let inode_key = Self::inode_key(id);
            match db_remove(&mut self.db, recipe_key.as_str().as_bytes()) {
                Ok(()) => {},
                Err(e) => return Err(db_error(&e)),
            }
            match db_remove(&mut self.db, inode_key.as_str().as_bytes()) {
                Ok(()) => {},
                Err(e) => return Err(db_error(&e)),
            }
        }
        self.flush()
    }

    /// Moves the legacy name `old_name` to `new_name`.
    pub fn rename_file(&mut self, old_name: &str, new_name: &str) -> (r: Result<(), String>)
        ensures
            !old(self)@.contains_key(key_bytes(spec_legacy_key(old_name@))) ==> r is Err,
            r is Ok ==> old(self)@.contains_key(key_bytes(spec_legacy_key(old_name@))) && final(self)@
                == old(self)@.insert(
                key_bytes(spec_legacy_key(new_name@)),
                old(self)@[key_bytes(spec_legacy_key(old_name@))],
            ).remove(key_bytes(spec_legacy_key(old_name@))),
    {
        let old_key = Self::get_legacy_key(old_name);
        let new_key = Self::get_legacy_key(new_name);
        let value = match db_get(&self.db, old_key.as_str().as_bytes()) {
            Ok(Some(v)) => v,
            Ok(None) => return Err(message("File not found: ", old_name)),
            Err(e) => return Err(db_error(&e)),
        };
        match db_insert(&mut self.db, new_key.as_str().as_bytes(), value) {
            Ok(()) => {},
            Err(e) => return Err(db_error(&e)),
        }
        match db_remove(&mut self.db, old_key.as_str().as_bytes()) {
            Ok(()) => {},
            Err(e) => return Err(db_error(&e)),
        }
        self.flush()
    }

    /// Creates the legacy name `filename` as an empty directory: a fresh id
    /// from the counter, the name, and a directory recipe.
    pub fn create_directory(&mut self, filename: &str) -> (r: Result<(), String>)
        ensures
            r is Ok ==> (counter_value(old(self)@) matches Some(id) && id < u64::MAX && final(self)@
                == old(self)@.insert(key_bytes(counter_key()), bincode_u64((id + 1) as u64)).insert(
                key_bytes(spec_legacy_key(filename@)),
                bincode_u64(id),
            ).insert(
                key_bytes(spec_recipe_key(id)),
                bincode_recipe(0, Seq::<Seq<char>>::empty(), 1),
            )),
    {
        let recipe = FileRecipe { file_size: 0, chunks: Vec::new(), kind: FileKind::Directory };
        assert(recipe.chunks.deep_view() =~= Seq::<Seq<char>>::empty());
        let legacy_key = Self::get_legacy_key(filename);
        let inode_id = match self.get_next_legacy_ino() {
            Ok(id) => id,
            Err(e) => return Err(e),
        };
        let encoded = encode_u64(inode_id).unwrap();
        match db_insert(&mut self.db, legacy_key.as_str().as_bytes(), encoded) {
            Ok(()) => {},
            Err(e) => return Err(db_error(&e)),
        }
        self.save_recipe(inode_id, &recipe)
    }
}

} // verus!
