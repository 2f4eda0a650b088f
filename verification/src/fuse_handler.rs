//! The request handlers of the mounted file system: what each kernel
//! request (look up a name, read attributes, list a directory, make a
//! directory, create, write, read, remove) answers and changes, over the
//! metadata store, the inode tree, the page cache and the TagFS registry.
//!
//! Moving file bytes between the page cache and the chunk store on disk is
//! left to the caller: where a request needs it, the handler says so in
//! what it returns, and a second handler finishes the request.
use vstd::prelude::*;
use crate::file_manager::FileManager;
use crate::fs_ops::FsError;
use crate::fs_ops::name_views;
use crate::inode_tree::{
    ancestry_tags, ancestry_walk, lemma_write_never_shrinks, file_created, last_snapshot_mirrors_root, AutoTag, child_of, child_pos, children_from_store, store_entries_present, under, snapshot_stored_as, tag_dir_match, control_file_attr, first_snapshot_node, in_snapshots, lemma_snapshot_holdings_kept, lemma_snapshot_root_kept, dir_attr, frozen_kept, keeps_nodes, has_snapshot_named, listing, listing_view, live_entry, live_pos, read_only,
    spec_control_attr, spec_dir_attr, after_write, fresh_attr, lemma_without_child_absent, lemma_wf_facts, without_child, InodeTree, NodeAttr, NodeKind, SnapshotRestoreFailure,
};
use crate::page_cache::without;
use crate::file_manager::{dirent_child, inode_record, snapshot_stored, only_tags_changed, tags_set_to, entry_forgotten, key_bytes, lemma_inode_recipe_keys_differ, spec_recipe_key, FileRecipe};
use crate::fs_ops::{classify_mkdir_name, snapshot_name_from_write, MkdirRequest};
use crate::page_cache::{buffer_of, overlay, read_window, resized};
use crate::text::{canonical_of, decimal, push_decimal, str_trim, string_of, utf8_lossy};
use crate::page_cache::PageCache;
use crate::tagfs::{
    canonicalize_tags, child_tag_dirs, dir_listing_post, dir_lookup_post, dir_tags_at, entry_views, file_lookup_post, files_listing_post,
    indexed_tags, pick_post, single_tag_dirs, sorted_ids_all, stored_among, stored_next_tags, tag_lookup_post, vino, TagEntry,
    FUSE_ROOT_ID, TagRegistry, VirtualView, SNAPSHOT_CREATE_ID, SNAPSHOT_DIR_ID, TAGFS_CONTROL_ID,
    TAGS_DIR_ID, VIRTUAL_INODE_START,
};

verus! {

/// The state of a mount.
pub struct ArcFS {
    /// The metadata store.
    pub manager: FileManager,
    /// The live tree and the snapshots.
    pub tree: InodeTree,
    /// The write-back buffers of file contents.
    pub cache: PageCache,
    /// The virtual directories and files of TagFS.
    pub tags: TagRegistry,
}

/// Whether `ino` is `@tags` or a registered virtual directory.
pub open spec fn is_tag_dir(s: Seq<(Seq<char>, VirtualView)>, ino: u64) -> bool {
    ino == TAGS_DIR_ID || dir_tags_at(s, ino) is Some
}

/// The live inode that virtual file `ino` stands for, if `ino` is one.
pub open spec fn virtual_file_at(s: Seq<(Seq<char>, VirtualView)>, ino: u64) -> Option<u64> {
    if VIRTUAL_INODE_START <= ino < vino(s.len() as int) {
        match s[ino - VIRTUAL_INODE_START].1 {
            VirtualView::File(r) => Some(r),
            VirtualView::Dir(_) => None,
        }
    } else {
        None
    }
}

/// The attributes of live inode `ino`, if it is live.
pub open spec fn live_attr(t: InodeTree, ino: u64) -> Option<NodeAttr> {
    match live_pos(&t, ino) {
        Some(h) => Some(t.nodes()[h].attr),
        None => None,
    }
}

/// `a` is what the first snapshot that holds inode `ino` shows of it.
pub open spec fn frozen_attr(t: InodeTree, ino: u64, a: NodeAttr) -> bool {
    exists|i: int, h: int| #[trigger] first_snapshot_node(&t, ino, i, h) && a == read_only(t.nodes()[h].attr)
}

/// What reading the attributes of `ino` answers at time `now`: the
/// control files and directories of their own, a virtual directory as a
/// directory, a virtual file as the live file it stands for (under its own
/// inode), a snapshot node read-only (from the first snapshot that holds
/// it), else the live node; `NotFound` for anything else.
pub open spec fn getattr_post(fs: ArcFS, ino: u64, now: u64, r: Result<NodeAttr, FsError>) -> bool {
    if ino == TAGFS_CONTROL_ID {
        r == Ok::<NodeAttr, FsError>(spec_control_attr(TAGFS_CONTROL_ID, now))
    } else if is_tag_dir(fs.tags@, ino) {
        r == Ok::<NodeAttr, FsError>(spec_dir_attr(ino, now))
    } else if virtual_file_at(fs.tags@, ino) is Some && live_attr(fs.tree, virtual_file_at(fs.tags@, ino).unwrap()) is Some {
        r == Ok::<NodeAttr, FsError>(NodeAttr { ino, ..live_attr(fs.tree, virtual_file_at(fs.tags@, ino).unwrap()).unwrap() })
    } else if ino == SNAPSHOT_DIR_ID {
        r == Ok::<NodeAttr, FsError>(spec_dir_attr(SNAPSHOT_DIR_ID, now))
    } else if ino == SNAPSHOT_CREATE_ID {
        r == Ok::<NodeAttr, FsError>(spec_control_attr(SNAPSHOT_CREATE_ID, now))
    } else if in_snapshots(&fs.tree, ino) {
        r matches Ok(a) && frozen_attr(fs.tree, ino, a)
    } else {
        r == match live_attr(fs.tree, ino) {
            Some(a) => Ok::<NodeAttr, FsError>(a),
            None => Err::<NodeAttr, FsError>(FsError::NotFound),
        }
    }
}

/// The name of live inode `id`, if it is live.
pub open spec fn live_name(t: InodeTree, id: u64) -> Option<Seq<char>> {
    match live_pos(&t, id) {
        Some(h) => Some(t.nodes()[h].name),
        None => None,
    }
}

/// The live names of `ids`, in order.
pub open spec fn live_names(t: InodeTree, ids: Seq<u64>) -> Seq<Option<Seq<char>>> {
    ids.map_values(|id: u64| live_name(t, id))
}

/// What a picked virtual file answers: the live file it stands for, under
/// the virtual inode.
pub open spec fn picked_answer(t: InodeTree, rp: Result<Option<(u64, u64)>, FsError>) -> Result<
    Option<(u64, NodeAttr)>,
    FsError,
> {
    match rp {
        Err(e) => Err(e),
        Ok(None) => Ok(None),
        Ok(Some(p)) => match live_attr(t, p.1) {
            Some(a) => Ok(Some((p.0, NodeAttr { ino: p.0, ..a }))),
            None => Ok(None),
        },
    }
}

/// The answer to a name among the tag directories, given what the
/// registry's lookup gave (`r1`) and the registry after it (`s_mid`) and
/// after the whole lookup (`s1`): a directory is shown as a directory; for
/// candidate files, the first with that live name is picked (see
/// `pick_post`).
pub open spec fn tag_answer(
    t: InodeTree,
    s_mid: Seq<(Seq<char>, VirtualView)>,
    s1: Seq<(Seq<char>, VirtualView)>,
    name: Seq<char>,
    now: u64,
    r1: Result<Option<TagEntry>, FsError>,
    r: Result<Option<(u64, NodeAttr)>, FsError>,
) -> bool {
    match r1 {
        Err(e) => r == Err::<Option<(u64, NodeAttr)>, FsError>(e) && s1 == s_mid,
        Ok(None) => r == Ok::<Option<(u64, NodeAttr)>, FsError>(None) && s1 == s_mid,
        Ok(Some(TagEntry::Dir(v))) => r == Ok::<Option<(u64, NodeAttr)>, FsError>(Some((v, spec_dir_attr(v, now))))
            && s1 == s_mid,
        Ok(Some(TagEntry::Files(tags, ids))) => exists|rp: Result<Option<(u64, u64)>, FsError>|
            #[trigger] pick_post(s_mid, s1, tags.deep_view(), ids@, live_names(t, ids@), name, rp) && r == picked_answer(t, rp),
    }
}

/// What looking `name` up in `parent` among the tag directories gives,
/// over the store `m`, the tree `t` and the registry before (`s0`) and
/// after (`s1`): see `tag_lookup_post` and `tag_answer`.
pub open spec fn tag_stage_post(
    m: Map<Seq<u8>, Seq<u8>>,
    t: InodeTree,
    s0: Seq<(Seq<char>, VirtualView)>,
    s1: Seq<(Seq<char>, VirtualView)>,
    parent: u64,
    name: Seq<char>,
    now: u64,
    r: Result<Option<(u64, NodeAttr)>, FsError>,
) -> bool {
    exists|r1: Result<Option<TagEntry>, FsError>, s_mid: Seq<(Seq<char>, VirtualView)>|
        #[trigger] tag_lookup_post(m, s0, s_mid, parent, name, r1) && tag_answer(t, s_mid, s1, name, now, r1, r)
}

/// What looking up the child `name` of live directory `parent` answers.
pub open spec fn live_child_answer(t: InodeTree, parent: u64, name: Seq<char>) -> Result<NodeAttr, FsError> {
    match live_pos(&t, parent) {
        Some(h) => match child_of(t.nodes()[h].children, name) {
            Some(c) => Ok(t.nodes()[c].attr),
            None => Err(FsError::NotFound),
        },
        None => Err(FsError::NotFound),
    }
}

/// `r` is what the node with inode `parent` in the first snapshot that
/// holds one answers for its child `name`: the child read-only, or
/// `NotFound`.
pub open spec fn frozen_child_answer(t: InodeTree, parent: u64, name: Seq<char>, r: Result<NodeAttr, FsError>) -> bool {
    exists|i: int, h: int|
        #[trigger] first_snapshot_node(&t, parent, i, h) && r == match child_of(
            t.nodes()[h].children,
            name,
        ) {
            Some(c) => Ok::<NodeAttr, FsError>(read_only(t.nodes()[c].attr)),
            None => Err::<NodeAttr, FsError>(FsError::NotFound),
        }
}

/// What looking `name` up in `parent` answers outside the tag directories:
/// `.snapshots` in the root; in `.snapshots`, `.create` and the snapshot
/// roots (read-only); in a snapshot directory, its child read-only; else
/// the live child; `NotFound` where there is none.
pub open spec fn plain_lookup_post(t: InodeTree, parent: u64, name: Seq<char>, now: u64, r: Result<NodeAttr, FsError>) -> bool {
    if parent == FUSE_ROOT_ID && name == ".snapshots"@ {
        r == Ok::<NodeAttr, FsError>(spec_dir_attr(SNAPSHOT_DIR_ID, now))
    } else if parent == SNAPSHOT_DIR_ID {
        if name == ".create"@ {
            r == Ok::<NodeAttr, FsError>(spec_control_attr(SNAPSHOT_CREATE_ID, now))
        } else if has_snapshot_named(&t, name) {
            exists|i: int|
                0 <= i < t.snapshots().len() && #[trigger] t.snapshots()[i].0 == name && r == Ok::<NodeAttr, FsError>(
                    read_only(t.nodes()[t.snapshots()[i].2].attr),
                )
        } else {
            r == Err::<NodeAttr, FsError>(FsError::NotFound)
        }
    } else if in_snapshots(&t, parent) {
        frozen_child_answer(t, parent, name, r)
    } else {
        r == live_child_answer(t, parent, name)
    }
}

/// What looking `name` up in `parent` answers and does to the registry
/// (`s0` before, `s1` after): `.tagfs_ctl` in the root is the control
/// file; else the tag directories are asked first (see `tag_stage_post`),
/// and where they know no such name, the rest (see `plain_lookup_post`).
pub open spec fn lookup_post(
    m: Map<Seq<u8>, Seq<u8>>,
    t: InodeTree,
    s0: Seq<(Seq<char>, VirtualView)>,
    s1: Seq<(Seq<char>, VirtualView)>,
    parent: u64,
    name: Seq<char>,
    now: u64,
    r: Result<NodeAttr, FsError>,
) -> bool {
    if parent == FUSE_ROOT_ID && name == ".tagfs_ctl"@ {
        r == Ok::<NodeAttr, FsError>(spec_control_attr(TAGFS_CONTROL_ID, now)) && s1 == s0
    } else {
        exists|tr: Result<Option<(u64, NodeAttr)>, FsError>|
            #[trigger] tag_stage_post(m, t, s0, s1, parent, name, now, tr) && match tr {
                Err(e) => r == Err::<NodeAttr, FsError>(e),
                Ok(Some(p)) => r == Ok::<NodeAttr, FsError>(p.1),
                Ok(None) => plain_lookup_post(t, parent, name, now, r),
            }
    }
}

/// A listing as plain values, each entry inode, kind and name.
pub type Listing = Seq<(u64, NodeKind, Seq<char>)>;

/// The first two entries of a listing: `.` is `ino`, `..` is `parent`.
pub open spec fn dots(ino: u64, parent: u64) -> Listing {
    seq![(ino, NodeKind::Directory, "."@), (parent, NodeKind::Directory, ".."@)]
}

/// Entries of a tag listing, each as an entry of kind `k`.
pub open spec fn as_listing(e: Seq<(u64, Seq<char>)>, k: NodeKind) -> Listing {
    e.map_values(|x: (u64, Seq<char>)| (x.0, k, x.1))
}

/// What the root lists before its children: `.snapshots`, `@tags` and
/// `.tagfs_ctl`.
pub open spec fn root_extras() -> Listing {
    seq![
        (SNAPSHOT_DIR_ID, NodeKind::Directory, ".snapshots"@),
        (TAGS_DIR_ID, NodeKind::Directory, "@tags"@),
        (TAGFS_CONTROL_ID, NodeKind::RegularFile, ".tagfs_ctl"@),
    ]
}

/// The snapshots as entries of `.snapshots`: each root, by its name, in
/// the order they were taken.
pub open spec fn snapshot_entries(t: InodeTree) -> Listing {
    t.snapshots().map_values(|e: (Seq<char>, u64, int)| (t.nodes()[e.2].id, NodeKind::Directory, e.0))
}

/// The listing of `@tags`: `.`, `..` (the root), then each tag it lists
/// as a directory (see `dir_listing_post`).
pub open spec fn tags_root_listing_post(
    m: Map<Seq<u8>, Seq<u8>>,
    s0: Seq<(Seq<char>, VirtualView)>,
    s1: Seq<(Seq<char>, VirtualView)>,
    r: Result<Vec<(u64, NodeKind, String)>, FsError>,
) -> bool {
    exists|rd: Result<Vec<(u64, String)>, FsError>|
        #[trigger] dir_listing_post(s0, s1, Seq::empty(), single_tag_dirs(s0), indexed_tags(m), rd) && match rd {
            Err(e) => r == Err::<Vec<(u64, NodeKind, String)>, FsError>(e),
            Ok(v) => r is Ok && listing_view(r->Ok_0@) == dots(TAGS_DIR_ID, FUSE_ROOT_ID) + as_listing(
                entry_views(v@),
                NodeKind::Directory,
            ),
        }
}

/// The listing of virtual directory `ino` with tags `cur`: `.`, `..`
/// (`@tags`), the tag directories below it (see `dir_listing_post`), then
/// the files that have all of `cur` and a live name (see
/// `files_listing_post`). Both come from one reading of the inodes that
/// have all of `cur` (`ids`): the directories the store adds are the tags
/// those inodes have, and the candidates are those inodes; the reading is
/// empty only where the store cannot be read.
pub open spec fn tag_dir_listing_post(
    m: Map<Seq<u8>, Seq<u8>>,
    t: InodeTree,
    s0: Seq<(Seq<char>, VirtualView)>,
    s1: Seq<(Seq<char>, VirtualView)>,
    ino: u64,
    cur: Seq<Seq<char>>,
    r: Result<Vec<(u64, NodeKind, String)>, FsError>,
) -> bool {
    exists|ids: Seq<u64>, rd: Result<Vec<(u64, String)>, FsError>, s_mid: Seq<(Seq<char>, VirtualView)>|
        (ids.len() == 0 || sorted_ids_all(m, cur, ids)) && #[trigger] dir_listing_post(
            s0,
            s_mid,
            cur,
            child_tag_dirs(s0, cur),
            stored_among(m, cur, ids),
            rd,
        ) && match rd {
            Err(e) => r == Err::<Vec<(u64, NodeKind, String)>, FsError>(e) && s1 == s_mid,
            Ok(dv) => exists|rf: Result<Vec<(u64, String)>, FsError>|
                #[trigger] files_listing_post(s_mid, s1, cur, ids, live_names(t, ids), rf) && match rf {
                    Err(e) => r == Err::<Vec<(u64, NodeKind, String)>, FsError>(e),
                    Ok(fv) => r is Ok && listing_view(r->Ok_0@) == dots(ino, TAGS_DIR_ID) + as_listing(
                        entry_views(dv@),
                        NodeKind::Directory,
                    ) + as_listing(entry_views(fv@), NodeKind::RegularFile),
                },
        }
}

/// The listing of a directory of the tree: the children of the node in
/// the first snapshot that holds it (after `.` and `..`, which is
/// `.snapshots` for a snapshot root), or the live node's (after `.`, `..` as itself
/// and, for the root, `root_extras`); `NotFound` for no live node.
pub open spec fn tree_listing_post(t: InodeTree, ino: u64, r: Result<Vec<(u64, NodeKind, String)>, FsError>) -> bool {
    if in_snapshots(&t, ino) {
        exists|i: int, h: int|
            #[trigger] first_snapshot_node(&t, ino, i, h) && r is Ok && listing_view(r->Ok_0@) == dots(
                ino,
                if t.nodes()[t.snapshots()[i].2].id == ino {
                    SNAPSHOT_DIR_ID
                } else {
                    ino
                },
            ) + listing(t.nodes(), t.nodes()[h].children)
    } else {
        match live_pos(&t, ino) {
            Some(h) => r is Ok && listing_view(r->Ok_0@) == dots(ino, ino) + (if ino == FUSE_ROOT_ID {
                root_extras()
            } else {
                Seq::empty()
            }) + listing(t.nodes(), t.nodes()[h].children),
            None => r == Err::<Vec<(u64, NodeKind, String)>, FsError>(FsError::NotFound),
        }
    }
}

/// What listing directory `ino` gives, over the store `m`, the tree `t`
/// and the registry before (`s0`) and after (`s1`).
pub open spec fn readdir_post(
    m: Map<Seq<u8>, Seq<u8>>,
    t: InodeTree,
    s0: Seq<(Seq<char>, VirtualView)>,
    s1: Seq<(Seq<char>, VirtualView)>,
    ino: u64,
    r: Result<Vec<(u64, NodeKind, String)>, FsError>,
) -> bool {
    if ino == TAGS_DIR_ID {
        tags_root_listing_post(m, s0, s1, r)
    } else if dir_tags_at(s0, ino) is Some {
        tag_dir_listing_post(m, t, s0, s1, ino, dir_tags_at(s0, ino).unwrap(), r)
    } else if ino == SNAPSHOT_DIR_ID {
        s1 == s0 && r is Ok && listing_view(r->Ok_0@) == dots(SNAPSHOT_DIR_ID, FUSE_ROOT_ID).push(
            (SNAPSHOT_CREATE_ID, NodeKind::RegularFile, ".create"@),
        ) + snapshot_entries(t)
    } else {
        s1 == s0 && tree_listing_post(t, ino, r)
    }
}

/// Appends entry `(ino, kind, name)`.
fn push_entry(out: &mut Vec<(u64, NodeKind, String)>, ino: u64, kind: NodeKind, name: &str)
    ensures
        listing_view(final(out)@) == listing_view(old(out)@).push((ino, kind, name@)),
{
    out.push((ino, kind, String::from_str(name)));
    assert(listing_view(final(out)@) =~= listing_view(old(out)@).push((ino, kind, name@)));
}

/// Appends the tag entries `es`, each as an entry of kind `k`.
fn append_entries(out: &mut Vec<(u64, NodeKind, String)>, es: Vec<(u64, String)>, k: NodeKind)
    ensures
        listing_view(final(out)@) == listing_view(old(out)@) + as_listing(entry_views(es@), k),
{
    let ghost start = listing_view(out@);
    let mut i: usize = 0;
    let mut es = es;
    let ghost all = entry_views(es@);
    while i < es.len()
        invariant
            i <= es@.len(),
            all == entry_views(es@),
            listing_view(out@) == start + as_listing(all.take(i as int), k),
        decreases es@.len() - i,
    {
        let id = es[i].0;
        let name = es[i].1.clone();
        assert(name@ == all[i as int].1 && id == all[i as int].0);
        let ghost before = out@;
        out.push((id, k, name));
        proof {
            assert(listing_view(out@) =~= listing_view(before).push((id, k, all[i as int].1)));
            assert(all.take(i + 1) =~= all.take(i as int).push(all[i as int]));
            assert(as_listing(all.take(i + 1), k) =~= as_listing(all.take(i as int), k).push((all[i as int].0, k, all[i as int].1)));
            assert(listing_view(out@) =~= start + as_listing(all.take(i + 1), k));
        }
        i = i + 1;
    }
    assert(all.take(es@.len() as int) =~= all);
}

/// Appends the listing `v`.
fn append_listing(out: &mut Vec<(u64, NodeKind, String)>, v: Vec<(u64, NodeKind, String)>)
    ensures
        listing_view(final(out)@) == listing_view(old(out)@) + listing_view(v@),
{
    let mut v = v;
    let ghost start = listing_view(out@);
    let ghost lv = listing_view(v@);
    out.append(&mut v);
    assert(listing_view(final(out)@) =~= start + lv);
}

/// `p` is the directory whose names tag live inode `ino` when a write to
/// it finishes: its parent in the live tree; for an inode that is not
/// live, the parent its stored record names, or the root when the record
/// cannot be read.
pub open spec fn tagging_parent(t: &InodeTree, m: Map<Seq<u8>, Seq<u8>>, ino: u64, p: u64) -> bool {
    match live_pos(t, ino) {
        Some(h) => p == t.nodes()[h].parent_id,
        None => p == FUSE_ROOT_ID || (inode_record(m, ino) matches Some(Some(rec)) && p == rec.1),
    }
}

/// What removing an entry of the tree did: the entry's inode, or the
/// snapshot deleted with what removing its stored record gave.
pub enum Removal {
    /// The entry of this inode was taken out of its directory.
    Entry(u64),
    /// The snapshot was deleted; removing its record gave this.
    Snapshot(Result<(), String>),
}

/// The snapshots, and every snapshot node, are as they were.
pub open spec fn snapshots_untouched(t0: InodeTree, t1: InodeTree) -> bool {
    frozen_kept(&t0, &t1) && t1.snapshots() == t0.snapshots()
}

/// Nothing of the mount changed.
pub open spec fn unchanged(a: ArcFS, b: ArcFS) -> bool {
    &&& b.tree == a.tree
    &&& b.manager == a.manager
    &&& b.cache == a.cache
    &&& b.tags == a.tags
}

/// The page cache after the buffer of `ino` was dropped.
pub open spec fn cache_evicted(a: PageCache, b: PageCache, ino: u64) -> bool {
    &&& b@.0 == a@.0.remove(ino)
    &&& b@.1 == without(a@.1, ino)
}

/// What removing `name` from `parent` gives, `fs0` before and `fs1`
/// after: `.snapshots` and snapshot directories are read-only; in a tag
/// directory the live file the name resolves to is taken out of its real
/// directory; elsewhere the live entry is taken out (`NotFound` where there
/// is none). The removed inode's buffer is dropped.
pub open spec fn unlink_post(fs0: ArcFS, fs1: ArcFS, parent: u64, name: Seq<char>, r: Result<u64, FsError>) -> bool {
    &&& (parent == SNAPSHOT_DIR_ID || in_snapshots(&fs0.tree, parent)) <==> r == Err::<u64, FsError>(FsError::ReadOnly)
    &&& r == Err::<u64, FsError>(FsError::ReadOnly) ==> unchanged(fs0, fs1)
    &&& r is Err ==> fs1.cache == fs0.cache
    &&& r matches Ok(id) ==> cache_evicted(fs0.cache, fs1.cache, id)
    &&& fs1.tags == fs0.tags
    &&& fs1.tree.registry() == fs0.tree.registry()
    &&& fs1.tree.snapshots() == fs0.tree.snapshots()
    &&& r != Err::<u64, FsError>(FsError::ReadOnly) ==> if is_tag_dir(fs0.tags@, parent) {
        &&& r is Err ==> r == Err::<u64, FsError>(FsError::NotFound) || r == Err::<u64, FsError>(
            FsError::InvalidArgument,
        ) || r == Err::<u64, FsError>(FsError::Io)
        &&& dir_tags_at(fs0.tags@, parent) is None ==> r == Err::<u64, FsError>(FsError::NotFound)
        &&& r matches Ok(id) ==> fs0.tree.registry().contains_key(id)
        &&& r matches Ok(id) ==> (dir_tags_at(fs0.tags@, parent) matches Some(dt) && tag_dir_match(
            fs0.manager@,
            &fs0.tree,
            dt,
            name,
            Ok::<u64, FsError>(id),
        ))
    } else {
        &&& r is Err <==> match live_pos(&fs0.tree, parent) {
            Some(h) => child_of(fs0.tree.nodes()[h].children, name) is None,
            None => true,
        }
        &&& r is Err ==> r == Err::<u64, FsError>(FsError::NotFound)
        &&& r is Err ==> fs1.tree.nodes() == fs0.tree.nodes() && fs1.manager@ == fs0.manager@
        &&& r matches Ok(id) ==> ({
            let h = fs0.tree.registry()[parent];
            &&& id == fs0.tree.nodes()[child_of(fs0.tree.nodes()[h].children, name).unwrap()].id
            &&& fs1.tree.nodes()[h].children == without_child(fs0.tree.nodes()[h].children, name)
        })
    }
}

/// The inode an unlink removed, or its error.
pub open spec fn removed_id(r: Result<(u64, bool), FsError>) -> Result<u64, FsError> {
    match r {
        Ok(p) => Ok(p.0),
        Err(e) => Err(e),
    }
}

/// Where an unlink says the store forgot the entry, it did: in a tag
/// directory, the entry of the live file under its own parent and name;
/// elsewhere, the entry `name` of `parent`; and the removed inode has no
/// tags.
pub open spec fn unlink_forgotten(fs0: ArcFS, fs1: ArcFS, parent: u64, name: Seq<char>, r: Result<(u64, bool), FsError>) -> bool {
    r matches Ok(p) ==> (p.1 ==> if is_tag_dir(fs0.tags@, parent) {
        let n = fs0.tree.nodes()[fs0.tree.registry()[p.0]];
        entry_forgotten(fs1.manager@, n.parent_id, n.name, p.0)
    } else {
        entry_forgotten(fs1.manager@, parent, name, p.0)
    })
}

/// `a` shows some live file as the virtual file that stands for it under
/// `cur` (found or registered, `s0` before and `s1` after).
pub open spec fn shown_as_virtual(
    s0: Seq<(Seq<char>, VirtualView)>,
    s1: Seq<(Seq<char>, VirtualView)>,
    t: InodeTree,
    cur: Seq<Seq<char>>,
    a: NodeAttr,
) -> bool {
    exists|id: u64|
        #[trigger] file_lookup_post(s0, s1, cur, id, Some(a.ino)) && live_attr(t, id) is Some && a == NodeAttr {
            ino: a.ino,
            ..live_attr(t, id).unwrap()
        }
}

/// The attributes a `create` shows, without what it did about tags.
pub open spec fn shown_attr(r: Result<(NodeAttr, AutoTag), FsError>) -> Result<NodeAttr, FsError> {
    match r {
        Ok(p) => Ok(p.0),
        Err(e) => Err(e),
    }
}

/// What creating file `name` in `parent` gives, `fs0` before and `fs1`
/// after: `.snapshots` and snapshot directories are read-only, `@tags`
/// takes no files; in a virtual directory the file is made in the real
/// directory of its tags and shown as the virtual file standing for it;
/// elsewhere it is made in the live directory. A new file is a regular
/// file under the next inode number.
pub open spec fn create_post(
    fs0: ArcFS,
    fs1: ArcFS,
    parent: u64,
    name: Seq<char>,
    now: u64,
    r: Result<NodeAttr, FsError>,
) -> bool {
    &&& (parent == SNAPSHOT_DIR_ID || in_snapshots(&fs0.tree, parent)) <==> r == Err::<NodeAttr, FsError>(
        FsError::ReadOnly,
    )
    &&& r == Err::<NodeAttr, FsError>(FsError::ReadOnly) ==> unchanged(fs0, fs1)
    &&& parent == TAGS_DIR_ID && r != Err::<NodeAttr, FsError>(FsError::ReadOnly) ==> r == Err::<NodeAttr, FsError>(
        FsError::InvalidArgument,
    ) && unchanged(fs0, fs1)
    &&& fs1.cache == fs0.cache
    &&& fs1.tree.snapshots() == fs0.tree.snapshots()
    &&& r is Err ==> r == Err::<NodeAttr, FsError>(FsError::ReadOnly) || r == Err::<NodeAttr, FsError>(
        FsError::InvalidArgument,
    ) || r == Err::<NodeAttr, FsError>(FsError::NotFound) || r == Err::<NodeAttr, FsError>(FsError::Io)
    &&& r matches Ok(a) ==> a.kind == NodeKind::RegularFile && match dir_tags_at(fs0.tags@, parent) {
        None => a == fresh_attr(fs0.tree.next_inode(), false, 0, now) && live_entry(&fs1.tree, parent, name, a.ino)
            && live_attr(fs1.tree, a.ino) == Some(a),
        Some(cur) => shown_as_virtual(fs0.tags@, fs1.tags@, fs1.tree, cur, a),
    }
    &&& r is Err && dir_tags_at(fs0.tags@, parent) is None ==> fs1.tags == fs0.tags
}

/// What deleting `name` from `parent` gives: tag directories refuse it;
/// in `.snapshots` it deletes that snapshot (`NotFound` for none);
/// elsewhere it is `unlink`.
pub open spec fn rmdir_post(fs0: ArcFS, fs1: ArcFS, parent: u64, name: Seq<char>, r: Result<Removal, FsError>) -> bool {
    if is_tag_dir(fs0.tags@, parent) {
        r == Err::<Removal, FsError>(FsError::InvalidArgument) && unchanged(fs0, fs1)
    } else if parent == SNAPSHOT_DIR_ID {
        &&& fs1.tree.nodes() == fs0.tree.nodes()
        &&& fs1.tree.registry() == fs0.tree.registry()
        &&& fs1.cache == fs0.cache
        &&& fs1.tags == fs0.tags
        &&& !has_snapshot_named(&fs1.tree, name)
        &&& r is Ok <==> has_snapshot_named(&fs0.tree, name)
        &&& r is Err ==> r == Err::<Removal, FsError>(FsError::NotFound) && fs1.manager@ == fs0.manager@
        &&& r is Ok ==> r->Ok_0 is Snapshot
    } else {
        exists|u: Result<u64, FsError>|
            #[trigger] unlink_post(fs0, fs1, parent, name, u) && r == match u {
                Ok(id) => Ok::<Removal, FsError>(Removal::Entry(id)),
                Err(e) => Err::<Removal, FsError>(e),
            }
    }
}

/// The inode of the directory shown for a snapshot taken or restored
/// through `mkdir`.
pub const SNAPSHOT_REPLY_INO: u64 = 9999;

/// What making a directory asks of the caller when it is not done at
/// once.
pub enum MkdirOutcome {
    /// The directory, as shown.
    Made(NodeAttr),
    /// Snapshot `name`, which does not exist yet, is to be taken: buffered
    /// writes are flushed, then `take_snapshot`.
    TakeSnapshot(String),
    /// Snapshot `name`, which exists, is to be restored: buffered writes
    /// are flushed, then `restore_snapshot`.
    RestoreSnapshot(String),
}

/// What making the virtual directory for `tags` gives: the directory
/// (found or registered) shown as a new directory, after its real path of
/// directories was made sure of in the live tree.
pub open spec fn tag_mkdir_post(fs0: ArcFS, fs1: ArcFS, tags: Seq<Seq<char>>, now: u64, r: Result<MkdirOutcome, FsError>) -> bool {
    &&& fs1.cache == fs0.cache
    &&& fs1.tree.snapshots() == fs0.tree.snapshots()
    &&& r is Err ==> r == Err::<MkdirOutcome, FsError>(FsError::Io) || r == Err::<MkdirOutcome, FsError>(
        FsError::NotFound,
    ) || r == Err::<MkdirOutcome, FsError>(FsError::InvalidArgument)
    &&& r matches Ok(o) ==> o matches MkdirOutcome::Made(a) && a == spec_dir_attr(a.ino, now) && dir_lookup_post(
        fs0.tags@,
        fs1.tags@,
        tags,
        Some(a.ino),
    )
}

/// What making directory `name` in `parent` at time `now` gives, `fs0`
/// before and `fs1` after: under `@tags` or a virtual directory, the
/// virtual directory of the tags plus `name` (see `tag_mkdir_post`);
/// `.snapshots` and snapshot directories are read-only (but `.create` in
/// `.snapshots` goes on as an ordinary name); `.restore_<s>` asks to
/// restore snapshot `s` (`NotFound` when there is none), `.snap_<s>` to
/// take it (`AlreadyExists` when there is one); any other name is made a
/// live directory.
pub open spec fn mkdir_post(
    fs0: ArcFS,
    fs1: ArcFS,
    parent: u64,
    name: Seq<char>,
    now: u64,
    r: Result<MkdirOutcome, FsError>,
) -> bool {
    if parent == TAGS_DIR_ID {
        tag_mkdir_post(fs0, fs1, seq![name], now, r)
    } else if dir_tags_at(fs0.tags@, parent) is Some {
        tag_mkdir_post(fs0, fs1, canonical_of(dir_tags_at(fs0.tags@, parent).unwrap().push(name)), now, r)
    } else if parent == SNAPSHOT_DIR_ID && name != ".create"@ {
        r == Err::<MkdirOutcome, FsError>(FsError::ReadOnly) && unchanged(fs0, fs1)
    } else {
        &&& in_snapshots(&fs0.tree, parent) <==> r == Err::<MkdirOutcome, FsError>(FsError::ReadOnly)
        &&& r == Err::<MkdirOutcome, FsError>(FsError::ReadOnly) ==> unchanged(fs0, fs1)
        &&& r != Err::<MkdirOutcome, FsError>(FsError::ReadOnly) ==> if exists|s: Seq<char>| name == ".restore_"@ + s {
            let s = name.skip(9);
            &&& unchanged(fs0, fs1)
            &&& has_snapshot_named(&fs0.tree, s) ==> (r matches Ok(MkdirOutcome::RestoreSnapshot(x)) && x@ == s)
            &&& !has_snapshot_named(&fs0.tree, s) ==> r == Err::<MkdirOutcome, FsError>(FsError::NotFound)
        } else if exists|s: Seq<char>| name == ".snap_"@ + s {
            let s = name.skip(6);
            &&& unchanged(fs0, fs1)
            &&& !has_snapshot_named(&fs0.tree, s) ==> (r matches Ok(MkdirOutcome::TakeSnapshot(x)) && x@ == s)
            &&& has_snapshot_named(&fs0.tree, s) ==> r == Err::<MkdirOutcome, FsError>(FsError::AlreadyExists)
        } else {
            &&& fs1.cache == fs0.cache
            &&& fs1.tags == fs0.tags
            &&& fs1.tree.snapshots() == fs0.tree.snapshots()
            &&& r is Err ==> r == Err::<MkdirOutcome, FsError>(FsError::Io) || r == Err::<MkdirOutcome, FsError>(
                FsError::NotFound,
            )
            &&& r matches Ok(o) ==> o matches MkdirOutcome::Made(a) && a == spec_dir_attr(a.ino, now) && live_entry(
                &fs1.tree,
                parent,
                name,
                a.ino,
            ) && live_attr(fs1.tree, a.ino) == Some(a) && inode_record(fs1.manager@, a.ino) == Some(
                Some((a.ino, parent, name, true, 0u64)),
            ) && dirent_child(fs1.manager@, parent, name) == Some(Some(a.ino))
        }
    }
}

/// The live inode that `ino` names: the one virtual file `ino` stands
/// for, else `ino` itself.
pub open spec fn target_of(s: Seq<(Seq<char>, VirtualView)>, ino: u64) -> u64 {
    match virtual_file_at(s, ino) {
        Some(r) => r,
        None => ino,
    }
}

/// What a read of an inode serves from.
pub enum ReadTarget {
    /// Nothing: a control file reads empty.
    Nothing,
    /// The contents of this inode, from the page cache.
    File(u64),
}

/// What reading `ino` is served from: the control files read empty,
/// directories of TagFS are refused, a file (a virtual file standing for
/// its live file) is read where it is live or in a snapshot, `NotFound`
/// elsewhere.
pub open spec fn read_target_post(fs: ArcFS, ino: u64, r: Result<ReadTarget, FsError>) -> bool {
    if ino == TAGFS_CONTROL_ID {
        r == Ok::<ReadTarget, FsError>(ReadTarget::Nothing)
    } else if is_tag_dir(fs.tags@, ino) {
        r == Err::<ReadTarget, FsError>(FsError::IsDirectory)
    } else if ino == SNAPSHOT_CREATE_ID {
        r == Ok::<ReadTarget, FsError>(ReadTarget::Nothing)
    } else {
        let t = target_of(fs.tags@, ino);
        r == if fs.tree.registry().contains_key(t) || in_snapshots(&fs.tree, t) {
            Ok::<ReadTarget, FsError>(ReadTarget::File(t))
        } else {
            Err::<ReadTarget, FsError>(FsError::NotFound)
        }
    }
}

/// Where a write goes.
pub enum WriteTarget {
    /// The control file: the data is a TagFS command.
    Control,
    /// `.snapshots/.create`: snapshot `name` (which does not exist yet) is
    /// to be taken, after buffered writes are flushed.
    Snapshot(String),
    /// The buffer of this inode, at this offset.
    File(u64, usize),
}

/// Where writing `data` at `offset` of `ino` goes: the control file and
/// `.create` take whole writes only (`InvalidArgument` at any other
/// offset); `.create` names a snapshot by the written text, trimmed
/// (`InvalidArgument` for none, `AlreadyExists` for one that exists);
/// directories of TagFS are read-only, snapshot files refuse it (permission denied); else the live
/// file `ino` names.
pub open spec fn write_target_post(fs: ArcFS, ino: u64, offset: i64, data: Seq<u8>, r: Result<WriteTarget, FsError>) -> bool {
    if ino == TAGFS_CONTROL_ID {
        if offset != 0 {
            r == Err::<WriteTarget, FsError>(FsError::InvalidArgument)
        } else {
            r == Ok::<WriteTarget, FsError>(WriteTarget::Control)
        }
    } else if is_tag_dir(fs.tags@, ino) {
        r == Err::<WriteTarget, FsError>(FsError::ReadOnly)
    } else if ino == SNAPSHOT_CREATE_ID {
        let n = str_trim(utf8_lossy(data));
        if offset != 0 || n.len() == 0 {
            r == Err::<WriteTarget, FsError>(FsError::InvalidArgument)
        } else if has_snapshot_named(&fs.tree, n) {
            r == Err::<WriteTarget, FsError>(FsError::AlreadyExists)
        } else {
            r matches Ok(WriteTarget::Snapshot(x)) && x@ == n
        }
    } else {
        let t = target_of(fs.tags@, ino);
        r == if in_snapshots(&fs.tree, t) {
            Err::<WriteTarget, FsError>(FsError::PermissionDenied)
        } else {
            Ok::<WriteTarget, FsError>(WriteTarget::File(t, offset as usize))
        }
    }
}

/// Whether `ino` takes the changes that writes and resizes make: the live
/// file it names; `ReadOnly` for a directory of TagFS, `PermissionDenied` for a snapshot
/// node.
pub open spec fn change_target_post(fs: ArcFS, ino: u64, r: Result<u64, FsError>) -> bool {
    if is_tag_dir(fs.tags@, ino) {
        r == Err::<u64, FsError>(FsError::ReadOnly)
    } else {
        r == if in_snapshots(&fs.tree, target_of(fs.tags@, ino)) {
            Err::<u64, FsError>(FsError::PermissionDenied)
        } else {
            Ok::<u64, FsError>(target_of(fs.tags@, ino))
        }
    }
}

/// A file just created in a live directory is what looking its name up
/// there finds (unless the new inode number is the directory's own).
pub proof fn lemma_create_then_lookup(fs0: ArcFS, fs1: ArcFS, parent: u64, name: Seq<char>, now: u64, a: NodeAttr)
    requires
        create_post(fs0, fs1, parent, name, now, Ok(a)),
        dir_tags_at(fs0.tags@, parent) is None,
        parent != a.ino,
    ensures
        live_child_answer(fs1.tree, parent, name) == Ok::<NodeAttr, FsError>(a),
{
}

/// A directory just made in a live directory is what looking its name up
/// there finds (unless the new inode number is the directory's own).
pub proof fn lemma_mkdir_then_lookup(
    fs0: ArcFS,
    fs1: ArcFS,
    parent: u64,
    name: Seq<char>,
    now: u64,
    r: Result<MkdirOutcome, FsError>,
    a: NodeAttr,
)
    requires
        mkdir_post(fs0, fs1, parent, name, now, r),
        r matches Ok(MkdirOutcome::Made(x)) && x == a,
        parent != TAGS_DIR_ID,
        dir_tags_at(fs0.tags@, parent) is None,
        !(exists|s: Seq<char>| name == ".restore_"@ + s),
        !(exists|s: Seq<char>| name == ".snap_"@ + s),
        parent != a.ino,
    ensures
        live_child_answer(fs1.tree, parent, name) == Ok::<NodeAttr, FsError>(a),
{
}

/// Once `name` is removed from a live directory, looking it up there
/// finds nothing.
pub proof fn lemma_unlink_then_lookup(fs0: ArcFS, fs1: ArcFS, parent: u64, name: Seq<char>, id: u64)
    requires
        fs0.wf(),
        unlink_post(fs0, fs1, parent, name, Ok(id)),
        !is_tag_dir(fs0.tags@, parent),
    ensures
        live_child_answer(fs1.tree, parent, name) == Err::<NodeAttr, FsError>(FsError::NotFound),
{
    lemma_wf_facts(&fs0.tree);
    let h = fs0.tree.registry()[parent];
    lemma_without_child_absent(fs0.tree.nodes()[h].children, name);
}

/// What the snapshots answer is untouched by changes to the live tree:
/// where the snapshots and their nodes are kept (as removing, creating,
/// making directories and writing keep them), the same inodes are in the
/// snapshots, and the attributes of one, what a name looks up in one, and
/// its listing are what they were.
pub proof fn lemma_snapshot_answers_kept(
    t0: InodeTree,
    t1: InodeTree,
    ino: u64,
    name: Seq<char>,
    a: NodeAttr,
    r: Result<NodeAttr, FsError>,
    l: Result<Vec<(u64, NodeKind, String)>, FsError>,
)
    requires
        t0.wf(),
        t0.sealed(),
        snapshots_untouched(t0, t1),
    ensures
        in_snapshots(&t1, ino) == in_snapshots(&t0, ino),
        frozen_attr(t1, ino, a) == frozen_attr(t0, ino, a),
        frozen_child_answer(t1, ino, name, r) == frozen_child_answer(t0, ino, name, r),
        in_snapshots(&t0, ino) ==> tree_listing_post(t1, ino, l) == tree_listing_post(t0, ino, l),
{
    lemma_snapshot_holdings_kept(&t0, &t1, ino);
    assert forall|i: int, h: int| #[trigger] first_snapshot_node(&t0, ino, i, h) implies ({
        &&& t1.nodes()[h] == t0.nodes()[h]
        &&& t1.nodes()[t1.snapshots()[i].2] == t0.nodes()[t0.snapshots()[i].2]
        &&& listing(t1.nodes(), t1.nodes()[h].children) == listing(t0.nodes(), t0.nodes()[h].children)
        &&& match child_of(t0.nodes()[h].children, name) {
            Some(c) => t1.nodes()[c] == t0.nodes()[c],
            None => true,
        }
    }) by {
        let ch = t0.nodes()[h].children;
        assert(first_snapshot_node(&t1, ino, i, h));
        assert(listing(t1.nodes(), ch) =~= listing(t0.nodes(), ch)) by {
            assert forall|j: int| 0 <= j < ch.len() implies #[trigger] listing(t1.nodes(), ch)[j] == listing(
                t0.nodes(),
                ch,
            )[j] by {
                assert(t1.nodes()[ch[j].1] == t0.nodes()[ch[j].1]);
            }
        }
        match child_pos(ch, name) {
            Some(j) => {
                assert(t1.nodes()[ch[j].1] == t0.nodes()[ch[j].1]);
            },
            None => {},
        }
        lemma_snapshot_root_kept(&t0, &t1, i);
    }
    if frozen_attr(t0, ino, a) {
        let (i, h) = choose|i: int, h: int| #[trigger] first_snapshot_node(&t0, ino, i, h) && a == read_only(t0.nodes()[h].attr);
        assert(first_snapshot_node(&t1, ino, i, h));
    }
    if frozen_attr(t1, ino, a) {
        let (i, h) = choose|i: int, h: int| #[trigger] first_snapshot_node(&t1, ino, i, h) && a == read_only(t1.nodes()[h].attr);
        assert(first_snapshot_node(&t0, ino, i, h));
    }
    if frozen_child_answer(t0, ino, name, r) {
        let (i, h) = choose|i: int, h: int|
            #[trigger] first_snapshot_node(&t0, ino, i, h) && r == match child_of(t0.nodes()[h].children, name) {
                Some(c) => Ok::<NodeAttr, FsError>(read_only(t0.nodes()[c].attr)),
                None => Err::<NodeAttr, FsError>(FsError::NotFound),
            };
        assert(first_snapshot_node(&t1, ino, i, h));
    }
    if frozen_child_answer(t1, ino, name, r) {
        let (i, h) = choose|i: int, h: int|
            #[trigger] first_snapshot_node(&t1, ino, i, h) && r == match child_of(t1.nodes()[h].children, name) {
                Some(c) => Ok::<NodeAttr, FsError>(read_only(t1.nodes()[c].attr)),
                None => Err::<NodeAttr, FsError>(FsError::NotFound),
            };
        assert(first_snapshot_node(&t0, ino, i, h));
    }
    if in_snapshots(&t0, ino) {
        if tree_listing_post(t0, ino, l) {
            let (i, h) = choose|i: int, h: int|
                #[trigger] first_snapshot_node(&t0, ino, i, h) && l is Ok && listing_view(l->Ok_0@) == dots(
                    ino,
                    if t0.nodes()[t0.snapshots()[i].2].id == ino {
                        SNAPSHOT_DIR_ID
                    } else {
                        ino
                    },
                ) + listing(t0.nodes(), t0.nodes()[h].children);
            assert(first_snapshot_node(&t1, ino, i, h));
        }
        if tree_listing_post(t1, ino, l) {
            let (i, h) = choose|i: int, h: int|
                #[trigger] first_snapshot_node(&t1, ino, i, h) && l is Ok && listing_view(l->Ok_0@) == dots(
                    ino,
                    if t1.nodes()[t1.snapshots()[i].2].id == ino {
                        SNAPSHOT_DIR_ID
                    } else {
                        ino
                    },
                ) + listing(t1.nodes(), t1.nodes()[h].children);
            assert(first_snapshot_node(&t0, ino, i, h));
        }
    }
}

impl ArcFS {
    /// The tree is well formed, with its snapshot nodes sealed off.
    pub open spec fn wf(&self) -> bool {
        self.tree.wf() && self.tree.sealed()
    }

    /// Mounts the store: the tree as `InodeTree::load` rebuilds it (with
    /// the snapshots that could not be rebuilt, and whether every read of
    /// the live tree succeeded), an empty page cache and an empty TagFS
    /// registry.
    pub fn new(manager: FileManager, now: u64) -> (r: (ArcFS, Vec<SnapshotRestoreFailure>, bool))
        ensures
            r.0.wf(),
            r.0.cache@.0 == Map::<u64, (Seq<u8>, bool)>::empty(),
            r.0.cache@.1 == Seq::<u64>::empty(),
            r.0.tags@ == Seq::<(Seq<char>, VirtualView)>::empty(),
            r.0.tree.nodes()[r.0.tree.root()].id == FUSE_ROOT_ID,
            r.0.tree.nodes()[r.0.tree.root()].attr.kind == NodeKind::Directory,
            forall|k: int|
                #[trigger] under(r.0.tree.nodes(), r.0.tree.root(), k) ==> children_from_store(
                    r.0.manager@,
                    r.0.tree.nodes(),
                    k,
                ),
            r.2 ==> forall|k: int|
                #[trigger] under(r.0.tree.nodes(), r.0.tree.root(), k) && r.0.tree.nodes()[k].attr.kind
                    == NodeKind::Directory ==> store_entries_present(r.0.manager@, r.0.tree.nodes(), k),
            r.2 ==> forall|t: (Seq<char>, u64, u64)|
                #[trigger] snapshot_stored(manager@, t) ==> has_snapshot_named(&r.0.tree, t.0) || exists|f: int|
                    0 <= f < r.1@.len() && r.1@[f].name@ == t.0,
    {
        let mut manager = manager;
        let (tree, failures, complete) = InodeTree::load(&mut manager, now);
        let r = (ArcFS { manager, tree, cache: PageCache::new(), tags: TagRegistry::new() }, failures, complete);
        assert(r.1@ == failures@);
        r
    }

    /// The live inode that `ino` names: the one a virtual file stands for,
    /// else `ino` itself.
    pub fn target_inode(&self, ino: u64) -> (t: u64)
        ensures
            t == match virtual_file_at(self.tags@, ino) {
                Some(r) => r,
                None => ino,
            },
    {
        match self.tags.real_inode_for_virtual_file(ino) {
            Some(r) => r,
            None => ino,
        }
    }

    /// The attributes of `ino` at time `now` (see `getattr_post`).
    pub fn getattr(&self, ino: u64, now: u64) -> (r: Result<NodeAttr, FsError>)
        requires
            self.wf(),
        ensures
            getattr_post(*self, ino, now, r),
    {
        if ino == TAGFS_CONTROL_ID {
            return Ok(control_file_attr(TAGFS_CONTROL_ID, now));
        }
        if self.tags.is_tag_virtual_dir_inode(ino) {
            return Ok(dir_attr(ino, now));
        }
        match self.tags.real_inode_for_virtual_file(ino) {
            Some(rid) => match self.tree.lookup_live_inode_attr(rid) {
                Some(a) => {
                    let mut a = a;
                    a.ino = ino;
                    return Ok(a);
                },
                None => {},
            },
            None => {},
        }
        if ino == SNAPSHOT_DIR_ID {
            return Ok(dir_attr(SNAPSHOT_DIR_ID, now));
        }
        if ino == SNAPSHOT_CREATE_ID {
            return Ok(control_file_attr(SNAPSHOT_CREATE_ID, now));
        }
        match self.tree.snapshot_attr(ino) {
            Some(a) => return Ok(a),
            None => {},
        }
        match self.tree.lookup_live_inode_attr(ino) {
            Some(a) => Ok(a),
            None => Err(FsError::NotFound),
        }
    }

    /// The live names of `ids`, in order.
    fn live_names_of(&self, ids: &Vec<u64>) -> (names: Vec<Option<String>>)
        requires
            self.wf(),
        ensures
            names@.len() == ids@.len(),
            name_views(names@) == live_names(self.tree, ids@),
    {
        let mut names: Vec<Option<String>> = Vec::new();
        let mut i: usize = 0;
        while i < ids.len()
            invariant
                self.wf(),
                i <= ids@.len(),
                names@.len() == i,
                forall|j: int| 0 <= j < i ==> #[trigger] name_views(names@)[j] == live_name(self.tree, ids@[j]),
            decreases ids@.len() - i,
        {
            let n = self.tree.lookup_live_inode_name(ids[i]);
            let ghost nv: Option<Seq<char>> = match &n {
                Some(t) => Some(t@),
                None => None,
            };
            assert(nv == live_name(self.tree, ids@[i as int]));
            let ghost before = names@;
            names.push(n);
            proof {
                assert(name_views(names@)[i as int] == nv);
                assert forall|j: int| 0 <= j < i + 1 implies #[trigger] name_views(names@)[j] == live_name(
                    self.tree,
                    ids@[j],
                ) by {
                    if j < i {
                        assert(names@[j] == before[j]);
                        assert(name_views(names@)[j] == name_views(before)[j]);
                    }
                }
            }
            i = i + 1;
        }
        assert(name_views(names@) =~= live_names(self.tree, ids@));
        names
    }

    /// Looks `name` up in `parent` among the tag directories (see
    /// `tag_stage_post`): `None` when they know no such name.
    pub fn resolve_tag_lookup(&mut self, parent: u64, name: &str, now: u64) -> (r: Result<Option<(u64, NodeAttr)>, FsError>)
        requires
            old(self).wf(),
        ensures
            final(self).tree == old(self).tree,
            final(self).manager == old(self).manager,
            final(self).cache == old(self).cache,
            tag_stage_post(old(self).manager@, old(self).tree, old(self).tags@, final(self).tags@, parent, name@, now, r),
    {
        let ghost s0 = self.tags@;
        let r1 = self.tags.resolve_tag_lookup(&self.manager, parent, name);
        let ghost s_mid = self.tags@;
        let ghost r1g = r1;
        let r = match r1 {
            Err(e) => Err(e),
            Ok(None) => Ok(None),
            Ok(Some(TagEntry::Dir(v))) => Ok(Some((v, dir_attr(v, now)))),
            Ok(Some(TagEntry::Files(tags, ids))) => {
                let names = self.live_names_of(&ids);
                let rp = self.tags.pick_virtual_file(&tags, ids.as_slice(), names.as_slice(), name);
                assert(pick_post(s_mid, self.tags@, tags.deep_view(), ids@, live_names(self.tree, ids@), name@, rp));
                match rp {
                    Err(e) => Err(e),
                    Ok(None) => Ok(None),
                    Ok(Some(p)) => match self.tree.lookup_live_inode_attr(p.1) {
                        Some(a) => {
                            let mut a = a;
                            a.ino = p.0;
                            Ok(Some((p.0, a)))
                        },
                        None => Ok(None),
                    },
                }
            },
        };
        assert(tag_lookup_post(self.manager@, s0, s_mid, parent, name@, r1g));
        assert(tag_answer(self.tree, s_mid, self.tags@, name@, now, r1g, r));
        r
    }

    /// Looks `name` up in directory `parent` (see `lookup_post`).
    pub fn lookup(&mut self, parent: u64, name: &str, now: u64) -> (r: Result<NodeAttr, FsError>)
        requires
            old(self).wf(),
        ensures
            final(self).tree == old(self).tree,
            final(self).manager == old(self).manager,
            final(self).cache == old(self).cache,
            lookup_post(old(self).manager@, old(self).tree, old(self).tags@, final(self).tags@, parent, name@, now, r),
    {
        let name_s = String::from_str(name);
        if parent == FUSE_ROOT_ID && name_s == string_of(".tagfs_ctl") {
            return Ok(control_file_attr(TAGFS_CONTROL_ID, now));
        }
        let ghost s0 = self.tags@;
        let tr = self.resolve_tag_lookup(parent, name, now);
        assert(tag_stage_post(self.manager@, self.tree, s0, self.tags@, parent, name@, now, tr));
        match tr {
            Err(e) => return Err(e),
            Ok(Some(p)) => return Ok(p.1),
            Ok(None) => {},
        }
        let r = self.lookup_plain(parent, name, now);
        r
    }

    /// Looks `name` up in `parent` outside the tag directories (see
    /// `plain_lookup_post`).
    pub fn lookup_plain(&self, parent: u64, name: &str, now: u64) -> (r: Result<NodeAttr, FsError>)
        requires
            self.wf(),
        ensures
            plain_lookup_post(self.tree, parent, name@, now, r),
    {
        let name_s = String::from_str(name);
        if parent == FUSE_ROOT_ID && name_s == string_of(".snapshots") {
            return Ok(dir_attr(SNAPSHOT_DIR_ID, now));
        }
        if parent == SNAPSHOT_DIR_ID {
            if name_s == string_of(".create") {
                return Ok(control_file_attr(SNAPSHOT_CREATE_ID, now));
            }
            return match self.tree.snapshot_root_attr(name) {
                Some(a) => Ok(a),
                None => Err(FsError::NotFound),
            };
        }
        match self.tree.snapshot_lookup(parent, name) {
            Some(Some(a)) => return Ok(a),
            Some(None) => return Err(FsError::NotFound),
            None => {},
        }
        match self.tree.lookup_live_child(parent, name) {
            Some(a) => Ok(a),
            None => Err(FsError::NotFound),
        }
    }

    /// Lists directory `ino` (see `readdir_post`); each entry's position
    /// is its offset.
    pub fn readdir(&mut self, ino: u64) -> (r: Result<Vec<(u64, NodeKind, String)>, FsError>)
        requires
            old(self).wf(),
        ensures
            final(self).tree == old(self).tree,
            final(self).manager == old(self).manager,
            final(self).cache == old(self).cache,
            readdir_post(old(self).manager@, old(self).tree, old(self).tags@, final(self).tags@, ino, r),
    {
        let ghost s0 = self.tags@;
        let mut out: Vec<(u64, NodeKind, String)> = Vec::new();
        if ino == TAGS_DIR_ID {
            let rd = self.tags.tags_dir_entries(&self.manager);
            let ghost rdg = rd;
            let r = match rd {
                Err(e) => Err(e),
                Ok(v) => {
                    push_entry(&mut out, TAGS_DIR_ID, NodeKind::Directory, ".");
                    push_entry(&mut out, FUSE_ROOT_ID, NodeKind::Directory, "..");
                    assert(listing_view(out@) =~= dots(TAGS_DIR_ID, FUSE_ROOT_ID));
                    append_entries(&mut out, v, NodeKind::Directory);
                    Ok(out)
                },
            };
            assert(dir_listing_post(s0, self.tags@, Seq::empty(), single_tag_dirs(s0), indexed_tags(self.manager@), rdg));
            return r;
        }
        match self.tags.get_virtual_dir_tags(ino) {
            Some(current) => {
                let ghost cur = current.deep_view();
                assert(dir_tags_at(s0, ino) == Some(cur));
                let ids = match self.manager.get_files_by_tags(current.as_slice()) {
                    Ok(v) => v,
                    Err(_) => Vec::new(),
                };
                assert(ids@.len() == 0 || sorted_ids_all(self.manager@, cur, ids@));
                let rd = self.tags.child_dir_entries_among(&self.manager, &current, &ids);
                let ghost rdg = rd;
                let ghost s_mid = self.tags@;
                assert(dir_listing_post(s0, s_mid, cur, child_tag_dirs(s0, cur), stored_among(self.manager@, cur, ids@), rdg));
                let dv = match rd {
                    Err(e) => return Err(e),
                    Ok(v) => v,
                };
                let names = self.live_names_of(&ids);
                let rf = self.tags.file_entries(&current, ids.as_slice(), names.as_slice());
                let ghost rfg = rf;
                assert(files_listing_post(s_mid, self.tags@, cur, ids@, live_names(self.tree, ids@), rfg));
                return match rf {
                    Err(e) => Err(e),
                    Ok(fv) => {
                        push_entry(&mut out, ino, NodeKind::Directory, ".");
                        push_entry(&mut out, TAGS_DIR_ID, NodeKind::Directory, "..");
                        assert(listing_view(out@) =~= dots(ino, TAGS_DIR_ID));
                        append_entries(&mut out, dv, NodeKind::Directory);
                        append_entries(&mut out, fv, NodeKind::RegularFile);
                        Ok(out)
                    },
                };
            },
            None => {},
        }
        if ino == SNAPSHOT_DIR_ID {
            push_entry(&mut out, SNAPSHOT_DIR_ID, NodeKind::Directory, ".");
            push_entry(&mut out, FUSE_ROOT_ID, NodeKind::Directory, "..");
            push_entry(&mut out, SNAPSHOT_CREATE_ID, NodeKind::RegularFile, ".create");
            let ghost head = listing_view(out@);
            assert(head =~= dots(SNAPSHOT_DIR_ID, FUSE_ROOT_ID).push((SNAPSHOT_CREATE_ID, NodeKind::RegularFile, ".create"@)));
            let list = self.tree.snapshot_list();
            let mut i: usize = 0;
            while i < list.len()
                invariant
                    self.tree.wf(),
                    i <= list@.len(),
                    list@.len() == self.tree.snapshots().len(),
                    forall|k: int|
                        0 <= k < list@.len() ==> (#[trigger] list@[k]).0 == self.tree.nodes()[self.tree.snapshots()[k].2].id
                            && list@[k].1@ == self.tree.snapshots()[k].0,
                    listing_view(out@) == head + snapshot_entries(self.tree).take(i as int),
                decreases list@.len() - i,
            {
                push_entry(&mut out, list[i].0, NodeKind::Directory, list[i].1.as_str());
                proof {
                    assert(snapshot_entries(self.tree).take(i + 1) =~= snapshot_entries(self.tree).take(i as int).push(
                        snapshot_entries(self.tree)[i as int],
                    ));
                }
                i = i + 1;
            }
            assert(snapshot_entries(self.tree).take(list@.len() as int) =~= snapshot_entries(self.tree));
            return Ok(out);
        }
        match self.tree.snapshot_dir_entries(ino) {
            Some(p) => {
                let ghost lv = listing_view(p.1@);
                push_entry(&mut out, ino, NodeKind::Directory, ".");
                push_entry(&mut out, p.0, NodeKind::Directory, "..");
                assert(listing_view(out@) =~= dots(ino, p.0));
                append_listing(&mut out, p.1);
                assert(listing_view(out@) =~= dots(ino, p.0) + lv);
                return Ok(out);
            },
            None => {},
        }
        match self.tree.live_dir_entries(ino) {
            Some(children) => {
                push_entry(&mut out, ino, NodeKind::Directory, ".");
                push_entry(&mut out, ino, NodeKind::Directory, "..");
                let ghost d = listing_view(out@);
                assert(d =~= dots(ino, ino));
                if ino == FUSE_ROOT_ID {
                    push_entry(&mut out, SNAPSHOT_DIR_ID, NodeKind::Directory, ".snapshots");
                    push_entry(&mut out, TAGS_DIR_ID, NodeKind::Directory, "@tags");
                    push_entry(&mut out, TAGFS_CONTROL_ID, NodeKind::RegularFile, ".tagfs_ctl");
                    assert(listing_view(out@) =~= d + root_extras());
                } else {
                    assert(listing_view(out@) =~= d + Seq::<(u64, NodeKind, Seq<char>)>::empty());
                }
                append_listing(&mut out, children);
                Ok(out)
            },
            None => Err(FsError::NotFound),
        }
    }
    /// Removes `name` from directory `parent` (see `unlink_post`); returns
    /// the removed inode, and whether the store forgot its directory entry
    /// and tags (see `unlink_forgotten`).
    pub fn unlink(&mut self, parent: u64, name: &str) -> (r: Result<(u64, bool), FsError>)
        requires
            old(self).wf(),
        ensures
            final(self).wf(),
            unlink_post(*old(self), *final(self), parent, name@, removed_id(r)),
            unlink_forgotten(*old(self), *final(self), parent, name@, r),
            snapshots_untouched(old(self).tree, final(self).tree),
    {
        if parent == SNAPSHOT_DIR_ID || self.tree.inode_in_snapshot(parent) {
            return Err(FsError::ReadOnly);
        }
        let removed = if self.tags.is_tag_virtual_dir_inode(parent) {
            match self.tree.resolve_real_file_in_tag_dir(&self.manager, &self.tags, parent, name) {
                Ok(real_ino) => self.tree.unlink_real(&mut self.manager, real_ino),
                Err(e) => Err(e),
            }
        } else {
            self.tree.unlink_live(&mut self.manager, parent, name)
        };
        match removed {
            Ok(p) => {
                self.cache.evict_inode(p.0);
                Ok(p)
            },
            Err(e) => Err(e),
        }
    }

    /// Deletes directory `name` from `parent` (see `rmdir_post`).
    pub fn rmdir(&mut self, parent: u64, name: &str) -> (r: Result<Removal, FsError>)
        requires
            old(self).wf(),
        ensures
            final(self).wf(),
            rmdir_post(*old(self), *final(self), parent, name@, r),
    {
        if self.tags.is_tag_virtual_dir_inode(parent) {
            return Err(FsError::InvalidArgument);
        }
        if parent == SNAPSHOT_DIR_ID {
            return match self.tree.remove_snapshot(&mut self.manager, name) {
                Some(result) => Ok(Removal::Snapshot(result)),
                None => Err(FsError::NotFound),
            };
        }
        let ghost fs0 = *self;
        let u = self.unlink(parent, name);
        assert(unlink_post(fs0, *self, parent, name@, removed_id(u)));
        match u {
            Ok(p) => Ok(Removal::Entry(p.0)),
            Err(e) => Err(e),
        }
    }

    /// Creates regular file `name` in `parent` at time `now` (see
    /// `create_post`); returns its attributes as shown and what was done
    /// about its tags.
    pub fn create(&mut self, parent: u64, name: &str, now: u64) -> (r: Result<(NodeAttr, AutoTag), FsError>)
        requires
            old(self).wf(),
        ensures
            final(self).wf(),
            create_post(*old(self), *final(self), parent, name@, now, shown_attr(r)),
            snapshots_untouched(old(self).tree, final(self).tree),
            dir_tags_at(old(self).tags@, parent) is None ==> (r matches Ok(p) ==> file_created(
                old(self).manager@,
                final(self).manager@,
                &old(self).tree,
                p.0.ino,
                parent,
                name@,
                p.1,
            )),
    {
        if parent == SNAPSHOT_DIR_ID || self.tree.inode_in_snapshot(parent) {
            return Err(FsError::ReadOnly);
        }
        if parent == TAGS_DIR_ID {
            return Err(FsError::InvalidArgument);
        }
        let ghost s0 = self.tags@;
        match self.tags.get_virtual_dir_tags(parent) {
            Some(tags) => {
                let real_parent = match self.tree.ensure_real_path_for_tags(&mut self.manager, tags.as_slice(), now) {
                    Ok(p) => p,
                    Err(e) => return Err(e),
                };
                let (id, tagged) = match self.tree.create_live_file_under_parent(&mut self.manager, real_parent, name, now) {
                    Ok(p) => p,
                    Err(e) => return Err(e),
                };
                let a = match self.tree.lookup_live_inode_attr(id) {
                    Some(a) => a,
                    None => return Err(FsError::Io),
                };
                let v = match self.tags.get_or_create_tag_virtual_file(tags.as_slice(), id) {
                    Some(v) => v,
                    None => return Err(FsError::Io),
                };
                let mut shown = a;
                shown.ino = v;
                proof {
                    assert(dir_tags_at(s0, parent) == Some(tags.deep_view()));
                    assert(file_lookup_post(s0, self.tags@, tags.deep_view(), id, Some(v)));
                    assert(shown_as_virtual(s0, self.tags@, self.tree, tags.deep_view(), shown));
                }
                Ok((shown, tagged))
            },
            None => {
                assert(dir_tags_at(s0, parent) is None);
                let (id, tagged) = match self.tree.create_live_file_under_parent(&mut self.manager, parent, name, now) {
                    Ok(p) => p,
                    Err(e) => return Err(e),
                };
                match self.tree.lookup_live_inode_attr(id) {
                    Some(a) => Ok((a, tagged)),
                    None => Err(FsError::Io),
                }
            },
        }
    }

    /// Makes sure of the virtual directory for `tags` and of its real path
    /// (see `tag_mkdir_post`).
    fn make_tag_dir(&mut self, tags: &Vec<String>, now: u64) -> (r: Result<MkdirOutcome, FsError>)
        requires
            old(self).wf(),
        ensures
            final(self).wf(),
            tag_mkdir_post(*old(self), *final(self), tags.deep_view(), now, r),
            snapshots_untouched(old(self).tree, final(self).tree),
    {
        let v = match self.tags.get_or_create_tag_virtual_dir(tags.as_slice()) {
            Some(v) => v,
            None => return Err(FsError::Io),
        };
        match self.tree.ensure_real_path_for_tags(&mut self.manager, tags.as_slice(), now) {
            Ok(_) => Ok(MkdirOutcome::Made(dir_attr(v, now))),
            Err(e) => Err(e),
        }
    }

    /// Makes directory `name` in `parent` at time `now` (see `mkdir_post`).
    pub fn mkdir(&mut self, parent: u64, name: &str, now: u64) -> (r: Result<MkdirOutcome, FsError>)
        requires
            old(self).wf(),
        ensures
            final(self).wf(),
            mkdir_post(*old(self), *final(self), parent, name@, now, r),
            snapshots_untouched(old(self).tree, final(self).tree),
    {
        if parent == TAGS_DIR_ID {
            let mut tags: Vec<String> = Vec::new();
            tags.push(String::from_str(name));
            assert(tags.deep_view() =~= seq![name@]);
            return self.make_tag_dir(&tags, now);
        }
        match self.tags.get_virtual_dir_tags(parent) {
            Some(cur) => {
                let mut tags = cur;
                let ghost c0 = tags.deep_view();
                tags.push(String::from_str(name));
                assert(tags.deep_view() =~= c0.push(name@));
                let canonical = canonicalize_tags(tags.as_slice());
                return self.make_tag_dir(&canonical, now);
            },
            None => {},
        }
        if parent == SNAPSHOT_DIR_ID && String::from_str(name) != string_of(".create") {
            return Err(FsError::ReadOnly);
        }
        if self.tree.inode_in_snapshot(parent) {
            return Err(FsError::ReadOnly);
        }
        proof {
            reveal_strlit(".restore_");
            reveal_strlit(".snap_");
            assert(".restore_"@ =~= seq!['.', 'r', 'e', 's', 't', 'o', 'r', 'e', '_']);
            assert(".snap_"@ =~= seq!['.', 's', 'n', 'a', 'p', '_']);
        }
        match classify_mkdir_name(name) {
            MkdirRequest::Restore(s) => {
                assert(name@.skip(9) =~= s@);
                if self.tree.has_snapshot(s.as_str()) {
                    Ok(MkdirOutcome::RestoreSnapshot(s))
                } else {
                    Err(FsError::NotFound)
                }
            },
            MkdirRequest::Snapshot(s) => {
                assert(name@.skip(6) =~= s@);
                if self.tree.has_snapshot(s.as_str()) {
                    Err(FsError::AlreadyExists)
                } else {
                    Ok(MkdirOutcome::TakeSnapshot(s))
                }
            },
            MkdirRequest::Plain => match self.tree.mkdir_live(&mut self.manager, parent, name, now) {
                Ok(a) => Ok(MkdirOutcome::Made(a)),
                Err(e) => Err(e),
            },
        }
    }

    /// Takes snapshot `name` of the stored live tree at time `timestamp`
    /// (seconds since the epoch); buffered writes are to be flushed
    /// before. `AlreadyExists` when there is one of that name, `Io` when
    /// it could not be taken.
    pub fn take_snapshot(&mut self, name: &str, timestamp: u64, now: u64) -> (r: Result<(), FsError>)
        requires
            old(self).wf(),
        ensures
            final(self).wf(),
            final(self).cache == old(self).cache,
            final(self).tags == old(self).tags,
            final(self).tree.registry() == old(self).tree.registry(),
            has_snapshot_named(&old(self).tree, name@) ==> r == Err::<(), FsError>(FsError::AlreadyExists) && unchanged(
                *old(self),
                *final(self),
            ),
            r == Err::<(), FsError>(FsError::AlreadyExists) <==> has_snapshot_named(&old(self).tree, name@),
            r is Ok ==> has_snapshot_named(&final(self).tree, name@),
            r is Ok ==> snapshot_stored_as(final(self).manager@, &final(self).tree, name@, timestamp),
            r is Ok ==> last_snapshot_mirrors_root(old(self).manager@, &final(self).tree),
            r is Err ==> r == Err::<(), FsError>(FsError::AlreadyExists) || r == Err::<(), FsError>(FsError::Io),
            keeps_nodes(old(self).tree.nodes(), final(self).tree.nodes()),
            old(self).tree.frozen().subset_of(final(self).tree.frozen()),
    {
        if self.tree.has_snapshot(name) {
            return Err(FsError::AlreadyExists);
        }
        match self.tree.create_snapshot_named(&mut self.manager, name, timestamp, now) {
            Ok(()) => Ok(()),
            Err(_) => Err(FsError::Io),
        }
    }

    /// Restores snapshot `name` at time `timestamp` (seconds since the
    /// epoch): first the current state is kept as snapshot
    /// `before_restore_<timestamp>`, then the live tree is replaced by the
    /// snapshot's and the page cache emptied. Buffered writes are to be
    /// flushed before. `NotFound`, with nothing changed, where there is no
    /// snapshot `name`; `Io` when either step fails.
    pub fn restore_snapshot(&mut self, name: &str, timestamp: u64, now: u64) -> (r: Result<(), FsError>)
        requires
            old(self).wf(),
        ensures
            final(self).wf(),
            final(self).tags == old(self).tags,
            !has_snapshot_named(&old(self).tree, name@) ==> r == Err::<(), FsError>(FsError::NotFound) && unchanged(
                *old(self),
                *final(self),
            ),
            has_snapshot_named(&old(self).tree, name@) ==> r is Err ==> r == Err::<(), FsError>(FsError::Io),
            r is Ok ==> has_snapshot_named(&final(self).tree, "before_restore_"@ + decimal(timestamp as nat))
                && final(self).cache@.0 == Map::<u64, (Seq<u8>, bool)>::empty(),
    {
        if !self.tree.has_snapshot(name) {
            return Err(FsError::NotFound);
        }
        let mut backup = string_of("before_restore_");
        push_decimal(&mut backup, timestamp);
        match self.tree.create_snapshot_named(&mut self.manager, backup.as_str(), timestamp, now) {
            Ok(()) => {},
            Err(_) => return Err(FsError::Io),
        }
        let result = self.tree.restore_live_from_snapshot(&mut self.manager, name, now);
        self.cache.clear();
        match result {
            Ok(()) => Ok(()),
            Err(_) => Err(FsError::Io),
        }
    }

    /// Whether `ino` can be opened: TagFS directories cannot.
    pub fn open(&self, ino: u64) -> (r: Result<(), FsError>)
        ensures
            is_tag_dir(self.tags@, ino) ==> r == Err::<(), FsError>(FsError::IsDirectory),
            !is_tag_dir(self.tags@, ino) ==> r is Ok,
    {
        if self.tags.is_tag_virtual_dir_inode(ino) {
            Err(FsError::IsDirectory)
        } else {
            Ok(())
        }
    }

    /// What a read of `ino` is served from (see `read_target_post`).
    pub fn read_target(&self, ino: u64) -> (r: Result<ReadTarget, FsError>)
        requires
            self.wf(),
        ensures
            read_target_post(*self, ino, r),
    {
        if ino == TAGFS_CONTROL_ID {
            return Ok(ReadTarget::Nothing);
        }
        if self.tags.is_tag_virtual_dir_inode(ino) {
            return Err(FsError::IsDirectory);
        }
        let target = self.target_inode(ino);
        if ino == SNAPSHOT_CREATE_ID {
            return Ok(ReadTarget::Nothing);
        }
        if self.tree.is_live(target) || self.tree.inode_in_snapshot(target) {
            Ok(ReadTarget::File(target))
        } else {
            Err(FsError::NotFound)
        }
    }

    /// Serves a read of at most `size` bytes at `offset` of `ino` from its
    /// buffer, which becomes the most recently used: nothing at a negative
    /// offset or one past any buffer.
    pub fn read_cached(&mut self, ino: u64, offset: i64, size: u32) -> (out: Vec<u8>)
        ensures
            final(self).cache@.0 == old(self).cache@.0,
            final(self).cache@.1 == without(old(self).cache@.1, ino).push(ino),
            final(self).tree == old(self).tree,
            final(self).manager == old(self).manager,
            final(self).tags == old(self).tags,
            out@ == if offset < 0 || offset > usize::MAX {
                Seq::<u8>::empty()
            } else {
                read_window(buffer_of(old(self).cache@.0, ino), offset as nat, size as nat)
            },
    {
        self.cache.touch(ino);
        if offset < 0 || offset as u64 > usize::MAX as u64 {
            return Vec::new();
        }
        self.cache.read_range(ino, offset as usize, size as usize)
    }

    /// Where writing `data` at `offset` of `ino` goes (see
    /// `write_target_post`).
    pub fn write_target(&self, ino: u64, offset: i64, data: &[u8]) -> (r: Result<WriteTarget, FsError>)
        requires
            self.wf(),
            0 <= offset,
            offset + data@.len() <= usize::MAX,
        ensures
            write_target_post(*self, ino, offset, data@, r),
    {
        let target = self.target_inode(ino);
        if ino == TAGFS_CONTROL_ID {
            if offset != 0 {
                return Err(FsError::InvalidArgument);
            }
            return Ok(WriteTarget::Control);
        }
        if self.tags.is_tag_virtual_dir_inode(ino) {
            return Err(FsError::ReadOnly);
        }
        if ino == SNAPSHOT_CREATE_ID {
            if offset != 0 {
                return Err(FsError::InvalidArgument);
            }
            let name = match snapshot_name_from_write(data) {
                Ok(n) => n,
                Err(e) => return Err(e),
            };
            if self.tree.has_snapshot(name.as_str()) {
                return Err(FsError::AlreadyExists);
            }
            return Ok(WriteTarget::Snapshot(name));
        }
        if self.tree.inode_in_snapshot(target) {
            return Err(FsError::PermissionDenied);
        }
        Ok(WriteTarget::File(target, offset as usize))
    }

    /// Writes `data` at `offset` into the buffer of `ino`, which becomes
    /// dirty and the most recently used; returns where the write ends.
    pub fn write_cached(&mut self, ino: u64, offset: usize, data: &[u8]) -> (end: usize)
        requires
            offset + data@.len() <= usize::MAX,
        ensures
            end == offset + data@.len(),
            final(self).cache@.0 == old(self).cache@.0.insert(
                ino,
                (overlay(buffer_of(old(self).cache@.0, ino), offset as nat, data@), true),
            ),
            final(self).cache@.1 == without(old(self).cache@.1, ino).push(ino),
            final(self).tree == old(self).tree,
            final(self).manager == old(self).manager,
            final(self).tags == old(self).tags,
    {
        let end = self.cache.write_at(ino, offset, data);
        self.cache.touch(ino);
        end
    }

    /// Finishes a write to live file `ino` that ended at `end`, at time
    /// `now`: its size grows to `end` where that is more and its change
    /// time is now (see `InodeTree::note_write`); a file that has no tags
    /// yet is tagged with the names of the directories above it, where it
    /// has a name and there are any.
    pub fn finish_write(&mut self, ino: u64, end: u64, now: u64) -> (r: AutoTag)
        requires
            old(self).wf(),
        ensures
            final(self).wf(),
            final(self).cache == old(self).cache,
            final(self).tags == old(self).tags,
            final(self).tree.registry() == old(self).tree.registry(),
            final(self).tree.snapshots() == old(self).tree.snapshots(),
            final(self).tree.nodes() == after_write(&old(self).tree, ino, end, now),
            live_pos(&old(self).tree, ino) matches Some(h) ==> (final(self).tree.nodes()[h].attr.size >= old(self).tree.nodes()[h].attr.size && final(self).tree.nodes()[h].attr.size >= end && (final(self).tree.nodes()[h].attr.size == old(self).tree.nodes()[h].attr.size || final(self).tree.nodes()[h].attr.size == end)),
            snapshots_untouched(old(self).tree, final(self).tree),
            r == AutoTag::NotNeeded ==> final(self).manager@ == old(self).manager@,
            only_tags_changed(old(self).manager@, final(self).manager@, ino),
            r == AutoTag::Stored ==> exists|p: u64, walk: Seq<(Seq<char>, u64)>|
                tagging_parent(&final(self).tree, old(self).manager@, ino, p) && #[trigger] ancestry_walk(
                    old(self).manager@,
                    &final(self).tree,
                    p,
                    walk,
                ) && ancestry_tags(walk).len() > 0 && tags_set_to(
                    old(self).manager@,
                    final(self).manager@,
                    ino,
                    ancestry_tags(walk),
                ),
    {
        proof {
            lemma_write_never_shrinks(&self.tree, ino, end, now);
        }
        self.tree.note_write(ino, end, now);
        let untagged = match self.manager.get_file_tags(ino) {
            Ok(v) => v.len() == 0,
            Err(_) => true,
        };
        if untagged {
            let filename = match self.tree.lookup_live_inode_name(ino) {
                Some(n) => n,
                None => match self.manager.load_inode(ino) {
                    Ok(Some(meta)) => meta.name,
                    _ => String::new(),
                },
            };
            let parent = match self.tree.lookup_live_inode_parent(ino) {
                Some(p) => p,
                None => match self.manager.load_inode(ino) {
                    Ok(Some(meta)) => meta.parent_id,
                    _ => FUSE_ROOT_ID,
                },
            };
            let auto_tags = self.tree.derive_tags_from_parent_ancestry(&self.manager, parent);
            if auto_tags.len() > 0 && !filename.as_str().is_empty() {
                let ghost m0 = self.manager@;
                let ghost at = auto_tags.deep_view();
                let ghost walk = choose|walk: Seq<(Seq<char>, u64)>|
                    #[trigger] ancestry_walk(m0, &self.tree, parent, walk) && at == ancestry_tags(walk);
                proof {
                    assert(tagging_parent(&self.tree, m0, ino, parent));
                    assert(ancestry_walk(m0, &self.tree, parent, walk) && at == ancestry_tags(walk));
                    assert(at.len() == auto_tags@.len());
                }
                let stored = self.manager.set_file_tags(ino, filename.as_str(), auto_tags);
                return match stored {
                    Ok(()) => {
                        assert(tagging_parent(&self.tree, m0, ino, parent) && ancestry_walk(m0, &self.tree, parent, walk)
                            && ancestry_tags(walk).len() > 0 && tags_set_to(m0, self.manager@, ino, ancestry_tags(walk)));
                        AutoTag::Stored
                    },
                    Err(_) => AutoTag::Failed,
                };
            }
        }
        AutoTag::NotNeeded
    }

    /// The live file that resizes and writes of `ino` change (see
    /// `change_target_post`).
    pub fn change_target(&self, ino: u64) -> (r: Result<u64, FsError>)
        requires
            self.wf(),
        ensures
            change_target_post(*self, ino, r),
    {
        if self.tags.is_tag_virtual_dir_inode(ino) {
            return Err(FsError::ReadOnly);
        }
        let target = self.target_inode(ino);
        if self.tree.inode_in_snapshot(target) {
            return Err(FsError::PermissionDenied);
        }
        Ok(target)
    }

    /// Resizes the buffer of `ino` to `len` bytes (cut, or grown with zero
    /// bytes); it becomes dirty and the most recently used.
    pub fn resize_cached(&mut self, ino: u64, len: usize)
        ensures
            final(self).cache@.0 == old(self).cache@.0.insert(
                ino,
                (resized(buffer_of(old(self).cache@.0, ino), len as nat), true),
            ),
            final(self).cache@.1 == without(old(self).cache@.1, ino).push(ino),
            final(self).tree == old(self).tree,
            final(self).manager == old(self).manager,
            final(self).tags == old(self).tags,
    {
        self.cache.resize_to(ino, len);
        self.cache.touch(ino);
    }

    /// The live file whose buffered writes `fsync` and `release` of `ino`
    /// flush: `ReadOnly` for a TagFS directory.
    pub fn flush_target(&self, ino: u64) -> (r: Result<u64, FsError>)
        ensures
            is_tag_dir(self.tags@, ino) ==> r == Err::<u64, FsError>(FsError::ReadOnly),
            !is_tag_dir(self.tags@, ino) ==> r == Ok::<u64, FsError>(target_of(self.tags@, ino)),
    {
        if self.tags.is_tag_virtual_dir_inode(ino) {
            return Err(FsError::ReadOnly);
        }
        Ok(self.target_inode(ino))
    }

    /// Finishes flushing the dirty buffer `buffer` of `ino`, whose chunks
    /// are stored and whose recipe is `recipe`: the recipe is recorded, so
    /// is the live node's inode record, and the buffer is kept clean as the
    /// most recently used.
    pub fn commit_flush(&mut self, ino: u64, recipe: &FileRecipe, buffer: Vec<u8>) -> (r: Result<(), String>)
        requires
            old(self).wf(),
        ensures
            final(self).wf(),
            final(self).tree == old(self).tree,
            final(self).tags == old(self).tags,
            r is Err ==> final(self).cache == old(self).cache,
            r is Ok ==> final(self).cache@.0 == old(self).cache@.0.insert(ino, (buffer@, false))
                && final(self).cache@.1 == without(old(self).cache@.1, ino).push(ino),
            r is Ok ==> crate::file_manager::recipe_record(final(self).manager@, ino) == Some(
                Some(crate::file_manager::recipe_tuple(*recipe)),
            ),
    {
        match self.manager.save_recipe(ino, recipe) {
            Ok(()) => {},
            Err(e) => return Err(e),
        }
        let ghost m1 = self.manager@;
        match self.tree.node_metadata(ino) {
            Some(meta) => {
                match self.manager.save_inode(&meta) {
                    Ok(()) => {
                        proof {
                            lemma_inode_recipe_keys_differ(meta.id, ino);
                            assert(self.manager@[key_bytes(spec_recipe_key(ino))] == m1[key_bytes(spec_recipe_key(ino))]);
                        }
                    },
                    Err(e) => return Err(e),
                }
            },
            None => {},
        }
        self.cache.insert_clean(ino, buffer);
        self.cache.touch(ino);
        Ok(())
    }
}

} // verus!
