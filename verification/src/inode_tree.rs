//! The in-memory inode tree of the mounted file system: the live tree, the
//! frozen snapshot trees, and the registry that finds live nodes by inode.
//!
//! Nodes live in an arena and are named by their position in it. A node
//! can be reached from several places (the registry, the children of other
//! nodes, the live root, a snapshot); how many places reach it is what
//! copy-on-write looks at: a node that more than one place holds is copied
//! before it is changed.
use vstd::prelude::*;
use std::collections::HashMap;
use std::collections::HashSet;
use crate::file_manager::{
    dirent_child, dirent_names, entry_forgotten, inode_record, recipe_record, recipe_tuple, lemma_recipe_key_injective, snapshot_stored, snapshot_tuple, lemma_inode_key_not_snapshot, prefix_snapshot, only_tags_changed, lemma_records_not_tag_keys, spec_inode_key, spec_recipe_key, tags_set_to, lemma_inode_not_tag_key, lemma_recipe_dirent_keys_differ, lemma_inode_recipe_keys_differ, lemma_dirent_not_tag_key, lemma_snapshot_key_apart, lemma_dirent_parents_differ, spec_dirent_key, key_bytes, spec_snapshot_key, inode_tuple, lemma_inode_dirent_keys_differ, store_error_text, tags_of, tags_updated, FileKind, FileManager, FileRecipe,
    InodeAttr, InodeMetadata,
};
use crate::tagfs::{canonicalize_tags, TagRegistry, SNAPSHOT_DIR_ID};
use crate::codec::{bincode_decode_snapshot, bincode_inode, bincode_recipe, bincode_snapshot, bincode_u64};
use crate::store::is_prefix;
use crate::fs_ops::{name_views, named_matches, unique_named_match};
use crate::fs_ops::{block_count, FsError};
use crate::text::{canonical_of, path_components, push_decimal, split_path, string_of, string_push};
use crate::tagfs::FUSE_ROOT_ID;

verus! {

broadcast use vstd::std_specs::hash::group_hash_axioms;

/// What a node is.
#[derive(Debug, Clone, Copy, PartialEq, Eq, Structural)]
pub enum NodeKind {
    Directory,
    RegularFile,
}

/// The attributes the file system reports for a node. Times are
/// nanoseconds since the Unix epoch.
#[derive(Debug, Clone, Copy, PartialEq, Eq, Structural)]
pub struct NodeAttr {
    pub ino: u64,
    pub size: u64,
    pub blocks: u64,
    pub kind: NodeKind,
    pub perm: u16,
    pub nlink: u32,
    pub uid: u32,
    pub gid: u32,
    pub blksize: u32,
    pub accessed: u64,
    pub modified: u64,
    pub changed: u64,
    pub created: u64,
}

/// The attributes of a new directory `ino` made at time `now`.
pub open spec fn spec_dir_attr(ino: u64, now: u64) -> NodeAttr {
    NodeAttr {
        ino,
        size: 0,
        blocks: 0,
        kind: NodeKind::Directory,
        perm: 0o755,
        nlink: 2,
        uid: 1000,
        gid: 1000,
        blksize: 512,
        accessed: now,
        modified: now,
        changed: now,
        created: now,
    }
}

/// The attributes of a new directory `ino` made at time `now`: mode 755,
/// two links, owner 1000, 512-byte blocks.
pub fn dir_attr(ino: u64, now: u64) -> (a: NodeAttr)
    ensures
        a == spec_dir_attr(ino, now),
{
    NodeAttr {
        ino,
        size: 0,
        blocks: 0,
        kind: NodeKind::Directory,
        perm: 0o755,
        nlink: 2,
        uid: 1000,
        gid: 1000,
        blksize: 512,
        accessed: now,
        modified: now,
        changed: now,
        created: now,
    }
}

/// The attributes of a control file `ino` made at time `now`.
pub open spec fn spec_control_attr(ino: u64, now: u64) -> NodeAttr {
    NodeAttr { kind: NodeKind::RegularFile, perm: 0o644, nlink: 1, size: 0, ..spec_dir_attr(ino, now) }
}

/// `a` made read-only (mode 555), as snapshot nodes are shown.
pub open spec fn read_only(a: NodeAttr) -> NodeAttr {
    NodeAttr { perm: 0o555, ..a }
}

/// The attributes of a control file `ino` (such as `.tagfs_ctl`): a
/// regular file of mode 644 with one link.
pub fn control_file_attr(ino: u64, now: u64) -> (a: NodeAttr)
    ensures
        a == spec_control_attr(ino, now),
{
    let mut a = dir_attr(ino, now);
    a.kind = NodeKind::RegularFile;
    a.perm = 0o644;
    a.nlink = 1;
    a.size = 0;
    a
}

/// A node: its inode, parent, name, attributes, children by name, and how
/// many places hold it.
pub struct Inode {
    id: u64,
    parent_id: u64,
    name: String,
    attr: NodeAttr,
    children: Vec<(String, usize)>,
    refs: u64,
}

/// A node as plain values; children name their arena positions.
pub struct NodeView {
    pub id: u64,
    pub parent_id: u64,
    pub name: Seq<char>,
    pub attr: NodeAttr,
    pub children: Seq<(Seq<char>, int)>,
}

/// The plain values of a child list.
pub open spec fn children_view(c: Seq<(String, usize)>) -> Seq<(Seq<char>, int)> {
    c.map_values(|e: (String, usize)| (e.0@, e.1 as int))
}

/// The plain values of a node.
spec fn node_view(n: Inode) -> NodeView {
    NodeView { id: n.id, parent_id: n.parent_id, name: n.name@, attr: n.attr, children: children_view(n.children@) }
}

impl Inode {
    /// A node `id` of kind `kind` made at time `now`, with no parent, name
    /// or children, that nothing holds yet.
    fn new(id: u64, kind: NodeKind, now: u64) -> (n: Inode)
        ensures
            node_view(n) == (NodeView {
                id,
                parent_id: 0,
                name: Seq::empty(),
                attr: NodeAttr { kind, ..spec_dir_attr(id, now) },
                children: Seq::empty(),
            }),
            n.refs == 0,
    {
        let mut attr = dir_attr(id, now);
        attr.kind = kind;
        let n = Inode { id, parent_id: 0, name: String::new(), attr, children: Vec::new(), refs: 0 };
        assert(children_view(n.children@) =~= Seq::<(Seq<char>, int)>::empty());
        n
    }
}

/// A snapshot: its name, when it was taken (seconds since the epoch) and
/// the arena position of its root.
pub struct Snapshot {
    name: String,
    timestamp: u64,
    root: usize,
}

/// The position of the child named `name`, if any.
pub open spec fn child_pos(children: Seq<(Seq<char>, int)>, name: Seq<char>) -> Option<int> {
    if exists|j: int| 0 <= j < children.len() && #[trigger] children[j].0 == name {
        Some(choose|j: int| 0 <= j < children.len() && #[trigger] children[j].0 == name)
    } else {
        None
    }
}

/// The arena position of the child named `name`, if any.
pub open spec fn child_of(children: Seq<(Seq<char>, int)>, name: Seq<char>) -> Option<int> {
    match child_pos(children, name) {
        Some(j) => Some(children[j].1),
        None => None,
    }
}

/// No two children share a name.
pub open spec fn names_unique(children: Seq<(Seq<char>, int)>) -> bool {
    forall|a: int, b: int|
        0 <= a < children.len() && 0 <= b < children.len() && a != b ==> #[trigger] children[a].0
            != #[trigger] children[b].0
}

/// The inode tree.
pub struct InodeTree {
    nodes: Vec<Inode>,
    registry: HashMap<u64, usize>,
    root: usize,
    snapshots: Vec<Snapshot>,
    next_inode: u64,
    frozen: Ghost<Set<int>>,
}

impl InodeTree {
    /// The nodes, by arena position.
    pub closed spec fn nodes(&self) -> Seq<NodeView> {
        self.nodes@.map_values(|n: Inode| node_view(n))
    }

    /// The live nodes by inode.
    pub closed spec fn registry(&self) -> Map<u64, int> {
        self.registry@.map_values(|h: usize| h as int)
    }

    /// The position of the live root.
    pub closed spec fn root(&self) -> int {
        self.root as int
    }

    /// The snapshots: name, time taken and root position.
    pub closed spec fn snapshots(&self) -> Seq<(Seq<char>, u64, int)> {
        self.snapshots@.map_values(|s: Snapshot| (s.name@, s.timestamp, s.root as int))
    }

    /// The next inode number to hand out.
    pub closed spec fn next_inode(&self) -> u64 {
        self.next_inode
    }

    /// How many places hold each node, by arena position.
    pub closed spec fn holders(&self) -> Seq<u64> {
        self.nodes@.map_values(|n: Inode| n.refs)
    }

    /// The arena positions of the snapshot nodes.
    pub closed spec fn frozen(&self) -> Set<int> {
        self.frozen@
    }

    /// The snapshot nodes are sealed off from the live tree: each is in
    /// the arena, a node leads only to nodes on its own side (snapshot or
    /// not), every snapshot root is a snapshot node, and neither the live
    /// root nor a registered inode is.
    pub closed spec fn sealed(&self) -> bool {
        let f = self.frozen@;
        let n = self.nodes();
        &&& forall|q: int| #[trigger] f.contains(q) ==> 0 <= q < n.len()
        &&& forall|q: int, j: int|
            0 <= q < n.len() && 0 <= j < n[q].children.len() ==> (f.contains(q) <==> f.contains(
                #[trigger] n[q].children[j].1,
            ))
        &&& forall|i: int| 0 <= i < self.snapshots().len() ==> f.contains(#[trigger] self.snapshots()[i].2)
        &&& forall|id: u64| #[trigger] self.registry().contains_key(id) ==> !f.contains(self.registry()[id])
        &&& !f.contains(self.root())
    }

    /// Every position named anywhere is in the arena, children names are
    /// unique within a node, and snapshot names are unique.
    pub closed spec fn wf(&self) -> bool {
        &&& self.root < self.nodes@.len()
        &&& forall|id: u64| #[trigger] self.registry@.contains_key(id) ==> self.registry@[id] < self.nodes@.len()
        &&& forall|h: int, j: int|
            0 <= h < self.nodes@.len() && 0 <= j < self.nodes@[h].children@.len() ==> #[trigger] self.nodes@[h].children@[j].1
                < self.nodes@.len()
        &&& forall|h: int| 0 <= h < self.nodes@.len() ==> names_unique(#[trigger] children_view(self.nodes@[h].children@))
        &&& forall|i: int| 0 <= i < self.snapshots@.len() ==> #[trigger] self.snapshots@[i].root < self.nodes@.len()
        &&& forall|a: int, b: int|
            0 <= a < self.snapshots@.len() && 0 <= b < self.snapshots@.len() && a != b ==> #[trigger] self.snapshots@[a].name@
                != #[trigger] self.snapshots@[b].name@
    }
}


/// The children without the entry named `name`.
pub open spec fn without_child(children: Seq<(Seq<char>, int)>, name: Seq<char>) -> Seq<(Seq<char>, int)> {
    match child_pos(children, name) {
        Some(j) => children.remove(j),
        None => children,
    }
}

/// A node with other children.
pub open spec fn with_children(n: NodeView, children: Seq<(Seq<char>, int)>) -> NodeView {
    NodeView { children, ..n }
}

/// What `child_pos` finds in a list without duplicate names.
proof fn lemma_child_pos(children: Seq<(Seq<char>, int)>, name: Seq<char>)
    requires
        names_unique(children),
    ensures
        match child_pos(children, name) {
            Some(j) => 0 <= j < children.len() && children[j].0 == name,
            None => forall|j: int| 0 <= j < children.len() ==> #[trigger] children[j].0 != name,
        },
        forall|j: int| 0 <= j < children.len() && #[trigger] children[j].0 == name ==> child_pos(children, name) == Some(j),
{
}

/// In a list without duplicate names, once the entry named `name` is
/// taken out, no entry has that name.
pub proof fn lemma_without_child_absent(children: Seq<(Seq<char>, int)>, name: Seq<char>)
    requires
        names_unique(children),
    ensures
        child_of(without_child(children, name), name) is None,
{
    lemma_child_pos(children, name);
    let w = without_child(children, name);
    match child_pos(children, name) {
        Some(j) => {
            assert forall|k: int| 0 <= k < w.len() implies #[trigger] w[k].0 != name by {
                if k < j {
                    assert(w[k] == children[k]);
                } else {
                    assert(w[k] == children[k + 1]);
                }
            }
        },
        None => {},
    }
}

/// In a well-formed tree, live inodes name nodes of the arena, and no
/// node has two children of one name.
pub proof fn lemma_wf_facts(t: &InodeTree)
    requires
        t.wf(),
    ensures
        forall|id: u64| #[trigger] t.registry().contains_key(id) ==> 0 <= t.registry()[id] < t.nodes().len(),
        forall|h: int| 0 <= h < t.nodes().len() ==> names_unique(#[trigger] t.nodes()[h].children),
        children_in_arena(t.nodes()),
{
    assert forall|h: int| 0 <= h < t.nodes().len() implies names_unique(#[trigger] t.nodes()[h].children) by {
        assert(t.nodes()[h].children == children_view(t.nodes@[h].children@));
    }
    assert forall|q: int, j: int| 0 <= q < t.nodes().len() && 0 <= j < t.nodes()[q].children.len() implies 0
        <= #[trigger] t.nodes()[q].children[j].1 < t.nodes().len() by {
        assert(t.nodes()[q].children == children_view(t.nodes@[q].children@));
        assert(t.nodes@[q].children@[j].1 < t.nodes@.len());
    }
}

/// Nothing of the snapshot nodes changed from `t0` to `t1`: the same
/// positions are snapshot nodes, and each holds what it held.
pub open spec fn frozen_kept(t0: &InodeTree, t1: &InodeTree) -> bool {
    &&& t1.frozen() == t0.frozen()
    &&& t0.nodes().len() <= t1.nodes().len()
    &&& forall|q: int| #[trigger] t0.frozen().contains(q) ==> t1.nodes()[q] == t0.nodes()[q]
}

/// Every snapshot root of `s1` is one of `s0`, or `extra`.
pub open spec fn roots_within(s0: Seq<(Seq<char>, u64, int)>, s1: Seq<(Seq<char>, u64, int)>, extra: int) -> bool {
    forall|i: int|
        0 <= i < s1.len() ==> (#[trigger] s1[i]).2 == extra || exists|k: int| 0 <= k < s0.len() && s0[k].2 == s1[i].2
}

/// The nodes from position `n` on lead only to nodes from `n` on.
pub open spec fn block_closed(nodes: Seq<NodeView>, n: int) -> bool {
    forall|k: int, j: int| n <= k < nodes.len() && 0 <= j < nodes[k].children.len() ==> n <= #[trigger] nodes[k].children[j].1
}

/// Every inode registered in `r1` is registered as in `r0`, or names a
/// position from `n` on.
pub open spec fn registry_grows_new(r0: Map<u64, int>, r1: Map<u64, int>, n: int) -> bool {
    forall|id: u64| #[trigger] r1.contains_key(id) ==> (r0.contains_key(id) && r1[id] == r0[id]) || r1[id] >= n
}

/// The positions from `a` up to `b`.
pub open spec fn span(a: int, b: int) -> Set<int> {
    Set::new(|q: int| a <= q < b)
}

/// The entries left after taking one out are entries of the list.
proof fn lemma_without_child_entries(children: Seq<(Seq<char>, int)>, name: Seq<char>)
    ensures
        forall|k: int|
            0 <= k < without_child(children, name).len() ==> children.contains(
                #[trigger] without_child(children, name)[k],
            ),
{
    let w = without_child(children, name);
    assert forall|k: int| 0 <= k < w.len() implies children.contains(#[trigger] w[k]) by {
        match child_pos(children, name) {
            Some(j) => {
                if k < j {
                    assert(children[k] == w[k]);
                } else {
                    assert(children[k + 1] == w[k]);
                }
            },
            None => {
                assert(children[k] == w[k]);
            },
        }
    }
}

/// A block stays closed when nodes it keeps are followed by a closed
/// block of their own.
proof fn lemma_block_closed_grow(n: int, mid: Seq<NodeView>, now: Seq<NodeView>)
    requires
        block_closed(mid, n),
        block_closed(now, mid.len() as int),
        keeps_nodes(mid, now),
        0 <= n <= mid.len(),
    ensures
        block_closed(now, n),
{
    assert forall|k: int, j: int| n <= k < now.len() && 0 <= j < now[k].children.len() implies n <= #[trigger] now[k].children[j].1 by {
        if k < mid.len() {
            assert(now[k] == mid[k]);
        }
    }
}

/// Setting a child of a block node to a block node keeps the block closed.
proof fn lemma_block_closed_set_child(n: int, before: Seq<NodeView>, after: Seq<NodeView>, p: int, name: Seq<char>, c: int)
    requires
        block_closed(before, n),
        0 <= n <= p < before.len(),
        n <= c,
        after == before.update(p, with_children(before[p], without_child(before[p].children, name).push((name, c)))),
    ensures
        block_closed(after, n),
{
    lemma_without_child_entries(before[p].children, name);
    let w = without_child(before[p].children, name);
    assert forall|k: int, j: int| n <= k < after.len() && 0 <= j < after[k].children.len() implies n <= #[trigger] after[k].children[j].1 by {
        if k == p {
            if j < w.len() {
                assert(before[p].children.contains(w[j]));
                let j2 = choose|j2: int| 0 <= j2 < before[p].children.len() && before[p].children[j2] == w[j];
                assert(n <= before[p].children[j2].1);
            }
        } else {
            assert(after[k] == before[k]);
        }
    }
}

/// A change that keeps the snapshot nodes, leads from no other node to a
/// snapshot node, keeps every snapshot root one of before, and neither
/// registers a snapshot node nor makes one the live root, keeps the tree
/// sealed.
proof fn lemma_seal_step(t0: &InodeTree, t1: &InodeTree)
    requires
        t0.sealed(),
        t1.frozen() == t0.frozen(),
        t1.nodes().len() >= t0.nodes().len(),
        forall|q: int| #[trigger] t0.frozen().contains(q) ==> t1.nodes()[q] == t0.nodes()[q],
        forall|q: int, j: int|
            0 <= q < t1.nodes().len() && !t0.frozen().contains(q) && 0 <= j < t1.nodes()[q].children.len() ==> !t0.frozen().contains(
                #[trigger] t1.nodes()[q].children[j].1,
            ),
        roots_within(t0.snapshots(), t1.snapshots(), -1),
        forall|id: u64| #[trigger] t1.registry().contains_key(id) ==> !t0.frozen().contains(t1.registry()[id]),
        !t0.frozen().contains(t1.root()),
    ensures
        t1.sealed(),
        frozen_kept(t0, t1),
{
    let f = t0.frozen();
    assert forall|q: int, j: int|
        0 <= q < t1.nodes().len() && 0 <= j < t1.nodes()[q].children.len() implies (f.contains(q) <==> f.contains(
            #[trigger] t1.nodes()[q].children[j].1,
        )) by {
        if f.contains(q) {
            assert(t1.nodes()[q] == t0.nodes()[q]);
            assert(f.contains(t0.nodes()[q].children[j].1));
        }
    }
    assert forall|i: int| 0 <= i < t1.snapshots().len() implies f.contains(#[trigger] t1.snapshots()[i].2) by {
        let k = choose|k: int| 0 <= k < t0.snapshots().len() && t0.snapshots()[k].2 == t1.snapshots()[i].2;
        assert(f.contains(t0.snapshots()[k].2));
    }
}

/// The same snapshots have their roots within themselves.
proof fn lemma_roots_within_same(s: Seq<(Seq<char>, u64, int)>)
    ensures
        roots_within(s, s, -1),
{
    assert forall|i: int| 0 <= i < s.len() implies (#[trigger] s[i]).2 == -1 || exists|k: int|
        0 <= k < s.len() && s[k].2 == s[i].2 by {
        assert(s[i].2 == s[i].2);
    }
}

/// A change of the nodes alone, at node `p` (not a snapshot node) and by
/// appending nodes, where `p` and the new nodes lead to no snapshot node,
/// keeps the tree sealed.
proof fn lemma_seal_nodes(t0: &InodeTree, t1: &InodeTree, p: int)
    requires
        t0.sealed(),
        t0.wf(),
        !t0.frozen().contains(p),
        t1.frozen() == t0.frozen(),
        t1.registry() == t0.registry(),
        t1.root() == t0.root(),
        t1.snapshots() == t0.snapshots(),
        t1.nodes().len() >= t0.nodes().len(),
        forall|q: int| 0 <= q < t0.nodes().len() && q != p ==> #[trigger] t1.nodes()[q] == t0.nodes()[q],
        forall|q: int, j: int|
            0 <= q < t1.nodes().len() && (q == p || q >= t0.nodes().len()) && 0 <= j < t1.nodes()[q].children.len()
                ==> !t0.frozen().contains(#[trigger] t1.nodes()[q].children[j].1),
    ensures
        t1.sealed(),
        frozen_kept(t0, t1),
{
    lemma_roots_within_same(t0.snapshots());
    assert forall|q: int| #[trigger] t0.frozen().contains(q) implies t1.nodes()[q] == t0.nodes()[q] by {}
    assert forall|q: int, j: int|
        0 <= q < t1.nodes().len() && !t0.frozen().contains(q) && 0 <= j < t1.nodes()[q].children.len() implies !t0.frozen().contains(
            #[trigger] t1.nodes()[q].children[j].1,
        ) by {
        if q != p && q < t0.nodes().len() {
            assert(t1.nodes()[q] == t0.nodes()[q]);
        }
    }
    lemma_seal_step(t0, t1);
}

/// Registering inode `id` at node `h`, not a snapshot node, keeps the
/// tree sealed.
proof fn lemma_seal_register(t0: &InodeTree, t1: &InodeTree, id: u64, h: int)
    requires
        t0.sealed(),
        !t0.frozen().contains(h),
        t1.frozen() == t0.frozen(),
        t1.nodes() == t0.nodes(),
        t1.registry() == t0.registry().insert(id, h),
        t1.root() == t0.root(),
        t1.snapshots() == t0.snapshots(),
    ensures
        t1.sealed(),
        frozen_kept(t0, t1),
{
    lemma_roots_within_same(t0.snapshots());
    lemma_seal_step(t0, t1);
}

/// A node whose children were set to `without_child(.., name)` plus
/// `(name, c)` leads to a snapshot node only where it did before or at `c`.
proof fn lemma_set_child_targets(children: Seq<(Seq<char>, int)>, name: Seq<char>, c: int, f: Set<int>)
    requires
        forall|j: int| 0 <= j < children.len() ==> !f.contains(#[trigger] children[j].1),
        !f.contains(c),
    ensures
        forall|j: int|
            0 <= j < without_child(children, name).push((name, c)).len() ==> !f.contains(
                #[trigger] without_child(children, name).push((name, c))[j].1,
            ),
        forall|j: int|
            0 <= j < without_child(children, name).len() ==> !f.contains(#[trigger] without_child(children, name)[j].1),
{
    lemma_without_child_entries(children, name);
    let w = without_child(children, name);
    assert forall|j: int| 0 <= j < w.len() implies !f.contains(#[trigger] w[j].1) by {
        assert(children.contains(w[j]));
        let j2 = choose|j2: int| 0 <= j2 < children.len() && children[j2] == w[j];
        assert(!f.contains(children[j2].1));
    }
    let w2 = w.push((name, c));
    assert forall|j: int| 0 <= j < w2.len() implies !f.contains(#[trigger] w2[j].1) by {
        if j < w.len() {
            assert(w2[j] == w[j]);
        }
    }
}

/// A node that is not a snapshot node leads to no snapshot node.
proof fn lemma_live_children(t: &InodeTree, q: int)
    requires
        t.sealed(),
        0 <= q < t.nodes().len(),
        !t.frozen().contains(q),
    ensures
        forall|j: int| 0 <= j < t.nodes()[q].children.len() ==> !t.frozen().contains(#[trigger] t.nodes()[q].children[j].1),
{
}

/// Changing only the registry, to inodes that are no snapshot nodes,
/// keeps the tree sealed.
proof fn lemma_seal_registry_only(t0: &InodeTree, t1: &InodeTree)
    requires
        t0.sealed(),
        t1.frozen() == t0.frozen(),
        t1.nodes() == t0.nodes(),
        t1.root() == t0.root(),
        t1.snapshots() == t0.snapshots(),
        forall|id: u64| #[trigger] t1.registry().contains_key(id) ==> !t0.frozen().contains(t1.registry()[id]),
    ensures
        t1.sealed(),
        frozen_kept(t0, t1),
{
    lemma_roots_within_same(t0.snapshots());
    assert forall|q: int, j: int|
        0 <= q < t1.nodes().len() && !t0.frozen().contains(q) && 0 <= j < t1.nodes()[q].children.len() implies !t0.frozen().contains(
            #[trigger] t1.nodes()[q].children[j].1,
        ) by {
        lemma_live_children(t0, q);
    }
    lemma_seal_step(t0, t1);
}

/// Dropping snapshots keeps the tree sealed.
proof fn lemma_seal_snapshots_only(t0: &InodeTree, t1: &InodeTree)
    requires
        t0.sealed(),
        t1.frozen() == t0.frozen(),
        t1.nodes() == t0.nodes(),
        t1.registry() == t0.registry(),
        t1.root() == t0.root(),
        roots_within(t0.snapshots(), t1.snapshots(), -1),
    ensures
        t1.sealed(),
        frozen_kept(t0, t1),
{
    assert forall|q: int, j: int|
        0 <= q < t1.nodes().len() && !t0.frozen().contains(q) && 0 <= j < t1.nodes()[q].children.len() implies !t0.frozen().contains(
            #[trigger] t1.nodes()[q].children[j].1,
        ) by {
        lemma_live_children(t0, q);
    }
    lemma_seal_step(t0, t1);
}

/// Appending nodes that lead only to each other, and registering only
/// those, keeps the tree sealed.
proof fn lemma_seal_garbage(t0: &InodeTree, t1: &InodeTree)
    requires
        t0.sealed(),
        t0.wf(),
        t1.frozen() == t0.frozen(),
        keeps_nodes(t0.nodes(), t1.nodes()),
        block_closed(t1.nodes(), t0.nodes().len() as int),
        registry_grows_new(t0.registry(), t1.registry(), t0.nodes().len() as int),
        t1.root() == t0.root(),
        t1.snapshots() == t0.snapshots(),
    ensures
        t1.sealed(),
        frozen_kept(t0, t1),
{
    let n0 = t0.nodes().len() as int;
    lemma_roots_within_same(t0.snapshots());
    assert forall|q: int| #[trigger] t0.frozen().contains(q) implies t1.nodes()[q] == t0.nodes()[q] by {}
    assert forall|q: int, j: int|
        0 <= q < t1.nodes().len() && !t0.frozen().contains(q) && 0 <= j < t1.nodes()[q].children.len() implies !t0.frozen().contains(
            #[trigger] t1.nodes()[q].children[j].1,
        ) by {
        if q < n0 {
            assert(t1.nodes()[q] == t0.nodes()[q]);
            lemma_live_children(t0, q);
        }
    }
    assert forall|id: u64| #[trigger] t1.registry().contains_key(id) implies !t0.frozen().contains(t1.registry()[id]) by {
        if !(t0.registry().contains_key(id) && t1.registry()[id] == t0.registry()[id]) {
            assert(t1.registry()[id] >= n0);
        }
    }
    lemma_seal_step(t0, t1);
}

/// Making the nodes appended after `t0` snapshot nodes, where they lead
/// only to each other and the one new snapshot root `r` is among them,
/// keeps the tree sealed.
proof fn lemma_seal_new_block(t0: &InodeTree, t1: &InodeTree, r: int)
    requires
        t0.sealed(),
        t0.wf(),
        t1.wf(),
        keeps_nodes(t0.nodes(), t1.nodes()),
        block_closed(t1.nodes(), t0.nodes().len() as int),
        t1.registry() == t0.registry(),
        t1.root() == t0.root(),
        roots_within(t0.snapshots(), t1.snapshots(), r),
        t0.nodes().len() <= r < t1.nodes().len(),
        t1.frozen() == t0.frozen().union(span(t0.nodes().len() as int, t1.nodes().len() as int)),
    ensures
        t1.sealed(),
        t0.frozen().subset_of(t1.frozen()),
{
    let n0 = t0.nodes().len() as int;
    let f0 = t0.frozen();
    let f1 = t1.frozen();
    lemma_wf_facts(t0);
    assert forall|q: int, j: int|
        0 <= q < t1.nodes().len() && 0 <= j < t1.nodes()[q].children.len() implies (f1.contains(q) <==> f1.contains(
            #[trigger] t1.nodes()[q].children[j].1,
        )) by {
        let c = t1.nodes()[q].children[j].1;
        assert(t1.nodes()[q].children == children_view(t1.nodes@[q].children@));
        assert(c < t1.nodes().len());
        if q < n0 {
            assert(t1.nodes()[q] == t0.nodes()[q]);
            assert(t0.nodes()[q].children == children_view(t0.nodes@[q].children@));
            assert(c < n0);
            assert(f0.contains(q) <==> f0.contains(c));
        }
    }
    assert forall|i: int| 0 <= i < t1.snapshots().len() implies f1.contains(#[trigger] t1.snapshots()[i].2) by {
        if t1.snapshots()[i].2 != r {
            let k = choose|k: int| 0 <= k < t0.snapshots().len() && t0.snapshots()[k].2 == t1.snapshots()[i].2;
            assert(f0.contains(t0.snapshots()[k].2));
        }
    }
    assert forall|id: u64| #[trigger] t1.registry().contains_key(id) implies !f1.contains(t1.registry()[id]) by {
        assert(t0.registry()[id] < n0);
    }
}

/// A tree with no snapshots and no snapshot nodes is sealed.
proof fn lemma_seal_empty(t: &InodeTree)
    requires
        t.frozen() == Set::<int>::empty(),
        t.snapshots().len() == 0,
    ensures
        t.sealed(),
{
}

/// Keeping the snapshot nodes is transitive.
proof fn lemma_frozen_kept_trans(a: &InodeTree, b: &InodeTree, c: &InodeTree)
    requires
        frozen_kept(a, b),
        frozen_kept(b, c),
    ensures
        frozen_kept(a, c),
{
    assert forall|q: int| #[trigger] a.frozen().contains(q) implies c.nodes()[q] == a.nodes()[q] by {
        assert(b.frozen().contains(q));
    }
}

/// Snapshots are isolated from the live tree: when a change keeps the
/// snapshot nodes and the snapshots, every path of names inside a
/// snapshot leads to the same node, with the same contents, as before.
pub proof fn lemma_snapshot_isolation(t0: &InodeTree, t1: &InodeTree, i: int, comps: Seq<Seq<char>>)
    requires
        t0.wf(),
        t0.sealed(),
        frozen_kept(t0, t1),
        t1.snapshots() == t0.snapshots(),
        0 <= i < t0.snapshots().len(),
    ensures
        resolve(t1.nodes(), t0.snapshots()[i].2, comps) == resolve(t0.nodes(), t0.snapshots()[i].2, comps),
        resolve(t0.nodes(), t0.snapshots()[i].2, comps) matches Some(q) ==> t0.frozen().contains(q) && t1.nodes()[q]
            == t0.nodes()[q],
    decreases comps.len(),
{
    let r = t0.snapshots()[i].2;
    assert(t0.frozen().contains(r));
    if comps.len() > 0 {
        lemma_snapshot_isolation(t0, t1, i, comps.drop_last());
        match resolve(t0.nodes(), r, comps.drop_last()) {
            Some(p) => {
                let name = comps.last();
                lemma_wf_facts(t0);
                lemma_child_pos(t0.nodes()[p].children, name);
                match child_pos(t0.nodes()[p].children, name) {
                    Some(j) => {
                        assert(t0.frozen().contains(t0.nodes()[p].children[j].1));
                    },
                    None => {},
                }
            },
            None => {},
        }
    }
}

/// Under a change that keeps the snapshot nodes and the snapshots, the
/// nodes under a snapshot's root are the same, and hold what they held.
proof fn lemma_snapshot_reach_kept(t0: &InodeTree, t1: &InodeTree, i: int, h: int)
    requires
        t0.wf(),
        t0.sealed(),
        frozen_kept(t0, t1),
        t1.snapshots() == t0.snapshots(),
        0 <= i < t0.snapshots().len(),
    ensures
        under(t1.nodes(), t0.snapshots()[i].2, h) == under(t0.nodes(), t0.snapshots()[i].2, h),
        under(t0.nodes(), t0.snapshots()[i].2, h) ==> 0 <= h < t0.nodes().len() && t1.nodes()[h] == t0.nodes()[h],
{
    let r = t0.snapshots()[i].2;
    lemma_wf_facts(t0);
    assert(0 <= r < t0.nodes().len()) by {
        assert(t0.snapshots@[i].root < t0.nodes@.len());
    }
    if under(t0.nodes(), r, h) {
        let comps = choose|comps: Seq<Seq<char>>| #[trigger] resolve(t0.nodes(), r, comps) == Some(h);
        lemma_snapshot_isolation(t0, t1, i, comps);
        lemma_resolve_in_arena(t0.nodes(), r, comps);
        assert(resolve(t1.nodes(), r, comps) == Some(h));
    }
    if under(t1.nodes(), r, h) {
        let comps = choose|comps: Seq<Seq<char>>| #[trigger] resolve(t1.nodes(), r, comps) == Some(h);
        lemma_snapshot_isolation(t0, t1, i, comps);
        assert(resolve(t0.nodes(), r, comps) == Some(h));
    }
}

/// Under a change that keeps the snapshot nodes and the snapshots, each
/// snapshot's root holds what it held.
pub proof fn lemma_snapshot_root_kept(t0: &InodeTree, t1: &InodeTree, i: int)
    requires
        t0.wf(),
        t0.sealed(),
        frozen_kept(t0, t1),
        t1.snapshots() == t0.snapshots(),
        0 <= i < t0.snapshots().len(),
    ensures
        t1.nodes()[t0.snapshots()[i].2] == t0.nodes()[t0.snapshots()[i].2],
{
    lemma_under_self(t0.nodes(), t0.snapshots()[i].2);
    lemma_snapshot_reach_kept(t0, t1, i, t0.snapshots()[i].2);
}

/// What the snapshots hold is untouched by a change that keeps the
/// snapshot nodes and the snapshots: each snapshot holds the same inodes,
/// the first snapshot holding an inode finds it at the same nodes, and
/// those nodes and their children hold what they held.
pub proof fn lemma_snapshot_holdings_kept(t0: &InodeTree, t1: &InodeTree, ino: u64)
    requires
        t0.wf(),
        t0.sealed(),
        frozen_kept(t0, t1),
        t1.snapshots() == t0.snapshots(),
    ensures
        forall|i: int| 0 <= i < t0.snapshots().len() ==> #[trigger] snapshot_holds(t1, i, ino) == snapshot_holds(t0, i, ino),
        in_snapshots(t1, ino) == in_snapshots(t0, ino),
        forall|i: int, h: int| #[trigger] first_snapshot_node(t1, ino, i, h) == first_snapshot_node(t0, ino, i, h),
        forall|i: int, h: int|
            #[trigger] first_snapshot_node(t0, ino, i, h) ==> t1.nodes()[h] == t0.nodes()[h] && forall|j: int|
                0 <= j < t0.nodes()[h].children.len() ==> t1.nodes()[#[trigger] t0.nodes()[h].children[j].1]
                    == t0.nodes()[t0.nodes()[h].children[j].1],
{
    lemma_wf_facts(t0);
    assert forall|i: int| 0 <= i < t0.snapshots().len() implies #[trigger] snapshot_holds(t1, i, ino) == snapshot_holds(
        t0,
        i,
        ino,
    ) by {
        let r = t0.snapshots()[i].2;
        if snapshot_holds(t0, i, ino) {
            let h = choose|h: int| #[trigger] under(t0.nodes(), r, h) && t0.nodes()[h].id == ino;
            lemma_snapshot_reach_kept(t0, t1, i, h);
            assert(under(t1.nodes(), t1.snapshots()[i].2, h));
        }
        if snapshot_holds(t1, i, ino) {
            let h = choose|h: int| #[trigger] under(t1.nodes(), r, h) && t1.nodes()[h].id == ino;
            lemma_snapshot_reach_kept(t0, t1, i, h);
            assert(under(t0.nodes(), t0.snapshots()[i].2, h));
        }
    }
    if in_snapshots(t0, ino) {
        let i = choose|i: int| 0 <= i < t0.snapshots().len() && #[trigger] snapshot_holds(t0, i, ino);
        assert(snapshot_holds(t1, i, ino));
    }
    if in_snapshots(t1, ino) {
        let i = choose|i: int| 0 <= i < t1.snapshots().len() && #[trigger] snapshot_holds(t1, i, ino);
        assert(snapshot_holds(t0, i, ino));
    }
    assert forall|i: int, h: int| #[trigger] first_snapshot_node(t1, ino, i, h) == first_snapshot_node(t0, ino, i, h) by {
        if 0 <= i < t0.snapshots().len() {
            let r = t0.snapshots()[i].2;
            assert(t1.snapshots()[i].2 == r);
            lemma_snapshot_reach_kept(t0, t1, i, h);
            assert forall|k: int|
                #![trigger snapshot_holds(t1, k, ino)]
                #![trigger snapshot_holds(t0, k, ino)]
                0 <= k < i implies snapshot_holds(t1, k, ino) == snapshot_holds(t0, k, ino) by {
                assert(snapshot_holds(t1, k, ino) == snapshot_holds(t0, k, ino));
            }
            if under(t0.nodes(), r, h) {
                assert(t1.nodes()[h].id == t0.nodes()[h].id);
            }
        }
    }
    assert forall|i: int, h: int| #[trigger] first_snapshot_node(t0, ino, i, h) implies t1.nodes()[h] == t0.nodes()[h]
        && forall|j: int|
        0 <= j < t0.nodes()[h].children.len() ==> t1.nodes()[#[trigger] t0.nodes()[h].children[j].1]
            == t0.nodes()[t0.nodes()[h].children[j].1] by {
        let r = t0.snapshots()[i].2;
        lemma_snapshot_reach_kept(t0, t1, i, h);
        assert forall|j: int| 0 <= j < t0.nodes()[h].children.len() implies t1.nodes()[#[trigger] t0.nodes()[h].children[j].1]
            == t0.nodes()[t0.nodes()[h].children[j].1] by {
            lemma_under_child(t0.nodes(), r, h, j);
            lemma_snapshot_reach_kept(t0, t1, i, t0.nodes()[h].children[j].1);
        }
    }
}

impl InodeTree {
    /// A tree holding only the live root (inode 1, a directory made at
    /// `now`), registered under its inode; inode numbers handed out from
    /// 100 on.
    pub fn new(now: u64) -> (t: Self)
        ensures
            t.wf(),
            t.nodes() == seq![NodeView { id: FUSE_ROOT_ID, parent_id: 0, name: Seq::empty(), attr: spec_dir_attr(FUSE_ROOT_ID, now), children: Seq::empty() }],
            t.registry() == map![FUSE_ROOT_ID => 0int],
            t.root() == 0,
            t.snapshots() == Seq::<(Seq<char>, u64, int)>::empty(),
            t.next_inode() == 100,
            t.frozen() == Set::<int>::empty(),
            t.sealed(),
    {
        let mut root = Inode::new(FUSE_ROOT_ID, NodeKind::Directory, now);
        root.refs = 2;
        let mut nodes: Vec<Inode> = Vec::new();
        nodes.push(root);
        let mut registry: HashMap<u64, usize> = HashMap::new();
        registry.insert(FUSE_ROOT_ID, 0);
        let t = InodeTree { nodes, registry, root: 0, snapshots: Vec::new(), next_inode: 100, frozen: Ghost(Set::empty()) };
        proof {
            assert(children_view(t.nodes@[0].children@) =~= Seq::<(Seq<char>, int)>::empty());
            assert(t.nodes() =~= seq![NodeView { id: FUSE_ROOT_ID, parent_id: 0, name: Seq::empty(), attr: spec_dir_attr(FUSE_ROOT_ID, now), children: Seq::empty() }]);
            assert(t.registry() =~= map![FUSE_ROOT_ID => 0int]);
            assert(t.snapshots() =~= Seq::<(Seq<char>, u64, int)>::empty());
        }
        t
    }

    /// Adds a node without children that nothing holds yet.
    fn add_node(&mut self, id: u64, parent_id: u64, name: String, attr: NodeAttr) -> (h: usize)
        requires
            old(self).wf(),
        ensures
            final(self).frozen() == old(self).frozen(),
            final(self).wf(),
            h == old(self).nodes().len(),
            h == old(self).nodes@.len(),
            final(self).nodes@.len() == old(self).nodes@.len() + 1,
            final(self).nodes() == old(self).nodes().push(NodeView { id, parent_id, name: name@, attr, children: Seq::empty() }),
            final(self).registry() == old(self).registry(),
            final(self).root() == old(self).root(),
            final(self).snapshots() == old(self).snapshots(),
            final(self).next_inode() == old(self).next_inode(),
    {
        let h = self.nodes.len();
        let n = Inode { id, parent_id, name, attr, children: Vec::new(), refs: 0 };
        self.nodes.push(n);
        proof {
            assert(children_view(self.nodes@[h as int].children@) =~= Seq::<(Seq<char>, int)>::empty());
            assert(self.nodes() =~= old(self).nodes().push(NodeView { id, parent_id, name: name@, attr, children: Seq::empty() }));
            assert forall|k: int| 0 <= k < self.nodes@.len() implies names_unique(#[trigger] children_view(self.nodes@[k].children@)) by {
                if k < h {
                    assert(self.nodes@[k] == old(self).nodes@[k]);
                }
            }
            assert forall|k: int, j: int|
                0 <= k < self.nodes@.len() && 0 <= j < self.nodes@[k].children@.len() implies #[trigger] self.nodes@[k].children@[j].1
                    < self.nodes@.len() by {
                if k < h {
                    assert(self.nodes@[k] == old(self).nodes@[k]);
                }
            }
        }
        h
    }
}


impl InodeTree {
    /// One more place holds node `h`.
    fn hold(&mut self, h: usize)
        requires
            old(self).wf(),
            h < old(self).nodes@.len(),
        ensures
            final(self).frozen() == old(self).frozen(),
            final(self).wf(),
            final(self).nodes@.len() == old(self).nodes@.len(),
            final(self).nodes() == old(self).nodes(),
            final(self).registry() == old(self).registry(),
            final(self).root() == old(self).root(),
            final(self).snapshots() == old(self).snapshots(),
            final(self).next_inode() == old(self).next_inode(),
            final(self).snapshots@ == old(self).snapshots@,
            final(self).registry@ == old(self).registry@,
            final(self).root == old(self).root,
            final(self).holders() == old(self).holders().update(
                h as int,
                if old(self).holders()[h as int] < u64::MAX {
                    (old(self).holders()[h as int] + 1) as u64
                } else {
                    u64::MAX
                },
            ),
    {
        let r = self.nodes[h].refs;
        self.nodes[h].refs = r.saturating_add(1);
        assert(self.holders() =~= old(self).holders().update(
            h as int,
            if r < u64::MAX {
                (r + 1) as u64
            } else {
                u64::MAX
            },
        ));
        proof {
            self.lemma_refs_only(old(self));
        }
    }

    /// Changing only how many places hold nodes changes no view.
    proof fn lemma_refs_only(&self, before: &Self)
        requires
            before.wf(),
            self.nodes@.len() == before.nodes@.len(),
            forall|k: int|
                0 <= k < self.nodes@.len() ==> #[trigger] node_view(self.nodes@[k]) == node_view(before.nodes@[k])
                    && self.nodes@[k].children@ == before.nodes@[k].children@,
            self.registry@ == before.registry@,
            self.root == before.root,
            self.snapshots@ == before.snapshots@,
            self.next_inode == before.next_inode,
        ensures
            self.wf(),
            self.nodes() == before.nodes(),
            self.registry() == before.registry(),
            self.root() == before.root(),
            self.snapshots() == before.snapshots(),
            self.next_inode() == before.next_inode(),
    {
        assert(self.nodes() =~= before.nodes());
        assert forall|h: int, j: int|
            0 <= h < self.nodes@.len() && 0 <= j < self.nodes@[h].children@.len() implies #[trigger] self.nodes@[h].children@[j].1
                < self.nodes@.len() by {
            assert(node_view(self.nodes@[h]) == node_view(before.nodes@[h]));
        }
        assert forall|h: int| 0 <= h < self.nodes@.len() implies names_unique(
            #[trigger] children_view(self.nodes@[h].children@),
        ) by {
            assert(node_view(self.nodes@[h]) == node_view(before.nodes@[h]));
        }
    }

    /// One place fewer holds node `h`; a node that nothing holds any more
    /// lets go of its children in turn.
    fn release(&mut self, h: usize)
        requires
            old(self).wf(),
            h < old(self).nodes@.len(),
        ensures
            final(self).frozen() == old(self).frozen(),
            final(self).wf(),
            final(self).nodes@.len() == old(self).nodes@.len(),
            final(self).nodes() == old(self).nodes(),
            final(self).registry() == old(self).registry(),
            final(self).root() == old(self).root(),
            final(self).snapshots() == old(self).snapshots(),
            final(self).next_inode() == old(self).next_inode(),
            final(self).snapshots@ == old(self).snapshots@,
            final(self).registry@ == old(self).registry@,
            final(self).root == old(self).root,
            final(self).holders().len() == old(self).holders().len(),
            forall|k: int| 0 <= k < old(self).holders().len() ==> #[trigger] final(self).holders()[k] <= old(self).holders()[k],
            forall|k: int|
                0 <= k < old(self).holders().len() && !under(old(self).nodes(), h as int, k) ==> #[trigger] final(self).holders()[k]
                    == old(self).holders()[k],
            old(self).holders()[h as int] > 0 ==> final(self).holders()[h as int] < old(self).holders()[h as int],
    {
        let mut work: Vec<usize> = Vec::new();
        work.push(h);
        let mut fuel: u64 = u64::MAX;
        let ghost mut started = false;
        let ghost nv = old(self).nodes();
        let ghost hv = old(self).holders();
        proof {
            lemma_wf_facts(old(self));
            lemma_under_self(nv, h as int);
        }
        while work.len() > 0 && fuel > 0
            invariant
                nv == old(self).nodes(),
                hv == old(self).holders(),
                hv.len() == nv.len(),
                h < nv.len(),
                forall|q: int| 0 <= q < nv.len() ==> names_unique(#[trigger] nv[q].children),
                self.holders().len() == hv.len(),
                forall|k: int| 0 <= k < hv.len() ==> #[trigger] self.holders()[k] <= hv[k],
                forall|k: int| 0 <= k < hv.len() && !under(nv, h as int, k) ==> #[trigger] self.holders()[k] == hv[k],
                forall|i: int| 0 <= i < work@.len() ==> under(nv, h as int, #[trigger] work@[i] as int),
                started ==> (hv[h as int] > 0 ==> self.holders()[h as int] < hv[h as int]),
                !started ==> work@ == seq![h] && self.holders() == hv && fuel == u64::MAX,
                self.frozen() == old(self).frozen(),
                self.wf(),
                self.nodes@.len() == old(self).nodes@.len(),
                self.nodes() == old(self).nodes(),
                forall|k: int|
                    0 <= k < self.nodes@.len() ==> #[trigger] self.nodes@[k].children@ == old(self).nodes@[k].children@,
                self.registry() == old(self).registry(),
                self.registry@ == old(self).registry@,
                self.root == old(self).root,
                self.snapshots@ == old(self).snapshots@,
                self.next_inode == old(self).next_inode,
                forall|i: int| 0 <= i < work@.len() ==> #[trigger] work@[i] < self.nodes@.len(),
            decreases fuel,
        {
            fuel = fuel - 1;
            let ghost wb = work@;
            let x = work.pop().unwrap();
            assert(wb[wb.len() - 1] == x);
            assert(under(nv, h as int, x as int));
            assert(!started ==> x == h);
            assert forall|i: int| 0 <= i < work@.len() implies under(nv, h as int, #[trigger] work@[i] as int) by {
                assert(work@[i] == wb[i]);
            }
            let r = self.nodes[x].refs;
            assert(self.holders()[x as int] == r);
            if r > 0 {
                let ghost before = *self;
                self.nodes[x].refs = r - 1;
                assert(self.holders() =~= before.holders().update(x as int, (r - 1) as u64));
                proof {
                    assert forall|k: int|
                        0 <= k < self.nodes@.len() implies #[trigger] node_view(self.nodes@[k]) == node_view(before.nodes@[k])
                            && self.nodes@[k].children@ == before.nodes@[k].children@ by {
                        if k != x {
                            assert(self.nodes@[k] == before.nodes@[k]);
                        }
                    }
                    self.lemma_refs_only(&before);
                }
                if r == 1 {
                    let ghost cur = *self;
                    let mut j: usize = 0;
                    while j < self.nodes[x].children.len()
                        invariant
                            *self == cur,
                            self.wf(),
                            self.nodes() == nv,
                            x < self.nodes@.len(),
                            under(nv, h as int, x as int),
                            names_unique(nv[x as int].children),
                            nv[x as int].children.len() == self.nodes@[x as int].children@.len(),
                            j <= self.nodes@[x as int].children@.len(),
                            forall|i: int| 0 <= i < work@.len() ==> #[trigger] work@[i] < self.nodes@.len(),
                            forall|i: int| 0 <= i < work@.len() ==> under(nv, h as int, #[trigger] work@[i] as int),
                        decreases self.nodes@[x as int].children@.len() - j,
                    {
                        let c = self.nodes[x].children[j].1;
                        assert(nv[x as int].children[j as int].1 == c as int);
                        proof {
                            lemma_under_child(nv, h as int, x as int, j as int);
                        }
                        let ghost wp = work@;
                        work.push(c);
                        assert forall|i: int| 0 <= i < work@.len() implies under(nv, h as int, #[trigger] work@[i] as int) by {
                            if i < wp.len() {
                                assert(work@[i] == wp[i]);
                            }
                        }
                        j = j + 1;
                    }
                }
            }
            proof {
                started = true;
            }
        }
    }

    /// Makes `id` name node `h` in the registry; the node it named before
    /// (if any) is held in one place fewer.
    fn register(&mut self, id: u64, h: usize)
        requires
            old(self).wf(),
            h < old(self).nodes@.len(),
        ensures
            final(self).frozen() == old(self).frozen(),
            final(self).wf(),
            final(self).nodes@.len() == old(self).nodes@.len(),
            final(self).nodes() == old(self).nodes(),
            final(self).registry() == old(self).registry().insert(id, h as int),
            final(self).root() == old(self).root(),
            final(self).snapshots() == old(self).snapshots(),
            final(self).next_inode() == old(self).next_inode(),
    {
        self.hold(h);
        let mut registry = HashMap::new();
        std::mem::swap(&mut registry, &mut self.registry);
        let previous = registry.insert(id, h);
        self.registry = registry;
        proof {
            assert(self.registry() =~= old(self).registry().insert(id, h as int));
        }
        match previous {
            Some(p) => self.release(p),
            None => {},
        }
    }
}


impl InodeTree {
    /// The position in node `p`'s children of the entry named `name`.
    fn find_child(&self, p: usize, name: &str) -> (r: Option<usize>)
        requires
            self.wf(),
            p < self.nodes@.len(),
        ensures
            match r {
                Some(j) => child_pos(self.nodes()[p as int].children, name@) == Some(j as int),
                None => child_pos(self.nodes()[p as int].children, name@) is None,
            },
    {
        let ghost cv = self.nodes()[p as int].children;
        proof {
            assert(cv == children_view(self.nodes@[p as int].children@));
            lemma_child_pos(cv, name@);
        }
        let wanted = String::from_str(name);
        let mut j: usize = 0;
        while j < self.nodes[p].children.len()
            invariant
                self.wf(),
                p < self.nodes@.len(),
                cv == children_view(self.nodes@[p as int].children@),
                wanted@ == name@,
                j <= cv.len(),
                forall|k: int| 0 <= k < j ==> #[trigger] cv[k].0 != name@,
            decreases cv.len() - j,
        {
            if self.nodes[p].children[j].0 == wanted {
                assert(cv[j as int].0 == name@);
                return Some(j);
            }
            j = j + 1;
        }
        None
    }

    /// Makes `name` in node `p` name node `c`, as the last entry; the node
    /// it named before (if any) is held in one place fewer.
    fn set_child(&mut self, p: usize, name: String, c: usize)
        requires
            old(self).wf(),
            p < old(self).nodes@.len(),
            c < old(self).nodes@.len(),
        ensures
            final(self).frozen() == old(self).frozen(),
            final(self).wf(),
            final(self).nodes@.len() == old(self).nodes@.len(),
            final(self).nodes() == old(self).nodes().update(
                p as int,
                with_children(
                    old(self).nodes()[p as int],
                    without_child(old(self).nodes()[p as int].children, name@).push((name@, c as int)),
                ),
            ),
            final(self).registry() == old(self).registry(),
            final(self).root() == old(self).root(),
            final(self).snapshots() == old(self).snapshots(),
            final(self).next_inode() == old(self).next_inode(),
    {
        let previous = self.remove_child(p, name.as_str());
        let ghost mid = *self;
        self.hold(c);
        let ghost mid2 = *self;
        self.nodes[p].children.push((name, c));
        proof {
            let cv = mid.nodes()[p as int].children;
            assert(children_view(self.nodes@[p as int].children@) =~= cv.push((name@, c as int)));
            assert(names_unique(cv));
            lemma_child_pos(cv, name@);
            assert(names_unique(cv.push((name@, c as int))));
            assert(mid2.nodes() == mid.nodes());
            assert(cv == without_child(old(self).nodes()[p as int].children, name@));
            assert(mid2.nodes()[p as int] == node_view(mid2.nodes@[p as int]));
            assert(self.nodes()[p as int] == node_view(self.nodes@[p as int]));
            assert(self.nodes()[p as int] == with_children(old(self).nodes()[p as int], cv.push((name@, c as int))));
            assert(self.nodes() =~= old(self).nodes().update(
                p as int,
                with_children(
                    old(self).nodes()[p as int],
                    without_child(old(self).nodes()[p as int].children, name@).push((name@, c as int)),
                ),
            )) by {
                assert forall|k: int| 0 <= k < self.nodes@.len() && k != p implies self.nodes()[k] == old(self).nodes()[k] by {
                    assert(self.nodes@[k] == mid2.nodes@[k]);
                    assert(mid2.nodes()[k] == mid.nodes()[k]);
                }
            }
            assert forall|h: int, j: int|
                0 <= h < self.nodes@.len() && 0 <= j < self.nodes@[h].children@.len() implies #[trigger] self.nodes@[h].children@[j].1
                    < self.nodes@.len() by {
                if h != p {
                    assert(self.nodes@[h] == mid2.nodes@[h]);
                } else if j < mid2.nodes@[h].children@.len() {
                    assert(self.nodes@[h].children@[j] == mid2.nodes@[h].children@[j]);
                }
            }
            assert forall|h: int| 0 <= h < self.nodes@.len() implies names_unique(
                #[trigger] children_view(self.nodes@[h].children@),
            ) by {
                if h != p {
                    assert(self.nodes@[h] == mid2.nodes@[h]);
                } else {
                    assert(children_view(mid2.nodes@[h].children@) == cv);
                }
            }
        }
    }

    /// Takes the entry named `name` out of node `p`'s children; the node it
    /// named (returned) is held in one place fewer.
    fn remove_child(&mut self, p: usize, name: &str) -> (r: Option<usize>)
        requires
            old(self).wf(),
            p < old(self).nodes@.len(),
        ensures
            final(self).frozen() == old(self).frozen(),
            final(self).wf(),
            final(self).nodes@.len() == old(self).nodes@.len(),
            final(self).nodes() == old(self).nodes().update(
                p as int,
                with_children(old(self).nodes()[p as int], without_child(old(self).nodes()[p as int].children, name@)),
            ),
            !(exists|j: int|
                0 <= j < final(self).nodes()[p as int].children.len() && #[trigger] final(self).nodes()[p as int].children[j].0
                    == name@),
            match r {
                Some(c) => child_of(old(self).nodes()[p as int].children, name@) == Some(c as int),
                None => child_of(old(self).nodes()[p as int].children, name@) is None,
            },
            final(self).registry() == old(self).registry(),
            final(self).root() == old(self).root(),
            final(self).snapshots() == old(self).snapshots(),
            final(self).next_inode() == old(self).next_inode(),
    {
        let ghost cv = old(self).nodes()[p as int].children;
        proof {
            assert(cv == children_view(old(self).nodes@[p as int].children@));
            lemma_child_pos(cv, name@);
        }
        match self.find_child(p, name) {
            Some(j) => {
                let entry = self.nodes[p].children.remove(j);
                let c = entry.1;
                proof {
                    assert(children_view(self.nodes@[p as int].children@) =~= cv.remove(j as int));
                    assert(self.nodes() =~= old(self).nodes().update(
                        p as int,
                        with_children(old(self).nodes()[p as int], without_child(cv, name@)),
                    )) by {
                        assert forall|k: int| 0 <= k < self.nodes@.len() && k != p implies self.nodes@[k] == old(self).nodes@[k] by {}
                    }
                    assert(names_unique(cv.remove(j as int)));
                    assert forall|h: int, i: int|
                        0 <= h < self.nodes@.len() && 0 <= i < self.nodes@[h].children@.len() implies #[trigger] self.nodes@[h].children@[i].1
                            < self.nodes@.len() by {
                        if h != p {
                            assert(self.nodes@[h] == old(self).nodes@[h]);
                        } else if i < j {
                            assert(self.nodes@[h].children@[i] == old(self).nodes@[h].children@[i]);
                        } else {
                            assert(self.nodes@[h].children@[i] == old(self).nodes@[h].children@[i + 1]);
                        }
                    }
                    assert forall|h: int| 0 <= h < self.nodes@.len() implies names_unique(
                        #[trigger] children_view(self.nodes@[h].children@),
                    ) by {
                        if h != p {
                            assert(self.nodes@[h] == old(self).nodes@[h]);
                        }
                    }
                    assert(c as int == cv[j as int].1);
                    assert(c < self.nodes@.len()) by {
                        assert(old(self).nodes@[p as int].children@[j as int].1 < old(self).nodes@.len());
                    }
                    assert forall|k: int| 0 <= k < cv.remove(j as int).len() implies #[trigger] cv.remove(j as int)[k].0 != name@ by {
                        if k < j {
                            assert(cv.remove(j as int)[k] == cv[k]);
                        } else {
                            assert(cv.remove(j as int)[k] == cv[k + 1]);
                        }
                    }
                }
                self.release(c);
                Some(c)
            },
            None => {
                proof {
                    assert(old(self).nodes().update(
                        p as int,
                        with_children(old(self).nodes()[p as int], without_child(cv, name@)),
                    ) =~= old(self).nodes());
                }
                None
            },
        }
    }
}


/// The live node registered under `ino`, if any.
pub open spec fn live_pos(t: &InodeTree, ino: u64) -> Option<int> {
    if t.registry().contains_key(ino) {
        Some(t.registry()[ino])
    } else {
        None
    }
}

/// A directory listing: each child's inode, kind and name, in order.
pub open spec fn listing(nodes: Seq<NodeView>, children: Seq<(Seq<char>, int)>) -> Seq<(u64, NodeKind, Seq<char>)> {
    children.map_values(|e: (Seq<char>, int)| (nodes[e.1].id, nodes[e.1].attr.kind, e.0))
}

/// The plain values of a listing.
pub open spec fn listing_view(v: Seq<(u64, NodeKind, String)>) -> Seq<(u64, NodeKind, Seq<char>)> {
    v.map_values(|e: (u64, NodeKind, String)| (e.0, e.1, e.2@))
}

impl InodeTree {
    /// The arena position of the live node registered under `ino`.
    fn live_node(&self, ino: u64) -> (r: Option<usize>)
        requires
            self.wf(),
        ensures
            match r {
                Some(h) => live_pos(self, ino) == Some(h as int) && h < self.nodes@.len(),
                None => live_pos(self, ino) is None,
            },
    {
        match self.registry.get(&ino) {
            Some(h) => Some(*h),
            None => None,
        }
    }

    /// Whether `ino` is registered as live.
    pub fn is_live(&self, ino: u64) -> (b: bool)
        requires
            self.wf(),
        ensures
            b == self.registry().contains_key(ino),
    {
        self.live_node(ino).is_some()
    }

    /// The attributes of live inode `ino`.
    pub fn lookup_live_inode_attr(&self, ino: u64) -> (r: Option<NodeAttr>)
        requires
            self.wf(),
        ensures
            match live_pos(self, ino) {
                Some(h) => r == Some(self.nodes()[h].attr),
                None => r is None,
            },
    {
        match self.live_node(ino) {
            Some(h) => Some(self.nodes[h].attr),
            None => None,
        }
    }

    /// The name of live inode `ino`.
    pub fn lookup_live_inode_name(&self, ino: u64) -> (r: Option<String>)
        requires
            self.wf(),
        ensures
            match live_pos(self, ino) {
                Some(h) => r is Some && r->0@ == self.nodes()[h].name,
                None => r is None,
            },
    {
        match self.live_node(ino) {
            Some(h) => Some(self.nodes[h].name.clone()),
            None => None,
        }
    }

    /// The parent of live inode `ino`.
    pub fn lookup_live_inode_parent(&self, ino: u64) -> (r: Option<u64>)
        requires
            self.wf(),
        ensures
            match live_pos(self, ino) {
                Some(h) => r == Some(self.nodes()[h].parent_id),
                None => r is None,
            },
    {
        match self.live_node(ino) {
            Some(h) => Some(self.nodes[h].parent_id),
            None => None,
        }
    }

    /// The attributes of the child `name` of live directory `parent`:
    /// `None` when `parent` is not live or has no such child.
    pub fn lookup_live_child(&self, parent: u64, name: &str) -> (r: Option<NodeAttr>)
        requires
            self.wf(),
        ensures
            r == match live_pos(self, parent) {
                Some(h) => match child_of(self.nodes()[h].children, name@) {
                    Some(c) => Some(self.nodes()[c].attr),
                    None => None,
                },
                None => None::<NodeAttr>,
            },
    {
        match self.live_node(parent) {
            Some(h) => match self.find_child(h, name) {
                Some(j) => {
                    let c = self.nodes[h].children[j].1;
                    assert(self.nodes()[h as int].children[j as int].1 == c);
                    assert(c < self.nodes@.len());
                    Some(self.nodes[c].attr)
                },
                None => None,
            },
            None => None,
        }
    }

    /// The children of node `h` as a listing.
    fn entries_of(&self, h: usize) -> (v: Vec<(u64, NodeKind, String)>)
        requires
            self.wf(),
            h < self.nodes@.len(),
        ensures
            listing_view(v@) == listing(self.nodes(), self.nodes()[h as int].children),
    {
        let ghost cv = self.nodes()[h as int].children;
        let mut v: Vec<(u64, NodeKind, String)> = Vec::new();
        let mut j: usize = 0;
        while j < self.nodes[h].children.len()
            invariant
                self.wf(),
                h < self.nodes@.len(),
                cv == self.nodes()[h as int].children,
                cv == children_view(self.nodes@[h as int].children@),
                j <= cv.len(),
                listing_view(v@) == listing(self.nodes(), cv.take(j as int)),
            decreases cv.len() - j,
        {
            let c = self.nodes[h].children[j].1;
            let name = self.nodes[h].children[j].0.clone();
            assert(c < self.nodes@.len());
            let id = self.nodes[c].id;
            let kind = self.nodes[c].attr.kind;
            let ghost before = v@;
            assert(cv[j as int] == (name@, c as int));
            assert(self.nodes()[c as int].id == id && self.nodes()[c as int].attr.kind == kind);
            v.push((id, kind, name));
            proof {
                assert(listing_view(v@) =~= listing_view(before).push((id, kind, cv[j as int].0)));
                assert(cv.take(j + 1) =~= cv.take(j as int).push(cv[j as int]));
                assert(listing_view(v@) =~= listing(self.nodes(), cv.take(j + 1)));
            }
            j = j + 1;
        }
        assert(cv.take(cv.len() as int) =~= cv);
        v
    }

    /// The children of live directory `ino`, in order.
    pub fn live_dir_entries(&self, ino: u64) -> (r: Option<Vec<(u64, NodeKind, String)>>)
        requires
            self.wf(),
        ensures
            match live_pos(self, ino) {
                Some(h) => r is Some && listing_view(r->0@) == listing(self.nodes(), self.nodes()[h].children),
                None => r is None,
            },
    {
        match self.live_node(ino) {
            Some(h) => Some(self.entries_of(h)),
            None => None,
        }
    }
}


/// Node `h` lies in the tree under node `r`: some path of names leads
/// from `r` to it.
pub open spec fn under(nodes: Seq<NodeView>, r: int, h: int) -> bool {
    exists|comps: Seq<Seq<char>>| #[trigger] resolve(nodes, r, comps) == Some(h)
}

/// Every child's position lies in the arena.
pub open spec fn children_in_arena(nodes: Seq<NodeView>) -> bool {
    forall|q: int, j: int|
        0 <= q < nodes.len() && 0 <= j < nodes[q].children.len() ==> 0 <= #[trigger] nodes[q].children[j].1 < nodes.len()
}

/// A node is under itself.
proof fn lemma_under_self(nodes: Seq<NodeView>, r: int)
    ensures
        under(nodes, r, r),
{
    assert(resolve(nodes, r, Seq::<Seq<char>>::empty()) == Some(r));
}

/// In a list without duplicate names, every child of a node under `r` is
/// under `r` too, reached by its own name.
proof fn lemma_under_child(nodes: Seq<NodeView>, r: int, p: int, j: int)
    requires
        under(nodes, r, p),
        names_unique(nodes[p].children),
        0 <= j < nodes[p].children.len(),
    ensures
        under(nodes, r, nodes[p].children[j].1),
{
    let comps = choose|comps: Seq<Seq<char>>| #[trigger] resolve(nodes, r, comps) == Some(p);
    let longer = comps.push(nodes[p].children[j].0);
    assert(longer.drop_last() =~= comps);
    lemma_child_pos(nodes[p].children, nodes[p].children[j].0);
    assert(resolve(nodes, r, longer) == Some(nodes[p].children[j].1));
}

/// What a path of names leads to from a node of the arena lies in the
/// arena.
proof fn lemma_resolve_in_arena(nodes: Seq<NodeView>, r: int, comps: Seq<Seq<char>>)
    requires
        0 <= r < nodes.len(),
        children_in_arena(nodes),
    ensures
        resolve(nodes, r, comps) matches Some(h) ==> 0 <= h < nodes.len(),
    decreases comps.len(),
{
    if comps.len() > 0 {
        lemma_resolve_in_arena(nodes, r, comps.drop_last());
        match resolve(nodes, r, comps.drop_last()) {
            Some(p) => {
                match child_pos(nodes[p].children, comps.last()) {
                    Some(j) => {
                        assert(0 <= j < nodes[p].children.len());
                    },
                    None => {},
                }
            },
            None => {},
        }
    }
}

/// What is stored survives a remount: in a tree mounted with every read
/// succeeding (see `load`), each live directory has a child for every
/// stored entry of its inode that leads to an inode record, holding that
/// record; in particular the live root has one for each stored root entry.
pub proof fn lemma_remount_finds_entry(
    m: Map<Seq<u8>, Seq<u8>>,
    t: &InodeTree,
    k: int,
    name: Seq<char>,
    id: u64,
    rec: (u64, u64, Seq<char>, bool, u64),
)
    requires
        forall|q: int|
            #[trigger] under(t.nodes(), t.root(), q) && t.nodes()[q].attr.kind == NodeKind::Directory
                ==> store_entries_present(m, t.nodes(), q),
        under(t.nodes(), t.root(), k),
        t.nodes()[k].attr.kind == NodeKind::Directory,
        dirent_child(m, t.nodes()[k].id, name) == Some(Some(id)),
        inode_record(m, id) == Some(Some(rec)),
    ensures
        holds_entry(t.nodes(), k, name, rec),
{
    assert(store_entries_present(m, t.nodes(), k));
    assert(entry_leads_to(m, t.nodes()[k].id, name, rec));
}

/// When the nodes from `n` up to `l` lead only among themselves and node
/// `r` leads only to them, a path from `r` ends at `r` or among them.
proof fn lemma_under_block(nodes: Seq<NodeView>, r: int, n: int, l: int, comps: Seq<Seq<char>>)
    requires
        0 <= r < n <= l <= nodes.len(),
        forall|j: int| 0 <= j < nodes[r].children.len() ==> n <= #[trigger] nodes[r].children[j].1 < l,
        forall|k: int, j: int| n <= k < l && 0 <= j < nodes[k].children.len() ==> n <= #[trigger] nodes[k].children[j].1 < l,
    ensures
        resolve(nodes, r, comps) matches Some(h) ==> h == r || n <= h < l,
    decreases comps.len(),
{
    if comps.len() > 0 {
        lemma_under_block(nodes, r, n, l, comps.drop_last());
        match resolve(nodes, r, comps.drop_last()) {
            Some(p) => {
                match child_pos(nodes[p].children, comps.last()) {
                    Some(j) => {
                        assert(0 <= j < nodes[p].children.len());
                    },
                    None => {},
                }
            },
            None => {},
        }
    }
}

/// The number of places not yet marked.
spec fn unmarked(v: Seq<bool>) -> nat
    decreases v.len(),
{
    if v.len() == 0 {
        0
    } else {
        unmarked(v.drop_last()) + if v.last() {
            0nat
        } else {
            1nat
        }
    }
}

/// Marking an unmarked place leaves one fewer.
proof fn lemma_mark(v: Seq<bool>, k: int)
    requires
        0 <= k < v.len(),
        !v[k],
    ensures
        unmarked(v.update(k, true)) + 1 == unmarked(v),
    decreases v.len(),
{
    if k == v.len() - 1 {
        assert(v.update(k, true).drop_last() =~= v.drop_last());
    } else {
        lemma_mark(v.drop_last(), k);
        assert(v.update(k, true).drop_last() =~= v.drop_last().update(k, true));
    }
}

/// Position `c` is on the stack `s`.
spec fn on_stack(s: Seq<usize>, c: int) -> bool {
    exists|k: int| 0 <= k < s.len() && #[trigger] s[k] as int == c
}

/// When `r` is marked and every marked node has its children marked,
/// everything under `r` is marked.
proof fn lemma_marks_cover(nodes: Seq<NodeView>, marked: Seq<bool>, r: int, comps: Seq<Seq<char>>)
    requires
        marked.len() == nodes.len(),
        0 <= r < nodes.len(),
        marked[r],
        children_in_arena(nodes),
        forall|q: int, j: int|
            0 <= q < nodes.len() && marked[q] && 0 <= j < nodes[q].children.len() ==> marked[#[trigger] nodes[q].children[j].1],
    ensures
        resolve(nodes, r, comps) matches Some(h) ==> marked[h],
    decreases comps.len(),
{
    if comps.len() > 0 {
        lemma_marks_cover(nodes, marked, r, comps.drop_last());
        lemma_resolve_in_arena(nodes, r, comps.drop_last());
        match resolve(nodes, r, comps.drop_last()) {
            Some(p) => {
                match child_pos(nodes[p].children, comps.last()) {
                    Some(j) => {
                        assert(marked[nodes[p].children[j].1]);
                    },
                    None => {},
                }
            },
            None => {},
        }
    }
}

/// Snapshot `i` holds a node with inode `ino` under its root.
pub open spec fn snapshot_holds(t: &InodeTree, i: int, ino: u64) -> bool {
    exists|h: int| #[trigger] under(t.nodes(), t.snapshots()[i].2, h) && t.nodes()[h].id == ino
}

/// Some snapshot holds a node with inode `ino`.
pub open spec fn in_snapshots(t: &InodeTree, ino: u64) -> bool {
    exists|i: int| 0 <= i < t.snapshots().len() && #[trigger] snapshot_holds(t, i, ino)
}

/// Node `h` has inode `ino` and lies under the root of snapshot `i`, the
/// first snapshot (in the order they were taken) that holds `ino`.
pub open spec fn first_snapshot_node(t: &InodeTree, ino: u64, i: int, h: int) -> bool {
    &&& 0 <= i < t.snapshots().len()
    &&& 0 <= h < t.nodes().len()
    &&& under(t.nodes(), t.snapshots()[i].2, h)
    &&& t.nodes()[h].id == ino
    &&& forall|k: int| 0 <= k < i ==> !#[trigger] snapshot_holds(t, k, ino)
}

/// The path of names `comps` as text: each name after a `/`, but for one
/// that follows an empty text.
pub open spec fn path_text(comps: Seq<Seq<char>>) -> Seq<char>
    decreases comps.len(),
{
    if comps.len() == 0 {
        Seq::empty()
    } else {
        let p = path_text(comps.drop_last());
        if p.len() == 0 {
            comps.last()
        } else {
            p + seq!['/'] + comps.last()
        }
    }
}

/// The names `comps` lead from `r` to a node with inode `ino`.
pub open spec fn path_to(nodes: Seq<NodeView>, r: int, comps: Seq<Seq<char>>, ino: u64) -> bool {
    resolve(nodes, r, comps) matches Some(h) && nodes[h].id == ino
}

/// Node `h` is reached from `r` by names whose text is `text`.
spec fn reached_by(nodes: Seq<NodeView>, r: int, h: int, text: Seq<char>) -> bool {
    exists|comps: Seq<Seq<char>>| #[trigger] resolve(nodes, r, comps) == Some(h) && text == path_text(comps)
}

/// The positions of a stack of positions and texts.
spec fn positions(s: Seq<(usize, String)>) -> Seq<usize> {
    s.map_values(|e: (usize, String)| e.0)
}

/// A child of a node reached by some text is reached by that text and its
/// own name.
proof fn lemma_reached_child(nodes: Seq<NodeView>, r: int, p: int, text: Seq<char>, j: int)
    requires
        reached_by(nodes, r, p, text),
        names_unique(nodes[p].children),
        0 <= j < nodes[p].children.len(),
    ensures
        reached_by(
            nodes,
            r,
            nodes[p].children[j].1,
            if text.len() == 0 {
                nodes[p].children[j].0
            } else {
                text + seq!['/'] + nodes[p].children[j].0
            },
        ),
{
    let comps = choose|comps: Seq<Seq<char>>| #[trigger] resolve(nodes, r, comps) == Some(p) && text == path_text(comps);
    let longer = comps.push(nodes[p].children[j].0);
    assert(longer.drop_last() =~= comps);
    lemma_child_pos(nodes[p].children, nodes[p].children[j].0);
    assert(resolve(nodes, r, longer) == Some(nodes[p].children[j].1));
}

/// A step up from inode `cur`: `Some((name, parent))` as its stored
/// record gives them or — where reading the record fails or finds none —
/// as its live node gives them; `None` where the live tree does not know
/// `cur` either.
pub open spec fn ancestry_step(m: Map<Seq<u8>, Seq<u8>>, t: &InodeTree, cur: u64, step: Option<(Seq<char>, u64)>) -> bool {
    ||| inode_record(m, cur) matches Some(Some(x)) && step == Some((x.2, x.1))
    ||| step == match live_pos(t, cur) {
        Some(h) => Some((t.nodes()[h].name, t.nodes()[h].parent_id)),
        None => None::<(Seq<char>, u64)>,
    }
}

/// The inode a walk up from `start` is at after `k` steps.
pub open spec fn walk_at(start: u64, walk: Seq<(Seq<char>, u64)>, k: int) -> u64 {
    if k == 0 {
        start
    } else {
        walk[k - 1].1
    }
}

/// Step `k` of the walk is taken from an inode other than the root and 0,
/// as `ancestry_step` allows.
pub open spec fn walk_step_ok(m: Map<Seq<u8>, Seq<u8>>, t: &InodeTree, start: u64, walk: Seq<(Seq<char>, u64)>, k: int) -> bool {
    let cur = walk_at(start, walk, k);
    cur != FUSE_ROOT_ID && cur != 0 && ancestry_step(m, t, cur, Some(walk[k]))
}

/// `walk` is a walk up from `start`: each step as `ancestry_step` allows,
/// ending at the root, at inode 0, at an inode nothing is known of, or
/// after `u64::MAX` steps.
pub open spec fn ancestry_walk(m: Map<Seq<u8>, Seq<u8>>, t: &InodeTree, start: u64, walk: Seq<(Seq<char>, u64)>) -> bool {
    &&& forall|k: int| 0 <= k < walk.len() ==> #[trigger] walk_step_ok(m, t, start, walk, k)
    &&& ({
        let last = walk_at(start, walk, walk.len() as int);
        ||| last == FUSE_ROOT_ID
        ||| last == 0
        ||| ancestry_step(m, t, last, None)
        ||| walk.len() == u64::MAX
    })
}

/// The non-empty names of a walk, in the order they were met.
pub open spec fn kept_names(walk: Seq<(Seq<char>, u64)>) -> Seq<Seq<char>>
    decreases walk.len(),
{
    if walk.len() == 0 {
        Seq::empty()
    } else if walk.last().0.len() > 0 {
        kept_names(walk.drop_last()).push(walk.last().0)
    } else {
        kept_names(walk.drop_last())
    }
}

/// The non-empty names of a walk up, from the top down.
pub open spec fn ancestry_tags(walk: Seq<(Seq<char>, u64)>) -> Seq<Seq<char>> {
    let c = kept_names(walk);
    Seq::new(c.len(), |i: int| c[c.len() - 1 - i])
}

/// The tags of a walk up are the non-empty names met on it, each once
/// where it was met, from the top down.
pub proof fn lemma_ancestry_tags_are_the_names(walk: Seq<(Seq<char>, u64)>)
    ensures
        ancestry_tags(walk) == walk.map_values(|p: (Seq<char>, u64)| p.0).filter(|n: Seq<char>| n.len() > 0).reverse(),
{
    lemma_kept_names_filter(walk);
    let c = kept_names(walk);
    if c.len() == 0 {
        assert(ancestry_tags(walk) =~= c.reverse());
    } else {
        assert(ancestry_tags(walk) =~= c.reverse());
    }
}

/// The kept names of a walk are its non-empty names, in the order met.
proof fn lemma_kept_names_filter(walk: Seq<(Seq<char>, u64)>)
    ensures
        kept_names(walk) == walk.map_values(|p: (Seq<char>, u64)| p.0).filter(|n: Seq<char>| n.len() > 0),
    decreases walk.len(),
{
    let names = walk.map_values(|p: (Seq<char>, u64)| p.0);
    let f = |n: Seq<char>| n.len() > 0;
    reveal(Seq::filter);
    if walk.len() > 0 {
        lemma_kept_names_filter(walk.drop_last());
        assert(names.drop_last() =~= walk.drop_last().map_values(|p: (Seq<char>, u64)| p.0));
        assert(names.last() == walk.last().0);
        assert(names.filter(f) == if f(names.last()) {
            names.drop_last().filter(f).push(names.last())
        } else {
            names.drop_last().filter(f)
        });
    } else {
        assert(names =~= Seq::<Seq<char>>::empty());
    }
}

/// What was done about a file's tags when it was made or written.
#[derive(Debug, Clone, Copy, PartialEq, Eq, Structural)]
pub enum AutoTag {
    /// The store was not written: the file had tags, or there was no name
    /// or no directory name to tag it with.
    NotNeeded,
    /// The names of the directories above the file were stored as its tags.
    Stored,
    /// Storing them failed.
    Failed,
}

/// The store `m` after regular file `name` of `parent` was made as inode
/// `id`: its inode record, its directory entry and an empty recipe added.
pub open spec fn created_store(m: Map<Seq<u8>, Seq<u8>>, id: u64, parent: u64, name: Seq<char>) -> Map<Seq<u8>, Seq<u8>> {
    m.insert(key_bytes(spec_inode_key(id)), bincode_inode(id, parent, name, false, 0)).insert(
        key_bytes(spec_dirent_key(parent, name)),
        bincode_u64(id),
    ).insert(key_bytes(spec_recipe_key(id)), bincode_recipe(0, Seq::empty(), 0))
}

/// What making regular file `name` of `parent` as inode `id` took the
/// store from `m0` to: `m1` is the store with the file's records
/// (`created_store`) where at most tag records changed, its tags set to
/// the names of the directories above it (read in that store and in tree
/// `t`) when they were stored.
pub open spec fn file_created(
    m0: Map<Seq<u8>, Seq<u8>>,
    m1: Map<Seq<u8>, Seq<u8>>,
    t: &InodeTree,
    id: u64,
    parent: u64,
    name: Seq<char>,
    tagged: AutoTag,
) -> bool {
    let m = created_store(m0, id, parent, name);
    &&& tagged == AutoTag::NotNeeded ==> m1 == m
    &&& tagged == AutoTag::Stored ==> exists|walk: Seq<(Seq<char>, u64)>|
        #[trigger] ancestry_walk(m, t, parent, walk) && ancestry_tags(walk).len() > 0 && tags_set_to(
            m,
            m1,
            id,
            ancestry_tags(walk),
        )
    &&& only_tags_changed(m, m1, id)
    &&& inode_record(m1, id) == Some(Some((id, parent, name, false, 0u64)))
    &&& dirent_child(m1, parent, name) == Some(Some(id))
}

/// A walk up reads of a tree only its nodes and live inodes.
proof fn lemma_ancestry_same_tree(m: Map<Seq<u8>, Seq<u8>>, t0: &InodeTree, t1: &InodeTree, start: u64, walk: Seq<(Seq<char>, u64)>)
    requires
        t1.nodes() == t0.nodes(),
        t1.registry() == t0.registry(),
    ensures
        ancestry_walk(m, t1, start, walk) == ancestry_walk(m, t0, start, walk),
{
    assert forall|cur: u64, st: Option<(Seq<char>, u64)>| ancestry_step(m, t1, cur, st) == ancestry_step(m, t0, cur, st) by {
        assert(live_pos(t1, cur) == live_pos(t0, cur));
    }
    assert forall|k: int| walk_step_ok(m, t1, start, walk, k) == walk_step_ok(m, t0, start, walk, k) by {
        let cur = walk_at(start, walk, k);
        assert(ancestry_step(m, t1, cur, Some(walk[k])) == ancestry_step(m, t0, cur, Some(walk[k])));
    }
    let last = walk_at(start, walk, walk.len() as int);
    assert(ancestry_step(m, t1, last, None) == ancestry_step(m, t0, last, None));
}

impl InodeTree {
    /// A node with inode `target` among the nodes under `root`, searched
    /// depth first (the last child first): `None` exactly when no node
    /// under `root` has that inode.
    fn find_in_snapshot_tree(&self, root: usize, target: u64) -> (r: Option<usize>)
        requires
            self.wf(),
            root < self.nodes@.len(),
        ensures
            match r {
                Some(h) => h < self.nodes@.len() && self.nodes()[h as int].id == target && under(
                    self.nodes(),
                    root as int,
                    h as int,
                ),
                None => forall|h: int| #[trigger] under(self.nodes(), root as int, h) ==> self.nodes()[h].id != target,
            },
    {
        let ghost nv = self.nodes();
        proof {
            lemma_wf_facts(self);
            lemma_under_self(nv, root as int);
        }
        let n = self.nodes.len();
        let mut marked: Vec<bool> = Vec::new();
        let mut i: usize = 0;
        while i < n
            invariant
                i <= n,
                marked@.len() == i,
                forall|k: int| 0 <= k < i ==> !#[trigger] marked@[k],
            decreases n - i,
        {
            marked.push(false);
            i = i + 1;
        }
        let mut stack: Vec<usize> = Vec::new();
        stack.push(root);
        assert(stack@[0] as int == root as int);
        while stack.len() > 0
            invariant
                self.wf(),
                nv == self.nodes(),
                n == nv.len(),
                root < n,
                children_in_arena(nv),
                forall|h: int| 0 <= h < nv.len() ==> names_unique(#[trigger] nv[h].children),
                marked@.len() == n,
                forall|k: int|
                    0 <= k < stack@.len() ==> #[trigger] stack@[k] < n && under(nv, root as int, stack@[k] as int),
                forall|q: int| 0 <= q < n && #[trigger] marked@[q] ==> under(nv, root as int, q) && nv[q].id != target,
                forall|q: int, j: int|
                    0 <= q < n && marked@[q] && 0 <= j < nv[q].children.len() ==> marked@[#[trigger] nv[q].children[j].1]
                        || on_stack(stack@, nv[q].children[j].1),
                marked@[root as int] || on_stack(stack@, root as int),
            decreases unmarked(marked@), stack@.len(),
        {
            let ghost before = stack@;
            let h = stack.pop().unwrap();
            assert(before =~= stack@.push(h));
            assert forall|c: int| on_stack(before, c) && c != h as int implies on_stack(stack@, c) by {
                let k = choose|k: int| 0 <= k < before.len() && #[trigger] before[k] as int == c;
                assert(k < stack@.len());
                assert(stack@[k] == before[k]);
            }
            assert(before[before.len() - 1] == h);
            if marked[h] {
                continue;
            }
            if self.nodes[h].id == target {
                return Some(h);
            }
            proof {
                lemma_mark(marked@, h as int);
            }
            marked.set(h, true);
            let ghost mid = stack@;
            let mut j: usize = 0;
            while j < self.nodes[h].children.len()
                invariant
                    self.wf(),
                    nv == self.nodes(),
                    n == nv.len(),
                    h < n,
                    under(nv, root as int, h as int),
                    names_unique(nv[h as int].children),
                    children_in_arena(nv),
                    j <= nv[h as int].children.len(),
                    nv[h as int].children.len() == self.nodes@[h as int].children@.len(),
                    forall|k: int|
                        0 <= k < stack@.len() ==> #[trigger] stack@[k] < n && under(nv, root as int, stack@[k] as int),
                    forall|c: int| on_stack(mid, c) ==> on_stack(stack@, c),
                    forall|k: int| 0 <= k < j ==> on_stack(stack@, #[trigger] nv[h as int].children[k].1),
                decreases nv[h as int].children.len() - j,
            {
                let c = self.nodes[h].children[j].1;
                assert(nv[h as int].children[j as int].1 == c as int);
                proof {
                    lemma_under_child(nv, root as int, h as int, j as int);
                }
                let ghost prev = stack@;
                stack.push(c);
                assert forall|x: int| on_stack(prev, x) implies on_stack(stack@, x) by {
                    let k = choose|k: int| 0 <= k < prev.len() && #[trigger] prev[k] as int == x;
                    assert(stack@[k] == prev[k]);
                }
                assert(stack@[prev.len() as int] as int == c as int);
                j = j + 1;
            }
        }
        proof {
            assert forall|hh: int| #[trigger] under(nv, root as int, hh) implies nv[hh].id != target by {
                let comps = choose|comps: Seq<Seq<char>>| #[trigger] resolve(nv, root as int, comps) == Some(hh);
                lemma_marks_cover(nv, marked@, root as int, comps);
                lemma_resolve_in_arena(nv, root as int, comps);
            }
        }
        None
    }

    /// The position of snapshot `name`.
    fn snapshot_index(&self, name: &str) -> (r: Option<usize>)
        requires
            self.wf(),
        ensures
            match r {
                Some(i) => i < self.snapshots().len() && self.snapshots()[i as int].0 == name@,
                None => forall|i: int| 0 <= i < self.snapshots().len() ==> #[trigger] self.snapshots()[i].0 != name@,
            },
    {
        let wanted = String::from_str(name);
        let mut i: usize = 0;
        while i < self.snapshots.len()
            invariant
                wanted@ == name@,
                i <= self.snapshots@.len(),
                forall|k: int| 0 <= k < i ==> #[trigger] self.snapshots()[k].0 != name@,
            decreases self.snapshots@.len() - i,
        {
            if self.snapshots[i].name == wanted {
                return Some(i);
            }
            i = i + 1;
        }
        None
    }

    /// Whether there is a snapshot named `name`.
    pub fn has_snapshot(&self, name: &str) -> (b: bool)
        requires
            self.wf(),
        ensures
            b == exists|i: int| 0 <= i < self.snapshots().len() && #[trigger] self.snapshots()[i].0 == name@,
    {
        self.snapshot_index(name).is_some()
    }

    /// The attributes of the root of snapshot `name`, made read-only
    /// (mode 555).
    pub fn snapshot_root_attr(&self, name: &str) -> (r: Option<NodeAttr>)
        requires
            self.wf(),
        ensures
            match r {
                Some(a) => exists|i: int|
                    0 <= i < self.snapshots().len() && #[trigger] self.snapshots()[i].0 == name@ && a == read_only(self.nodes()[self.snapshots()[i].2].attr),
                None => forall|i: int| 0 <= i < self.snapshots().len() ==> #[trigger] self.snapshots()[i].0 != name@,
            },
    {
        match self.snapshot_index(name) {
            Some(i) => {
                let h = self.snapshots[i].root;
                let mut a = self.nodes[h].attr;
                a.perm = 0o555;
                Some(a)
            },
            None => None,
        }
    }

    /// The snapshot roots with their names, in the order they were taken.
    pub fn snapshot_list(&self) -> (v: Vec<(u64, String)>)
        requires
            self.wf(),
        ensures
            v@.len() == self.snapshots().len(),
            forall|i: int|
                0 <= i < v@.len() ==> (#[trigger] v@[i]).0 == self.nodes()[self.snapshots()[i].2].id && v@[i].1@
                    == self.snapshots()[i].0,
    {
        let mut v: Vec<(u64, String)> = Vec::new();
        let mut i: usize = 0;
        while i < self.snapshots.len()
            invariant
                self.wf(),
                i <= self.snapshots@.len(),
                v@.len() == i,
                forall|k: int|
                    0 <= k < v@.len() ==> (#[trigger] v@[k]).0 == self.nodes()[self.snapshots()[k].2].id && v@[k].1@
                        == self.snapshots()[k].0,
            decreases self.snapshots@.len() - i,
        {
            let h = self.snapshots[i].root;
            v.push((self.nodes[h].id, self.snapshots[i].name.clone()));
            i = i + 1;
        }
        v
    }

    /// The first snapshot (in the order they were taken) whose tree holds
    /// a node with inode `ino`, with that node.
    fn snapshot_node(&self, ino: u64) -> (r: Option<(usize, usize)>)
        requires
            self.wf(),
        ensures
            match r {
                Some(p) => first_snapshot_node(self, ino, p.0 as int, p.1 as int),
                None => !in_snapshots(self, ino),
            },
    {
        let mut i: usize = 0;
        while i < self.snapshots.len()
            invariant
                self.wf(),
                i <= self.snapshots@.len(),
                forall|k: int| 0 <= k < i ==> !#[trigger] snapshot_holds(self, k, ino),
            decreases self.snapshots@.len() - i,
        {
            let root = self.snapshots[i].root;
            assert(self.snapshots()[i as int].2 == root as int);
            match self.find_in_snapshot_tree(root, ino) {
                Some(h) => return Some((i, h)),
                None => {},
            }
            i = i + 1;
        }
        None
    }

    /// Whether some snapshot's tree holds a node with inode `ino`.
    pub fn inode_in_snapshot(&self, ino: u64) -> (b: bool)
        requires
            self.wf(),
        ensures
            b == in_snapshots(self, ino),
    {
        match self.snapshot_node(ino) {
            Some(p) => {
                assert(snapshot_holds(self, p.0 as int, ino));
                true
            },
            None => false,
        }
    }

    /// The attributes of the snapshot node with inode `ino`, made read-only
    /// (mode 555), from the first snapshot that holds it.
    pub fn snapshot_attr(&self, ino: u64) -> (r: Option<NodeAttr>)
        requires
            self.wf(),
        ensures
            match r {
                Some(a) => exists|i: int, h: int|
                    #[trigger] first_snapshot_node(self, ino, i, h) && a == read_only(self.nodes()[h].attr),
                None => !in_snapshots(self, ino),
            },
            r is Some == in_snapshots(self, ino),
    {
        match self.snapshot_node(ino) {
            Some(p) => {
                let mut a = self.nodes[p.1].attr;
                a.perm = 0o555;
                assert(first_snapshot_node(self, ino, p.0 as int, p.1 as int));
                assert(snapshot_holds(self, p.0 as int, ino));
                Some(a)
            },
            None => None,
        }
    }

    /// The node with inode `parent` in the first snapshot that holds one:
    /// its root where that has the inode, else what the search finds.
    fn snapshot_dir_node(&self, parent: u64) -> (r: Option<(usize, usize)>)
        requires
            self.wf(),
        ensures
            match r {
                Some(p) => first_snapshot_node(self, parent, p.0 as int, p.1 as int) && (self.nodes()[self.snapshots()[p.0 as int].2].id
                    == parent ==> p.1 as int == self.snapshots()[p.0 as int].2),
                None => !in_snapshots(self, parent),
            },
    {
        let mut i: usize = 0;
        while i < self.snapshots.len()
            invariant
                self.wf(),
                i <= self.snapshots@.len(),
                forall|k: int| 0 <= k < i ==> !#[trigger] snapshot_holds(self, k, parent),
            decreases self.snapshots@.len() - i,
        {
            let root = self.snapshots[i].root;
            assert(self.snapshots()[i as int].2 == root as int);
            if self.nodes[root].id == parent {
                proof {
                    lemma_under_self(self.nodes(), root as int);
                }
                return Some((i, root));
            }
            match self.find_in_snapshot_tree(root, parent) {
                Some(h) => return Some((i, h)),
                None => {},
            }
            i = i + 1;
        }
        None
    }

    /// Looks `name` up in directory `parent` inside the snapshots: `None`
    /// when no snapshot holds `parent`; otherwise, in the first snapshot
    /// that does, the child's attributes, read-only (mode 555), or
    /// `Some(None)` when it has no such child.
    pub fn snapshot_lookup(&self, parent: u64, name: &str) -> (r: Option<Option<NodeAttr>>)
        requires
            self.wf(),
        ensures
            match r {
                Some(x) => exists|i: int, h: int|
                    #[trigger] first_snapshot_node(self, parent, i, h) && x == match child_of(self.nodes()[h].children, name@) {
                        Some(c) => Some(read_only(self.nodes()[c].attr)),
                        None => None::<NodeAttr>,
                    },
                None => !in_snapshots(self, parent),
            },
            r is Some == in_snapshots(self, parent),
    {
        match self.snapshot_dir_node(parent) {
            Some(p) => {
                let h = p.1;
                assert(first_snapshot_node(self, parent, p.0 as int, h as int));
                assert(snapshot_holds(self, p.0 as int, parent));
                match self.find_child(h, name) {
                    Some(j) => {
                        let c = self.nodes[h].children[j].1;
                        assert(self.nodes()[h as int].children[j as int].1 == c);
                        let mut a = self.nodes[c].attr;
                        a.perm = 0o555;
                        Some(Some(a))
                    },
                    None => Some(None),
                }
            },
            None => None,
        }
    }

    /// The listing of snapshot directory `ino` with the inode of its
    /// parent entry (`.snapshots` for a snapshot root, itself otherwise),
    /// from the first snapshot that holds it.
    pub fn snapshot_dir_entries(&self, ino: u64) -> (r: Option<(u64, Vec<(u64, NodeKind, String)>)>)
        requires
            self.wf(),
        ensures
            match r {
                Some(p) => exists|i: int, h: int|
                    #[trigger] first_snapshot_node(self, ino, i, h) && listing_view(p.1@) == listing(
                        self.nodes(),
                        self.nodes()[h].children,
                    ) && p.0 == if self.nodes()[self.snapshots()[i].2].id == ino {
                        SNAPSHOT_DIR_ID
                    } else {
                        ino
                    },
                None => !in_snapshots(self, ino),
            },
            r is Some == in_snapshots(self, ino),
    {
        match self.snapshot_dir_node(ino) {
            Some(p) => {
                let h = p.1;
                let v = self.entries_of(h);
                assert(first_snapshot_node(self, ino, p.0 as int, h as int));
                assert(snapshot_holds(self, p.0 as int, ino));
                if h == self.snapshots[p.0].root {
                    Some((SNAPSHOT_DIR_ID, v))
                } else {
                    Some((ino, v))
                }
            },
            None => None,
        }
    }
}


/// The stored form of a node.
pub open spec fn stored_form(n: NodeView) -> (u64, u64, Seq<char>, bool, u64) {
    (n.id, n.parent_id, n.name, n.attr.kind == NodeKind::Directory, n.attr.size)
}

/// Node `n` is what some stored inode record holds.
pub open spec fn mirrors_record(m: Map<Seq<u8>, Seq<u8>>, n: NodeView) -> bool {
    exists|key: u64| #[trigger] inode_record(m, key) == Some(Some(stored_form(n)))
}

/// Stored directory entry `name` of inode `parent` leads to an inode whose
/// record is `rec`.
pub open spec fn entry_leads_to(m: Map<Seq<u8>, Seq<u8>>, parent: u64, name: Seq<char>, rec: (u64, u64, Seq<char>, bool, u64)) -> bool {
    exists|t: u64| dirent_child(m, parent, name) == Some(Some(t)) && #[trigger] inode_record(m, t) == Some(Some(rec))
}

/// Each child of node `k` is named by a stored directory entry of `k`'s
/// inode, which leads to the record the child holds.
pub open spec fn children_from_store(m: Map<Seq<u8>, Seq<u8>>, nodes: Seq<NodeView>, k: int) -> bool {
    forall|j: int|
        0 <= j < nodes[k].children.len() ==> entry_leads_to(
            m,
            nodes[k].id,
            (#[trigger] nodes[k].children[j]).0,
            stored_form(nodes[nodes[k].children[j].1]),
        )
}

/// Node `k` has a child named `name` that holds `rec`.
pub open spec fn holds_entry(nodes: Seq<NodeView>, k: int, name: Seq<char>, rec: (u64, u64, Seq<char>, bool, u64)) -> bool {
    child_of(nodes[k].children, name) matches Some(c) && stored_form(nodes[c]) == rec
}

/// Each stored directory entry of node `k`'s inode that leads to an inode
/// record names a child of `k` that holds the record.
pub open spec fn store_entries_present(m: Map<Seq<u8>, Seq<u8>>, nodes: Seq<NodeView>, k: int) -> bool {
    forall|name: Seq<char>, rec: (u64, u64, Seq<char>, bool, u64)|
        #[trigger] entry_leads_to(m, nodes[k].id, name, rec) ==> holds_entry(nodes, k, name, rec)
}

/// Node `k` keeps its inode and children from `a` to `b`, and each node it
/// leads to keeps what it stores: what `k` has from the store stays.
proof fn lemma_store_links_kept(m: Map<Seq<u8>, Seq<u8>>, a: Seq<NodeView>, b: Seq<NodeView>, k: int)
    requires
        0 <= k < a.len() <= b.len(),
        b[k].id == a[k].id,
        b[k].children == a[k].children,
        forall|j: int| 0 <= j < a[k].children.len() ==> 0 <= #[trigger] a[k].children[j].1 < a.len(),
        forall|q: int| 0 <= q < a.len() ==> stored_form(#[trigger] b[q]) == stored_form(a[q]),
    ensures
        children_from_store(m, a, k) ==> children_from_store(m, b, k),
        store_entries_present(m, a, k) ==> store_entries_present(m, b, k),
        forall|name: Seq<char>, rec: (u64, u64, Seq<char>, bool, u64)|
            #[trigger] holds_entry(a, k, name, rec) ==> holds_entry(b, k, name, rec),
{
    assert forall|name: Seq<char>, rec: (u64, u64, Seq<char>, bool, u64)|
        #[trigger] holds_entry(a, k, name, rec) implies holds_entry(b, k, name, rec) by {
        if let Some(j) = child_pos(a[k].children, name) {
            assert(0 <= a[k].children[j].1 < a.len());
        }
    }
    if children_from_store(m, a, k) {
        assert forall|j: int| 0 <= j < b[k].children.len() implies entry_leads_to(
            m,
            b[k].id,
            (#[trigger] b[k].children[j]).0,
            stored_form(b[b[k].children[j].1]),
        ) by {
            assert(a[k].children[j] == b[k].children[j]);
            assert(stored_form(b[a[k].children[j].1]) == stored_form(a[a[k].children[j].1]));
        }
    }
    if store_entries_present(m, a, k) {
        assert forall|name: Seq<char>, rec: (u64, u64, Seq<char>, bool, u64)|
            #[trigger] entry_leads_to(m, b[k].id, name, rec) implies holds_entry(b, k, name, rec) by {
            assert(entry_leads_to(m, a[k].id, name, rec));
            assert(holds_entry(a, k, name, rec));
        }
    }
}

/// Making `c` the child `name` of node `p`, when the entry leads to what
/// `c` holds, keeps every child of `p` led to from the store, gives `name`
/// to `c`, and leaves the other names of `p` and every other node as they
/// were.
proof fn lemma_store_set_child(m: Map<Seq<u8>, Seq<u8>>, before: Seq<NodeView>, after: Seq<NodeView>, p: int, name: Seq<char>, c: int)
    requires
        0 <= p < before.len(),
        0 <= c < before.len(),
        children_in_arena(before),
        names_unique(before[p].children),
        after == before.update(p, with_children(before[p], without_child(before[p].children, name).push((name, c)))),
        entry_leads_to(m, before[p].id, name, stored_form(before[c])),
    ensures
        children_from_store(m, before, p) ==> children_from_store(m, after, p),
        forall|q: int| 0 <= q < before.len() ==> stored_form(#[trigger] after[q]) == stored_form(before[q]),
        forall|q: int| 0 <= q < before.len() && q != p ==> #[trigger] after[q] == before[q],
        holds_entry(after, p, name, stored_form(before[c])),
        forall|nm: Seq<char>, rec: (u64, u64, Seq<char>, bool, u64)|
            nm != name && #[trigger] holds_entry(before, p, nm, rec) ==> holds_entry(after, p, nm, rec),
{
    let w = without_child(before[p].children, name);
    lemma_without_child_entries(before[p].children, name);
    lemma_set_child_lookup(before[p].children, name, c, name);
    assert forall|q: int| 0 <= q < before.len() implies stored_form(#[trigger] after[q]) == stored_form(before[q]) by {}
    if children_from_store(m, before, p) {
        assert forall|j: int| 0 <= j < after[p].children.len() implies entry_leads_to(
            m,
            after[p].id,
            (#[trigger] after[p].children[j]).0,
            stored_form(after[after[p].children[j].1]),
        ) by {
            if j < w.len() {
                assert(before[p].children.contains(w[j]));
                let j2 = choose|j2: int| 0 <= j2 < before[p].children.len() && before[p].children[j2] == w[j];
                assert(entry_leads_to(m, before[p].id, before[p].children[j2].0, stored_form(before[before[p].children[j2].1])));
                assert(0 <= before[p].children[j2].1 < before.len());
            } else {
                assert(after[p].children[j] == (name, c));
            }
        }
    }
    assert forall|nm: Seq<char>, rec: (u64, u64, Seq<char>, bool, u64)|
        nm != name && #[trigger] holds_entry(before, p, nm, rec) implies holds_entry(after, p, nm, rec) by {
        lemma_set_child_lookup(before[p].children, name, c, nm);
        if let Some(j) = child_pos(before[p].children, nm) {
            assert(0 <= before[p].children[j].1 < before.len());
        }
    }
}

/// Two stores with the same directory entries and inode records lead the
/// same way.
proof fn lemma_leads_same(m0: Map<Seq<u8>, Seq<u8>>, m1: Map<Seq<u8>, Seq<u8>>)
    requires
        forall|p: u64, n: Seq<char>| #[trigger] dirent_child(m1, p, n) == dirent_child(m0, p, n),
        forall|t: u64| #[trigger] inode_record(m1, t) == inode_record(m0, t),
    ensures
        forall|p: u64, n: Seq<char>, rec: (u64, u64, Seq<char>, bool, u64)|
            #[trigger] entry_leads_to(m1, p, n, rec) == entry_leads_to(m0, p, n, rec),
{
    assert forall|p: u64, n: Seq<char>, rec: (u64, u64, Seq<char>, bool, u64)|
        #[trigger] entry_leads_to(m1, p, n, rec) == entry_leads_to(m0, p, n, rec) by {
        if entry_leads_to(m1, p, n, rec) {
            let t = choose|t: u64| dirent_child(m1, p, n) == Some(Some(t)) && #[trigger] inode_record(m1, t) == Some(Some(rec));
            assert(inode_record(m0, t) == inode_record(m1, t));
        }
        if entry_leads_to(m0, p, n, rec) {
            let t = choose|t: u64| dirent_child(m0, p, n) == Some(Some(t)) && #[trigger] inode_record(m0, t) == Some(Some(rec));
            assert(inode_record(m0, t) == inode_record(m1, t));
        }
    }
}

/// The attributes of a node made at `now` for inode `id` of the given
/// kind and size.
pub open spec fn fresh_attr(id: u64, is_dir: bool, size: u64, now: u64) -> NodeAttr {
    NodeAttr {
        kind: if is_dir {
            NodeKind::Directory
        } else {
            NodeKind::RegularFile
        },
        size,
        blocks: ((size + 511) / 512) as u64,
        ..spec_dir_attr(id, now)
    }
}

/// The nodes after a write to live inode `ino` that ended at `end`, at
/// time `now`: its size grows to `end` where that is more, its
/// modification time is `now`.
pub open spec fn after_write(t: &InodeTree, ino: u64, end: u64, now: u64) -> Seq<NodeView> {
    match live_pos(t, ino) {
        Some(h) => t.nodes().update(
            h,
            NodeView {
                attr: if t.nodes()[h].attr.size < end {
                    NodeAttr { size: end, blocks: ((end + 511) / 512) as u64, modified: now, ..t.nodes()[h].attr }
                } else {
                    NodeAttr { modified: now, ..t.nodes()[h].attr }
                },
                ..t.nodes()[h]
            },
        ),
        None => t.nodes(),
    }
}

/// A write to a live file leaves it the larger of its old size and the
/// write's end, and changes no other node.
pub proof fn lemma_write_never_shrinks(t: &InodeTree, ino: u64, end: u64, now: u64)
    requires
        t.wf(),
    ensures
        live_pos(t, ino) matches Some(h) ==> (after_write(t, ino, end, now)[h].attr.size >= t.nodes()[h].attr.size && after_write(t, ino, end, now)[h].attr.size >= end && (after_write(t, ino, end, now)[h].attr.size == t.nodes()[h].attr.size || after_write(t, ino, end, now)[h].attr.size == end)),
        live_pos(t, ino) matches Some(h) ==> forall|k: int|
            0 <= k < t.nodes().len() && k != h ==> #[trigger] after_write(t, ino, end, now)[k] == t.nodes()[k],
        live_pos(t, ino) is None ==> after_write(t, ino, end, now) == t.nodes(),
{
    lemma_wf_facts(t);
}

impl InodeTree {
    /// Hands out the next inode number (wrapping after the last).
    fn generate_id(&mut self) -> (id: u64)
        requires
            old(self).wf(),
        ensures
            final(self).frozen() == old(self).frozen(),
            final(self).wf(),
            id == old(self).next_inode(),
            final(self).next_inode() == (if id == u64::MAX { 0 } else { id + 1 }),
            final(self).nodes() == old(self).nodes(),
            final(self).nodes@.len() == old(self).nodes@.len(),
            final(self).registry() == old(self).registry(),
            final(self).root() == old(self).root(),
            final(self).snapshots() == old(self).snapshots(),
    {
        let id = self.next_inode;
        self.next_inode = id.wrapping_add(1);
        proof {
            assert(self.nodes() =~= old(self).nodes());
        }
        id
    }

    /// The attributes of a node for inode `id` of the given kind and size.
    fn make_attr(id: u64, is_dir: bool, size: u64, now: u64) -> (a: NodeAttr)
        ensures
            a == fresh_attr(id, is_dir, size, now),
    {
        let mut a = dir_attr(id, now);
        if !is_dir {
            a.kind = NodeKind::RegularFile;
        }
        a.size = size;
        a.blocks = block_count(size);
        a
    }

    /// The stored form of live inode `ino`.
    pub fn node_metadata(&self, ino: u64) -> (r: Option<InodeMetadata>)
        requires
            self.wf(),
        ensures
            match live_pos(self, ino) {
                Some(h) => r is Some && crate::file_manager::inode_tuple(r->0) == stored_form(self.nodes()[h]),
                None => r is None,
            },
    {
        match self.live_node(ino) {
            Some(h) => Some(Self::map_inode(&self.nodes[h])),
            None => None,
        }
    }

    /// The stored form of a node.
    fn map_inode(n: &Inode) -> (m: InodeMetadata)
        ensures
            crate::file_manager::inode_tuple(m) == stored_form(node_view(*n)),
    {
        InodeMetadata {
            id: n.id,
            parent_id: n.parent_id,
            name: n.name.clone(),
            is_dir: n.attr.kind == NodeKind::Directory,
            attr: InodeAttr { size: n.attr.size },
        }
    }

    /// Sets the attributes of node `h`.
    fn set_attr(&mut self, h: usize, attr: NodeAttr)
        requires
            old(self).wf(),
            h < old(self).nodes@.len(),
        ensures
            final(self).frozen() == old(self).frozen(),
            final(self).wf(),
            final(self).nodes@.len() == old(self).nodes@.len(),
            final(self).nodes() == old(self).nodes().update(h as int, NodeView { attr, ..old(self).nodes()[h as int] }),
            final(self).registry() == old(self).registry(),
            final(self).root() == old(self).root(),
            final(self).snapshots() == old(self).snapshots(),
            final(self).next_inode() == old(self).next_inode(),
    {
        self.nodes[h].attr = attr;
        proof {
            assert(self.nodes() =~= old(self).nodes().update(h as int, NodeView { attr, ..old(self).nodes()[h as int] }));
            assert forall|k: int, j: int|
                0 <= k < self.nodes@.len() && 0 <= j < self.nodes@[k].children@.len() implies #[trigger] self.nodes@[k].children@[j].1
                    < self.nodes@.len() by {
                assert(self.nodes@[k].children@ == old(self).nodes@[k].children@);
            }
            assert forall|k: int| 0 <= k < self.nodes@.len() implies names_unique(
                #[trigger] children_view(self.nodes@[k].children@),
            ) by {
                assert(self.nodes@[k].children@ == old(self).nodes@[k].children@);
            }
        }
    }

    /// Truncates or extends live inode `ino` to `size` bytes, modified at
    /// `now`; nothing for an inode that is not live.
    pub fn set_size(&mut self, ino: u64, size: u64, now: u64)
        requires
            old(self).wf(),
        ensures
            final(self).wf(),
            final(self).nodes().len() == old(self).nodes().len(),
            final(self).nodes() == match live_pos(old(self), ino) {
                Some(h) => old(self).nodes().update(
                    h,
                    NodeView {
                        attr: NodeAttr {
                            size,
                            blocks: ((size + 511) / 512) as u64,
                            modified: now,
                            ..old(self).nodes()[h].attr
                        },
                        ..old(self).nodes()[h]
                    },
                ),
                None => old(self).nodes(),
            },
            final(self).registry() == old(self).registry(),
            final(self).root() == old(self).root(),
            final(self).snapshots() == old(self).snapshots(),
            final(self).next_inode() == old(self).next_inode(),
            old(self).sealed() ==> final(self).sealed() && frozen_kept(old(self), final(self)),
    {
        match self.live_node(ino) {
            Some(h) => {
                let mut a = self.nodes[h].attr;
                a.size = size;
                a.blocks = block_count(size);
                a.modified = now;
                let ghost t0 = *self;
                self.set_attr(h, a);
                proof {
                    if t0.sealed() {
                        lemma_live_children(&t0, h as int);
                        lemma_seal_nodes(&t0, self, h as int);
                    }
                }
            },
            None => {
                proof {
                    if old(self).sealed() {
                        lemma_seal_nodes(old(self), self, old(self).root());
                    }
                }
            },
        }
    }

    /// Records a write to live inode `ino` that ended at byte `end`: the
    /// size grows to `end` where it was smaller, and it was modified at
    /// `now`; nothing for an inode that is not live.
    pub fn note_write(&mut self, ino: u64, end: u64, now: u64)
        requires
            old(self).wf(),
        ensures
            final(self).wf(),
            final(self).nodes().len() == old(self).nodes().len(),
            final(self).nodes() == after_write(old(self), ino, end, now),
            live_pos(old(self), ino) matches Some(h) ==> (final(self).nodes()[h].attr.size >= old(self).nodes()[h].attr.size && final(self).nodes()[h].attr.size >= end && (final(self).nodes()[h].attr.size == old(self).nodes()[h].attr.size || final(self).nodes()[h].attr.size == end)),
            final(self).registry() == old(self).registry(),
            final(self).root() == old(self).root(),
            final(self).snapshots() == old(self).snapshots(),
            final(self).next_inode() == old(self).next_inode(),
            old(self).sealed() ==> final(self).sealed() && frozen_kept(old(self), final(self)),
    {
        proof {
            lemma_write_never_shrinks(old(self), ino, end, now);
        }
        match self.live_node(ino) {
            Some(h) => {
                let mut a = self.nodes[h].attr;
                if a.size < end {
                    a.size = end;
                    a.blocks = block_count(end);
                }
                a.modified = now;
                let ghost t0 = *self;
                self.set_attr(h, a);
                proof {
                    if t0.sealed() {
                        lemma_live_children(&t0, h as int);
                        lemma_seal_nodes(&t0, self, h as int);
                    }
                }
            },
            None => {
                proof {
                    if old(self).sealed() {
                        lemma_seal_nodes(old(self), self, old(self).root());
                    }
                }
            },
        }
    }

    /// A copy of node `h` under inode `new_id` (attributes, name and parent
    /// kept, the same children, which are then held in one more place).
    fn copy_node(&mut self, h: usize, new_id: u64) -> (c: usize)
        requires
            old(self).wf(),
            h < old(self).nodes@.len(),
        ensures
            final(self).frozen() == old(self).frozen(),
            final(self).wf(),
            c == old(self).nodes().len(),
            c == old(self).nodes@.len(),
            final(self).nodes@.len() == old(self).nodes@.len() + 1,
            final(self).nodes() == old(self).nodes().push(NodeView { id: new_id, ..old(self).nodes()[h as int] }),
            final(self).registry() == old(self).registry(),
            final(self).root() == old(self).root(),
            final(self).snapshots() == old(self).snapshots(),
            final(self).next_inode() == old(self).next_inode(),
    {
        let parent_id = self.nodes[h].parent_id;
        let name = self.nodes[h].name.clone();
        let attr = self.nodes[h].attr;
        let ghost src = self.nodes()[h as int];
        proof {
            assert(src == node_view(self.nodes@[h as int]));
            assert(name@ == src.name);
        }
        let c = self.add_node(new_id, parent_id, name, attr);
        proof {
            assert(self.nodes().len() == self.nodes@.len());
            assert(old(self).nodes().len() == old(self).nodes@.len());
            assert(self.nodes()[h as int] == node_view(self.nodes@[h as int]));
            assert(src.children.take(0) =~= Seq::<(Seq<char>, int)>::empty());
            assert(self.nodes()[c as int] =~= NodeView { id: new_id, children: src.children.take(0), ..src });
            assert forall|k: int| 0 <= k < c implies #[trigger] self.nodes()[k] == old(self).nodes()[k] by {}
        }
        let mut j: usize = 0;
        while j < self.nodes[h].children.len()
            invariant
                self.frozen() == old(self).frozen(),
                self.wf(),
                h < c,
                c == self.nodes@.len() - 1,
                self.nodes@.len() == old(self).nodes@.len() + 1,
                j <= src.children.len(),
                src.children == children_view(self.nodes@[h as int].children@),
                forall|k: int| 0 <= k < c ==> #[trigger] self.nodes()[k] == old(self).nodes()[k],
                self.nodes()[c as int] == (NodeView { id: new_id, children: src.children.take(j as int), ..src }),
                self.registry() == old(self).registry(),
                self.root() == old(self).root(),
                self.snapshots() == old(self).snapshots(),
                self.next_inode() == old(self).next_inode(),
            decreases src.children.len() - j,
        {
            let name_j = self.nodes[h].children[j].0.clone();
            let child = self.nodes[h].children[j].1;
            let ghost before = *self;
            assert(src.children[j as int] == (name_j@, child as int));
            self.hold(child);
            let ghost mid = *self;
            proof {
                assert(mid.nodes()[c as int] == before.nodes()[c as int]);
                assert(mid.nodes()[c as int] == node_view(mid.nodes@[c as int]));
                assert(children_view(mid.nodes@[c as int].children@) == src.children.take(j as int));
                assert(mid.nodes()[h as int] == node_view(mid.nodes@[h as int]));
            }
            let ghost nv = name_j@;
            let ghost pushed = (name_j, child);
            self.nodes[c].children.push((name_j, child));
            proof {
                assert(self.nodes@[h as int] == mid.nodes@[h as int]);
                lemma_child_pos(src.children, nv);
                assert(self.nodes@[c as int].children@ == mid.nodes@[c as int].children@.push(pushed));
                assert(children_view(self.nodes@[c as int].children@) =~= children_view(mid.nodes@[c as int].children@).push(
                    (nv, child as int),
                ));
                assert(src.children.take(j + 1) =~= src.children.take(j as int).push(src.children[j as int]));
                assert(children_view(self.nodes@[c as int].children@) =~= src.children.take(j + 1));
                assert forall|k: int| 0 <= k < c implies #[trigger] self.nodes()[k] == old(self).nodes()[k] by {
                    assert(self.nodes@[k] == mid.nodes@[k]);
                    assert(mid.nodes()[k] == before.nodes()[k]);
                }
                assert(self.nodes()[c as int] =~= NodeView { id: new_id, children: src.children.take(j + 1), ..src });
                assert forall|a: int, b: int|
                    0 <= a < j + 1 && 0 <= b < j + 1 && a != b implies #[trigger] src.children.take(j + 1)[a].0
                        != #[trigger] src.children.take(j + 1)[b].0 by {
                    assert(names_unique(src.children));
                }
                assert forall|k: int, i: int|
                    0 <= k < self.nodes@.len() && 0 <= i < self.nodes@[k].children@.len() implies #[trigger] self.nodes@[k].children@[i].1
                        < self.nodes@.len() by {
                    if k != c {
                        assert(self.nodes@[k] == mid.nodes@[k]);
                    } else if i < j {
                        assert(self.nodes@[k].children@[i] == mid.nodes@[k].children@[i]);
                    }
                }
                assert forall|k: int| 0 <= k < self.nodes@.len() implies names_unique(
                    #[trigger] children_view(self.nodes@[k].children@),
                ) by {
                    if k != c {
                        assert(self.nodes@[k] == mid.nodes@[k]);
                    }
                }
            }
            j = j + 1;
        }
        proof {
            assert(src.children.take(src.children.len() as int) =~= src.children);
            assert(self.nodes() =~= old(self).nodes().push(NodeView { id: new_id, ..src }));
        }
        c
    }
}


/// The node that the names `comps` lead to from node `h`, child by child.
pub open spec fn resolve(nodes: Seq<NodeView>, h: int, comps: Seq<Seq<char>>) -> Option<int>
    decreases comps.len(),
{
    if comps.len() == 0 {
        Some(h)
    } else {
        match resolve(nodes, h, comps.drop_last()) {
            Some(p) => child_of(nodes[p].children, comps.last()),
            None => None,
        }
    }
}

/// In `cur`, the child named `nm` of node `q` stands for the child of
/// that name of the base node `q` stands for (and neither exists without
/// the other).
pub open spec fn child_stands_for(base: Seq<NodeView>, cur: Seq<NodeView>, origin: Seq<int>, q: int, nm: Seq<char>) -> bool {
    match child_of(cur[q].children, nm) {
        Some(c) => child_of(base[origin[q]].children, nm) == Some(origin[c]),
        None => child_of(base[origin[q]].children, nm) is None,
    }
}

/// Each node `q` of `cur` stands for node `origin[q]` of `base`: the same
/// name, parent and attributes, and children of the same names standing
/// for the base node's children.
pub open spec fn stands_for(base: Seq<NodeView>, cur: Seq<NodeView>, origin: Seq<int>) -> bool {
    &&& origin.len() == cur.len()
    &&& forall|q: int| 0 <= q < cur.len() ==> 0 <= #[trigger] origin[q] < base.len()
    &&& forall|q: int|
        0 <= q < cur.len() ==> (#[trigger] cur[q]).name == base[origin[q]].name && cur[q].parent_id == base[origin[q]].parent_id
            && cur[q].attr == base[origin[q]].attr
    &&& forall|q: int, nm: Seq<char>|
        0 <= q < cur.len() ==> #[trigger] child_stands_for(base, cur, origin, q, nm)
}

/// The positions `0..n`, each standing for itself.
pub open spec fn identity(n: nat) -> Seq<int> {
    Seq::new(n, |i: int| i)
}

/// Setting the child `name` of a list without duplicate names to `c`
/// changes what that name finds and nothing else.
proof fn lemma_set_child_lookup(children: Seq<(Seq<char>, int)>, name: Seq<char>, c: int, nm: Seq<char>)
    requires
        names_unique(children),
    ensures
        names_unique(without_child(children, name).push((name, c))),
        child_of(without_child(children, name).push((name, c)), nm) == if nm == name {
            Some(c)
        } else {
            child_of(children, nm)
        },
{
    lemma_child_pos(children, name);
    lemma_child_pos(children, nm);
    let w = without_child(children, name);
    let n2 = w.push((name, c));
    assert forall|k: int| 0 <= k < w.len() implies #[trigger] w[k].0 != name && exists|k2: int|
        0 <= k2 < children.len() && children[k2] == w[k] by {
        match child_pos(children, name) {
            Some(j) => {
                if k < j {
                    assert(w[k] == children[k]);
                } else {
                    assert(w[k] == children[k + 1]);
                }
            },
            None => {
                assert(w[k] == children[k]);
            },
        }
    }
    assert(names_unique(n2)) by {
        assert forall|a: int, b: int| 0 <= a < n2.len() && 0 <= b < n2.len() && a != b implies #[trigger] n2[a].0
            != #[trigger] n2[b].0 by {
            if a < w.len() && b < w.len() {
                match child_pos(children, name) {
                    Some(j) => {
                        let ia = if a < j { a } else { a + 1 };
                        let ib = if b < j { b } else { b + 1 };
                        assert(w[a] == children[ia]);
                        assert(w[b] == children[ib]);
                    },
                    None => {
                        assert(w[a] == children[a]);
                        assert(w[b] == children[b]);
                    },
                }
            } else if a < w.len() {
                assert(n2[b].0 == name);
            } else if b < w.len() {
                assert(n2[a].0 == name);
            }
        }
    }
    lemma_child_pos(n2, nm);
    if nm == name {
        assert(n2[n2.len() - 1].0 == name);
    } else {
        match child_pos(children, nm) {
            Some(j2) => {
                match child_pos(children, name) {
                    Some(j) => {
                        let k = if j2 < j { j2 } else { j2 - 1 };
                        assert(j2 != j);
                        assert(w[k] == children[j2]);
                        assert(n2[k] == children[j2]);
                    },
                    None => {
                        assert(n2[j2] == children[j2]);
                    },
                }
            },
            None => {
                assert forall|k: int| 0 <= k < n2.len() implies #[trigger] n2[k].0 != nm by {
                    if k < w.len() {
                        let k2 = choose|k2: int| 0 <= k2 < children.len() && children[k2] == w[k];
                        assert(children[k2].0 != nm);
                    }
                }
            },
        }
    }
}

/// Where `cur` stands for `base`, a path of names leads somewhere from a
/// node of `cur` exactly when it does from the node of `base` it stands
/// for, and to the node standing for where it leads there.
proof fn lemma_stands_for_resolve(base: Seq<NodeView>, cur: Seq<NodeView>, origin: Seq<int>, h: int, comps: Seq<Seq<char>>)
    requires
        stands_for(base, cur, origin),
        0 <= h < cur.len(),
        children_in_arena(cur),
    ensures
        match resolve(cur, h, comps) {
            Some(q) => 0 <= q < cur.len() && resolve(base, origin[h], comps) == Some(origin[q]),
            None => resolve(base, origin[h], comps) is None,
        },
    decreases comps.len(),
{
    if comps.len() > 0 {
        lemma_stands_for_resolve(base, cur, origin, h, comps.drop_last());
        match resolve(cur, h, comps.drop_last()) {
            Some(p) => {
                assert(child_stands_for(base, cur, origin, p, comps.last()));
                match child_pos(cur[p].children, comps.last()) {
                    Some(j) => {
                        assert(0 <= j < cur[p].children.len());
                    },
                    None => {},
                }
            },
            None => {},
        }
    }
}

/// Where `cur` stands for `base`, with root `r1` standing for root `r0`,
/// the same paths of names lead somewhere from the two roots.
proof fn lemma_paths_kept(base: Seq<NodeView>, cur: Seq<NodeView>, origin: Seq<int>, r0: int, r1: int)
    requires
        stands_for(base, cur, origin),
        0 <= r1 < cur.len(),
        origin[r1] == r0,
        children_in_arena(cur),
    ensures
        forall|comps: Seq<Seq<char>>|
            #![trigger resolve(cur, r1, comps)]
            #![trigger resolve(base, r0, comps)]
            (resolve(cur, r1, comps) is None) == (resolve(base, r0, comps) is None),
{
    assert forall|comps: Seq<Seq<char>>|
        #![trigger resolve(cur, r1, comps)]
        #![trigger resolve(base, r0, comps)]
        (resolve(cur, r1, comps) is None) == (resolve(base, r0, comps) is None) by {
        lemma_stands_for_resolve(base, cur, origin, r1, comps);
    }
}

/// Once the first `i` names lead nowhere, so do all of them.
proof fn lemma_resolve_stuck(nodes: Seq<NodeView>, h: int, comps: Seq<Seq<char>>, i: int)
    requires
        0 <= i <= comps.len(),
        resolve(nodes, h, comps.take(i)) is None,
    ensures
        resolve(nodes, h, comps) is None,
    decreases comps.len() - i,
{
    if i < comps.len() {
        assert(comps.take(i + 1).drop_last() =~= comps.take(i));
        lemma_resolve_stuck(nodes, h, comps, i + 1);
    } else {
        assert(comps.take(i) =~= comps);
    }
}

impl InodeTree {
    /// Whether more than one place holds node `h`.
    fn shared(&self, h: usize) -> (b: bool)
        requires
            self.wf(),
            h < self.nodes@.len(),
        ensures
            b == (self.holders()[h as int] > 1),
    {
        self.nodes[h].refs > 1
    }

    /// Makes the live root a node that no other place holds: where another
    /// place holds it, the live root becomes a copy of it (same inode, same
    /// children), and the old node stays wherever else it is held.
    fn own_root(&mut self)
        requires
            old(self).wf(),
        ensures
            final(self).frozen() == old(self).frozen(),
            final(self).wf(),
            final(self).nodes().len() >= old(self).nodes().len(),
            forall|k: int| 0 <= k < old(self).nodes().len() ==> #[trigger] final(self).nodes()[k] == old(self).nodes()[k],
            final(self).nodes()[final(self).root()] == (NodeView {
                id: old(self).nodes()[old(self).root()].id,
                ..old(self).nodes()[old(self).root()]
            }),
            final(self).nodes() == old(self).nodes() && final(self).root() == old(self).root() || final(self).nodes()
                == old(self).nodes().push(old(self).nodes()[old(self).root()]) && final(self).root() == old(
                self,
            ).nodes().len(),
            final(self).registry() == old(self).registry(),
            final(self).snapshots() == old(self).snapshots(),
            final(self).next_inode() == old(self).next_inode(),
            old(self).holders()[old(self).root()] > 1 ==> final(self).nodes() == old(self).nodes().push(
                old(self).nodes()[old(self).root()],
            ) && final(self).root() == old(self).nodes().len(),
            old(self).holders()[old(self).root()] <= 1 ==> final(self).nodes() == old(self).nodes() && final(self).root()
                == old(self).root(),
    {
        let r = self.root;
        if self.shared(r) {
            let id = self.nodes[r].id;
            let c = self.copy_node(r, id);
            self.hold(c);
            self.root = c;
            self.release(r);
        }
    }

    /// Walks `path` (its non-empty `/`-separated components) down from the
    /// live root, making each node on the way one that no other place
    /// holds: a node held elsewhere too is replaced, in its parent, by a
    /// copy under a new inode number, which is registered. Returns the
    /// node the path ends at, or `NotFound` when a component is missing.
    #[verifier::spinoff_prover]
    pub fn get_mutable_inode(&mut self, path: &str) -> (r: Result<usize, FsError>)
        requires
            old(self).wf(),
        ensures
            final(self).wf(),
            final(self).nodes().len() >= old(self).nodes().len(),
            final(self).snapshots() == old(self).snapshots(),
            r matches Ok(h) ==> h < final(self).nodes().len(),
            r matches Ok(h) ==> path_components(path@).len() == 0 ==> h as int == final(self).root(),
            r is Err ==> r == Err::<usize, FsError>(FsError::NotFound),
            r is Err <==> resolve(old(self).nodes(), old(self).root(), path_components(path@)) is None,
            r matches Ok(h) ==> exists|origin: Seq<int>|
                #[trigger] stands_for(old(self).nodes(), final(self).nodes(), origin) && resolve(
                    old(self).nodes(),
                    old(self).root(),
                    path_components(path@),
                ) == Some(origin[h as int]) && origin[final(self).root()] == old(self).root(),
            forall|comps: Seq<Seq<char>>|
                #![trigger resolve(final(self).nodes(), final(self).root(), comps)]
                #![trigger resolve(old(self).nodes(), old(self).root(), comps)]
                (resolve(final(self).nodes(), final(self).root(), comps) is None) == (resolve(
                    old(self).nodes(),
                    old(self).root(),
                    comps,
                ) is None),
            forall|id: u64| #[trigger] old(self).registry().contains_key(id) ==> final(self).registry().contains_key(id),
            old(self).sealed() ==> final(self).sealed() && frozen_kept(old(self), final(self)),
    {
        let ghost base = self.nodes();
        let ghost root0 = self.root();
        proof {
            assert forall|q: int, nm: Seq<char>| 0 <= q < base.len() implies #[trigger] child_stands_for(
                base,
                base,
                identity(base.len()),
                q,
                nm,
            ) by {
                lemma_wf_facts(&*self);
                lemma_child_pos(base[q].children, nm);
            }
            assert(stands_for(base, base, identity(base.len())));
        }
        if path.is_empty() {
            let ghost t0 = *self;
            self.own_root();
            proof {
                if t0.sealed() {
                    let f = t0.frozen();
                    let cur = self.nodes();
                    lemma_live_children(&t0, root0);
                    lemma_roots_within_same(t0.snapshots());
                    assert forall|q: int, j: int|
                        0 <= q < cur.len() && !f.contains(q) && 0 <= j < cur[q].children.len() implies !f.contains(
                            #[trigger] cur[q].children[j].1,
                        ) by {
                        if q < base.len() {
                            assert(cur[q] == base[q]);
                            lemma_live_children(&t0, q);
                        } else {
                            assert(cur[q] == base[root0]);
                        }
                    }
                    assert forall|q: int| #[trigger] f.contains(q) implies self.nodes()[q] == t0.nodes()[q] by {}
                    lemma_seal_step(&t0, self);
                }
            }
            assert(path@.len() == 0);
            assert(path_components(path@) =~= Seq::<Seq<char>>::empty()) by {
                assert(path@ =~= Seq::<char>::empty());
            }
            proof {
                let cur = self.nodes();
                lemma_wf_facts(&*self);
                if cur == base {
                    assert(stands_for(base, cur, identity(base.len())));
                    lemma_paths_kept(base, cur, identity(base.len()), root0, self.root());
                } else {
                    let origin = identity(base.len()).push(root0);
                    assert forall|q: int, nm: Seq<char>| 0 <= q < cur.len() implies #[trigger] child_stands_for(
                        base,
                        cur,
                        origin,
                        q,
                        nm,
                    ) by {
                        lemma_wf_facts(&*self);
                        if q < base.len() {
                            assert(child_stands_for(base, base, identity(base.len()), q, nm));
                            assert(cur[q] == base[q]);
                        } else {
                            assert(child_stands_for(base, base, identity(base.len()), root0, nm));
                        }
                    }
                    assert(stands_for(base, cur, origin));
                    lemma_paths_kept(base, cur, origin, root0, self.root());
                }
            }
            return Ok(self.root);
        }
        let parts = split_path(path);
        let ghost comps = parts.deep_view();
        let mut current = self.root;
        let ghost mut origin = identity(base.len());
        let mut i: usize = 0;
        proof {
            assert(comps.take(0) =~= Seq::<Seq<char>>::empty());
        }
        while i < parts.len()
            invariant
                self.wf(),
                current < self.nodes@.len(),
                i <= parts@.len(),
                parts.deep_view() == path_components(path@),
                comps == parts.deep_view(),
                self.nodes().len() >= old(self).nodes().len(),
                self.snapshots() == old(self).snapshots(),
                self.root() == root0,
                i == 0 ==> current == self.root(),
                stands_for(base, self.nodes(), origin),
                forall|id: u64| #[trigger] old(self).registry().contains_key(id) ==> self.registry().contains_key(id),
                origin[root0] == root0,
                resolve(base, root0, comps.take(i as int)) == Some(origin[current as int]),
                base == old(self).nodes(),
                root0 == old(self).root(),
                root0 < base.len(),
                old(self).sealed() ==> self.sealed() && frozen_kept(old(self), self) && !self.frozen().contains(
                    current as int,
                ),
            decreases parts@.len() - i,
        {
            let part = parts[i].as_str();
            let ghost cur0 = self.nodes();
            proof {
                lemma_wf_facts(&*self);
                lemma_child_pos(cur0[current as int].children, part@);
                assert(comps.take(i + 1).drop_last() =~= comps.take(i as int));
                assert(comps.take(i + 1).last() == part@);
                assert(child_stands_for(base, cur0, origin, current as int, part@));
            }
            let j = match self.find_child(current, part) {
                Some(j) => j,
                None => {
                    proof {
                        lemma_resolve_stuck(base, root0, comps, i + 1);
                        lemma_wf_facts(&*self);
                        lemma_paths_kept(base, self.nodes(), origin, root0, self.root());
                    }
                    return Err(FsError::NotFound);
                },
            };
            let child = self.nodes[current].children[j].1;
            assert(child < self.nodes@.len());
            proof {
                assert(self.nodes()[current as int].children[j as int].1 == child as int);
                assert(child_of(cur0[current as int].children, part@) == Some(child as int));
            }
            proof {
                if old(self).sealed() {
                    lemma_live_children(&*self, current as int);
                    lemma_live_children(&*self, child as int);
                }
            }
            let next = if self.shared(child) {
                let new_id = self.next_inode;
                let ghost ta = *self;
                self.next_inode = new_id.wrapping_add(1);
                proof {
                    if old(self).sealed() {
                        lemma_seal_nodes(&ta, self, current as int);
                        lemma_frozen_kept_trans(old(self), &ta, self);
                    }
                }
                let ghost tb = *self;
                let c = self.copy_node(child, new_id);
                proof {
                    if old(self).sealed() {
                        lemma_live_children(&tb, child as int);
                        lemma_seal_nodes(&tb, self, current as int);
                        lemma_frozen_kept_trans(old(self), &tb, self);
                    }
                }
                let ghost cur1 = self.nodes();
                let ghost origin1 = origin.push(origin[child as int]);
                proof {
                    lemma_wf_facts(&*self);
                    assert forall|q: int, nm: Seq<char>| 0 <= q < cur1.len() implies #[trigger] child_stands_for(
                        base,
                        cur1,
                        origin1,
                        q,
                        nm,
                    ) by {
                        if q < cur0.len() {
                            assert(child_stands_for(base, cur0, origin, q, nm));
                            assert(cur1[q] == cur0[q]);
                            match child_of(cur0[q].children, nm) {
                                Some(cc) => {
                                    lemma_child_pos(cur0[q].children, nm);
                                    assert(origin1[cc] == origin[cc]);
                                },
                                None => {},
                            }
                        } else {
                            assert(child_stands_for(base, cur0, origin, child as int, nm));
                            assert(cur1[q].children == cur0[child as int].children);
                            match child_of(cur0[child as int].children, nm) {
                                Some(cc) => {
                                    lemma_child_pos(cur0[child as int].children, nm);
                                    assert(origin1[cc] == origin[cc]);
                                },
                                None => {},
                            }
                        }
                    }
                    assert(stands_for(base, cur1, origin1));
                }
                let ghost tc = *self;
                self.register(new_id, c);
                proof {
                    if old(self).sealed() {
                        lemma_seal_register(&tc, self, new_id, c as int);
                        lemma_frozen_kept_trans(old(self), &tc, self);
                    }
                }
                let ghost td = *self;
                self.set_child(current, parts[i].clone(), c);
                proof {
                    if old(self).sealed() {
                        lemma_live_children(&td, current as int);
                        lemma_set_child_targets(td.nodes()[current as int].children, part@, c as int, td.frozen());
                        lemma_seal_nodes(&td, self, current as int);
                        lemma_frozen_kept_trans(old(self), &td, self);
                    }
                }
                let ghost cur2 = self.nodes();
                proof {
                    lemma_wf_facts(&*self);
                    assert forall|q: int, nm: Seq<char>| 0 <= q < cur2.len() implies #[trigger] child_stands_for(
                        base,
                        cur2,
                        origin1,
                        q,
                        nm,
                    ) by {
                        assert(child_stands_for(base, cur1, origin1, q, nm));
                        if q == current as int {
                            lemma_wf_facts(&*self);
                            assert(names_unique(cur1[q].children)) by {
                                assert(cur1[q] == cur0[q]);
                            }
                            lemma_set_child_lookup(cur1[q].children, part@, c as int, nm);
                        } else {
                            assert(cur2[q] == cur1[q]);
                        }
                    }
                    assert(stands_for(base, cur2, origin1));
                    origin = origin1;
                }
                c
            } else {
                child
            };
            current = next;
            i = i + 1;
        }
        proof {
            assert(comps.take(parts@.len() as int) =~= comps);
            lemma_wf_facts(&*self);
            lemma_paths_kept(base, self.nodes(), origin, root0, self.root());
        }
        Ok(current)
    }
}


impl InodeTree {
    /// The path from the live root to a node with inode `ino`, found depth
    /// first (the last child first), components joined with `/`; the
    /// empty path for the root inode; `None` exactly when no node of the
    /// live tree has that inode.
    pub fn get_path_from_inode(&self, ino: u64) -> (r: Option<String>)
        requires
            self.wf(),
        ensures
            ino == FUSE_ROOT_ID ==> r is Some && r->0@.len() == 0,
            ino != FUSE_ROOT_ID ==> match r {
                Some(p) => exists|comps: Seq<Seq<char>>|
                    #[trigger] path_to(self.nodes(), self.root(), comps, ino) && p@ == path_text(comps),
                None => forall|h: int| #[trigger] under(self.nodes(), self.root(), h) ==> self.nodes()[h].id != ino,
            },
    {
        if ino == FUSE_ROOT_ID {
            let empty = String::new();
            assert(empty@.len() == 0);
            return Some(empty);
        }
        let ghost nv = self.nodes();
        let root = self.root;
        proof {
            lemma_wf_facts(self);
            lemma_under_self(nv, root as int);
            assert(resolve(nv, root as int, Seq::<Seq<char>>::empty()) == Some(root as int));
            assert(path_text(Seq::<Seq<char>>::empty()) =~= Seq::<char>::empty());
        }
        let n = self.nodes.len();
        let mut marked: Vec<bool> = Vec::new();
        let mut i: usize = 0;
        while i < n
            invariant
                i <= n,
                marked@.len() == i,
                forall|k: int| 0 <= k < i ==> !#[trigger] marked@[k],
            decreases n - i,
        {
            marked.push(false);
            i = i + 1;
        }
        let mut stack: Vec<(usize, String)> = Vec::new();
        let start = String::new();
        stack.push((root, start));
        assert(positions(stack@) =~= seq![root]);
        assert(positions(stack@)[0] as int == root as int);
        assert(reached_by(nv, root as int, stack@[0].0 as int, stack@[0].1@)) by {
            assert(resolve(nv, root as int, Seq::<Seq<char>>::empty()) == Some(root as int));
        }
        while stack.len() > 0
            invariant
                self.wf(),
                ino != FUSE_ROOT_ID,
                nv == self.nodes(),
                n == nv.len(),
                root == self.root(),
                root < n,
                children_in_arena(nv),
                forall|h: int| 0 <= h < nv.len() ==> names_unique(#[trigger] nv[h].children),
                marked@.len() == n,
                forall|k: int|
                    0 <= k < stack@.len() ==> #[trigger] stack@[k].0 < n && reached_by(
                        nv,
                        root as int,
                        stack@[k].0 as int,
                        stack@[k].1@,
                    ),
                forall|q: int| 0 <= q < n && #[trigger] marked@[q] ==> nv[q].id != ino,
                forall|q: int, j: int|
                    0 <= q < n && marked@[q] && 0 <= j < nv[q].children.len() ==> marked@[#[trigger] nv[q].children[j].1]
                        || on_stack(positions(stack@), nv[q].children[j].1),
                marked@[root as int] || on_stack(positions(stack@), root as int),
            decreases unmarked(marked@), stack@.len(),
        {
            let ghost before = stack@;
            let (h, path) = stack.pop().unwrap();
            assert(before =~= stack@.push((h, path)));
            assert(positions(before) =~= positions(stack@).push(h));
            assert forall|c: int| on_stack(positions(before), c) && c != h as int implies on_stack(positions(stack@), c) by {
                let k = choose|k: int| 0 <= k < positions(before).len() && #[trigger] positions(before)[k] as int == c;
                assert(k < positions(stack@).len());
            }
            assert(before[before.len() - 1] == (h, path));
            assert(reached_by(nv, root as int, h as int, path@));
            if marked[h] {
                continue;
            }
            if self.nodes[h].id == ino {
                proof {
                    let comps = choose|comps: Seq<Seq<char>>|
                        #[trigger] resolve(nv, root as int, comps) == Some(h as int) && path@ == path_text(comps);
                    assert(path_to(nv, root as int, comps, ino));
                }
                return Some(path);
            }
            proof {
                lemma_mark(marked@, h as int);
            }
            marked.set(h, true);
            let ghost mid = positions(stack@);
            let mut j: usize = 0;
            while j < self.nodes[h].children.len()
                invariant
                    self.wf(),
                    nv == self.nodes(),
                    n == nv.len(),
                    h < n,
                    reached_by(nv, root as int, h as int, path@),
                    names_unique(nv[h as int].children),
                    children_in_arena(nv),
                    j <= nv[h as int].children.len(),
                    nv[h as int].children.len() == self.nodes@[h as int].children@.len(),
                    forall|k: int|
                        0 <= k < stack@.len() ==> #[trigger] stack@[k].0 < n && reached_by(
                            nv,
                            root as int,
                            stack@[k].0 as int,
                            stack@[k].1@,
                        ),
                    forall|c: int| on_stack(mid, c) ==> on_stack(positions(stack@), c),
                    forall|k: int| 0 <= k < j ==> on_stack(positions(stack@), #[trigger] nv[h as int].children[k].1),
                decreases nv[h as int].children.len() - j,
            {
                let name = self.nodes[h].children[j].0.as_str();
                let c = self.nodes[h].children[j].1;
                assert(nv[h as int].children[j as int].1 == c as int);
                assert(nv[h as int].children[j as int].0 == name@);
                let child_path = if path.as_str().is_empty() {
                    String::from_str(name)
                } else {
                    let mut p = path.clone();
                    string_push(&mut p, '/');
                    p.append(name);
                    p
                };
                proof {
                    lemma_reached_child(nv, root as int, h as int, path@, j as int);
                    if path@.len() != 0 {
                        assert(child_path@ =~= path@ + seq!['/'] + name@);
                    }
                }
                let ghost prev = stack@;
                stack.push((c, child_path));
                assert(positions(stack@) =~= positions(prev).push(c));
                assert forall|x: int| on_stack(positions(prev), x) implies on_stack(positions(stack@), x) by {
                    let k = choose|k: int| 0 <= k < positions(prev).len() && #[trigger] positions(prev)[k] as int == x;
                    assert(positions(stack@)[k] == positions(prev)[k]);
                }
                assert(positions(stack@)[prev.len() as int] as int == c as int);
                j = j + 1;
            }
        }
        proof {
            assert forall|hh: int| #[trigger] under(nv, root as int, hh) implies nv[hh].id != ino by {
                let comps = choose|comps: Seq<Seq<char>>| #[trigger] resolve(nv, root as int, comps) == Some(hh);
                lemma_marks_cover(nv, marked@, root as int, comps);
                lemma_resolve_in_arena(nv, root as int, comps);
            }
        }
        None
    }

    /// The tags a new file under `parent_inode_id` gets: the names of the
    /// directories from the root down to it (empty names left out), each
    /// read from the store, else from the live tree; the walk up stops at
    /// the root, at inode 0, or at an inode that neither knows (see
    /// `ancestry_walk`).
    pub fn derive_tags_from_parent_ancestry(&self, fm: &FileManager, parent_inode_id: u64) -> (tags: Vec<String>)
        requires
            self.wf(),
        ensures
            exists|walk: Seq<(Seq<char>, u64)>|
                #[trigger] ancestry_walk(fm@, self, parent_inode_id, walk) && tags.deep_view() == ancestry_tags(walk),
            exists|walk: Seq<(Seq<char>, u64)>|
                #[trigger] ancestry_walk(fm@, self, parent_inode_id, walk) && tags.deep_view() == walk.map_values(
                    |p: (Seq<char>, u64)| p.0,
                ).filter(|n: Seq<char>| n.len() > 0).reverse(),
    {
        let mut collected: Vec<String> = Vec::new();
        let mut current = parent_inode_id;
        let mut fuel: u64 = u64::MAX;
        let ghost mut walk: Seq<(Seq<char>, u64)> = Seq::empty();
        while current != FUSE_ROOT_ID && current != 0 && fuel > 0
            invariant
                self.wf(),
                current == walk_at(parent_inode_id, walk, walk.len() as int),
                walk.len() + fuel == u64::MAX,
                forall|k: int| 0 <= k < walk.len() ==> #[trigger] walk_step_ok(fm@, self, parent_inode_id, walk, k),
                collected.deep_view() == kept_names(walk),
            ensures
                ancestry_walk(fm@, self, parent_inode_id, walk),
                collected.deep_view() == kept_names(walk),
            decreases fuel,
        {
            let ghost before = walk;
            let step: Option<(String, u64)> = match fm.load_inode(current) {
                Ok(Some(meta)) => Some((meta.name, meta.parent_id)),
                _ => match self.live_node(current) {
                    Some(h) => Some((self.nodes[h].name.clone(), self.nodes[h].parent_id)),
                    None => None,
                },
            };
            match step {
                Some((name, up)) => {
                    proof {
                        walk = walk.push((name@, up));
                        assert(walk.drop_last() =~= before);
                        assert forall|k: int| 0 <= k < walk.len() implies #[trigger] walk_step_ok(
                            fm@,
                            self,
                            parent_inode_id,
                            walk,
                            k,
                        ) by {
                            if k < before.len() {
                                assert(walk_step_ok(fm@, self, parent_inode_id, before, k));
                                assert(walk[k] == before[k]);
                                assert(walk_at(parent_inode_id, walk, k) == walk_at(parent_inode_id, before, k));
                            }
                        }
                    }
                    if !name.as_str().is_empty() {
                        collected.push(name);
                        assert(collected.deep_view() =~= kept_names(walk));
                    } else {
                        assert(collected.deep_view() =~= kept_names(walk));
                    }
                    current = up;
                    fuel = fuel - 1;
                },
                None => {
                    proof {
                        assert(ancestry_step(fm@, self, current, None));
                        assert(ancestry_walk(fm@, self, parent_inode_id, walk));
                    }
                    break;
                },
            }
        }
        let mut tags: Vec<String> = Vec::new();
        let mut i: usize = collected.len();
        while i > 0
            invariant
                i <= collected@.len(),
                tags@.len() == collected@.len() - i,
                forall|k: int| 0 <= k < tags@.len() ==> #[trigger] tags@[k] == collected@[collected@.len() - 1 - k],
            decreases i,
        {
            i = i - 1;
            tags.push(collected[i].clone());
        }
        proof {
            assert(ancestry_walk(fm@, self, parent_inode_id, walk));
            assert(tags.deep_view() =~= ancestry_tags(walk));
            lemma_ancestry_tags_are_the_names(walk);
        }
        tags
    }

    /// Makes sure the live tree holds the directories `/t1/t2/...` for the
    /// canonical list of `tags`, creating (and storing) the missing ones
    /// under new inode numbers; returns the inode of the last. `NotFound`
    /// when a directory on the way is not live, `InvalidArgument` when a
    /// component is a regular file, `Io` when the store fails.
    pub fn ensure_real_path_for_tags(&mut self, fm: &mut FileManager, tags: &[String], now: u64) -> (r: Result<u64, FsError>)
        requires
            old(self).wf(),
        ensures
            final(self).wf(),
            final(self).snapshots() == old(self).snapshots(),
            canonical_of(tags.deep_view()).len() == 0 ==> r == Ok::<u64, FsError>(FUSE_ROOT_ID),
            r matches Ok(id) ==> id == FUSE_ROOT_ID || exists|h: int|
                0 <= h < final(self).nodes().len() && #[trigger] final(self).nodes()[h].id == id,
            canonical_of(tags.deep_view()).len() > 0 ==> (r matches Ok(id) ==> ends_path_by(
                final(self).nodes(),
                canonical_of(tags.deep_view()).last(),
                id,
            )),
            r is Err ==> r == Err::<u64, FsError>(FsError::NotFound) || r == Err::<u64, FsError>(FsError::InvalidArgument)
                || r == Err::<u64, FsError>(FsError::Io),
            old(self).sealed() ==> final(self).sealed() && frozen_kept(old(self), final(self)),
    {
        let canonical = canonicalize_tags(tags);
        let mut current_parent = FUSE_ROOT_ID;
        let mut i: usize = 0;
        while i < canonical.len()
            invariant
                self.wf(),
                self.snapshots() == old(self).snapshots(),
                i <= canonical@.len(),
                canonical.deep_view() == canonical_of(tags.deep_view()),
                i > 0 ==> current_parent == FUSE_ROOT_ID || exists|h: int|
                    0 <= h < self.nodes().len() && #[trigger] self.nodes()[h].id == current_parent,
                i > 0 ==> ends_path_by(self.nodes(), canonical.deep_view()[i - 1], current_parent),
                i == 0 ==> current_parent == FUSE_ROOT_ID,
                old(self).sealed() ==> self.sealed() && frozen_kept(old(self), self),
            decreases canonical@.len() - i,
        {
            let tag = canonical[i].as_str();
            let parent_h = match self.live_node(current_parent) {
                Some(h) => h,
                None => return Err(FsError::NotFound),
            };
            match self.find_child(parent_h, tag) {
                Some(j) => {
                    let c = self.nodes[parent_h].children[j].1;
                    assert(c < self.nodes@.len());
                    if self.nodes[c].attr.kind != NodeKind::Directory {
                        return Err(FsError::InvalidArgument);
                    }
                    current_parent = self.nodes[c].id;
                    assert(self.nodes()[c as int].id == current_parent);
                    proof {
                        assert(tag@ == canonical.deep_view()[i as int]);
                        assert(child_of(self.nodes()[parent_h as int].children, tag@) == Some(c as int));
                        assert(self.nodes()[c as int].attr.kind == NodeKind::Directory);
                        assert(ends_path_by(self.nodes(), canonical.deep_view()[i as int], current_parent));
                    }
                },
                None => {
                    let ghost tg = *self;
                    let new_id = self.generate_id();
                    proof {
                        if old(self).sealed() {
                            lemma_seal_nodes(&tg, self, tg.root());
                            lemma_frozen_kept_trans(old(self), &tg, self);
                        }
                    }
                    let attr = dir_attr(new_id, now);
                    let meta = InodeMetadata {
                        id: new_id,
                        parent_id: current_parent,
                        name: String::from_str(tag),
                        is_dir: true,
                        attr: InodeAttr { size: 0 },
                    };
                    if fm.save_inode(&meta).is_err() {
                        return Err(FsError::Io);
                    }
                    if fm.save_dirent(current_parent, tag, new_id).is_err() {
                        return Err(FsError::Io);
                    }
                    let ghost t1 = *self;
                    let h = self.add_node(new_id, current_parent, String::from_str(tag), attr);
                    proof {
                        if old(self).sealed() {
                            lemma_seal_nodes(&t1, self, parent_h as int);
                            lemma_frozen_kept_trans(old(self), &t1, self);
                        }
                    }
                    let ghost t3 = *self;
                    self.register(new_id, h);
                    proof {
                        if old(self).sealed() {
                            lemma_seal_register(&t3, self, new_id, h as int);
                            lemma_frozen_kept_trans(old(self), &t3, self);
                        }
                    }
                    let ghost t2 = *self;
                    self.set_child(parent_h, String::from_str(tag), h);
                    proof {
                        if old(self).sealed() {
                            lemma_live_children(&t2, parent_h as int);
                            lemma_set_child_targets(t2.nodes()[parent_h as int].children, tag@, h as int, t2.frozen());
                            lemma_seal_nodes(&t2, self, parent_h as int);
                            lemma_frozen_kept_trans(old(self), &t2, self);
                        }
                    }
                    assert(self.nodes()[h as int].id == new_id);
                    proof {
                        lemma_wf_facts(self);
                        let cv = self.nodes()[parent_h as int].children;
                        assert(cv.last() == (tag@, h as int));
                        lemma_child_pos(cv, tag@);
                        assert(cv[cv.len() - 1].0 == tag@);
                        assert(child_of(cv, tag@) == Some(h as int));
                        assert(tag@ == canonical.deep_view()[i as int]);
                        assert(self.nodes()[h as int].attr == attr);
                        assert(ends_path_by(self.nodes(), canonical.deep_view()[i as int], new_id));
                    }
                    current_parent = new_id;
                },
            }
            i = i + 1;
        }
        assert(canonical.deep_view().len() > 0 ==> canonical.deep_view()[canonical@.len() - 1] == canonical.deep_view().last());
        Ok(current_parent)
    }
}

/// Inode `id` is a directory that some node holds as its child `name`.
pub open spec fn ends_path_by(nodes: Seq<NodeView>, name: Seq<char>, id: u64) -> bool {
    exists|p: int, c: int|
        #![trigger child_of(nodes[p].children, name), nodes[c]]
        0 <= p < nodes.len() && 0 <= c < nodes.len() && child_of(nodes[p].children, name) == Some(c) && nodes[c].id == id
            && nodes[c].attr.kind == NodeKind::Directory
}


/// Live inode `id` is the entry `name` of live directory `parent`, and is
/// named `name` with parent `parent`.
pub open spec fn live_entry(t: &InodeTree, parent: u64, name: Seq<char>, id: u64) -> bool {
    &&& t.registry().contains_key(id)
    &&& t.registry().contains_key(parent)
    &&& t.nodes()[t.registry()[id]].name == name
    &&& t.nodes()[t.registry()[id]].parent_id == parent
    &&& parent != id ==> child_of(t.nodes()[t.registry()[parent]].children, name) == Some(t.registry()[id])
}

impl InodeTree {
    /// Creates regular file `name` in live directory `parent` under a new
    /// inode number: its inode record, directory entry and empty recipe
    /// are stored, it is tagged with the names of the directories above it
    /// (where there are any), and it joins the live tree. Returns the new
    /// inode and what was done about its tags (see `file_created`); `Io`
    /// when the store fails, `NotFound` when `parent` is not live.
    pub fn create_live_file_under_parent(&mut self, fm: &mut FileManager, parent: u64, name: &str, now: u64) -> (r: Result<
        (u64, AutoTag),
        FsError,
    >)
        requires
            old(self).wf(),
        ensures
            final(self).wf(),
            final(self).snapshots() == old(self).snapshots(),
            r is Err ==> r == Err::<(u64, AutoTag), FsError>(FsError::Io) || r == Err::<(u64, AutoTag), FsError>(
                FsError::NotFound,
            ),
            !old(self).registry().contains_key(parent) ==> r is Err,
            r matches Ok(p) ==> p.0 == old(self).next_inode() && live_entry(final(self), parent, name@, p.0)
                && final(self).nodes()[final(self).registry()[p.0]].attr == fresh_attr(p.0, false, 0, now),
            r matches Ok(p) ==> file_created(old(fm)@, final(fm)@, old(self), p.0, parent, name@, p.1),
            old(self).sealed() ==> final(self).sealed() && frozen_kept(old(self), final(self)),
    {
        let new_id = self.generate_id();
        proof {
            if old(self).sealed() {
                lemma_seal_nodes(old(self), self, old(self).root());
            }
        }
        let attr = Self::make_attr(new_id, false, 0, now);
        let meta = InodeMetadata {
            id: new_id,
            parent_id: parent,
            name: String::from_str(name),
            is_dir: false,
            attr: InodeAttr { size: 0 },
        };
        if fm.save_inode(&meta).is_err() {
            return Err(FsError::Io);
        }
        if fm.save_dirent(parent, name, new_id).is_err() {
            return Err(FsError::Io);
        }
        let recipe = FileRecipe { file_size: 0, chunks: Vec::new(), kind: FileKind::File };
        if fm.save_recipe(new_id, &recipe).is_err() {
            return Err(FsError::Io);
        }
        let ghost m3 = fm@;
        proof {
            assert(recipe.chunks.deep_view() =~= Seq::<Seq<char>>::empty());
            assert(m3 == created_store(old(fm)@, new_id, parent, name@));
            lemma_inode_dirent_keys_differ(new_id, parent, name@);
            lemma_inode_recipe_keys_differ(new_id, new_id);
            lemma_recipe_dirent_keys_differ(new_id, parent, name@);
            assert(inode_record(m3, new_id) == Some(Some((new_id, parent, name@, false, 0u64))));
            assert(dirent_child(m3, parent, name@) == Some(Some(new_id)));
        }
        let ghost t_derive = *self;
        let auto_tags = self.derive_tags_from_parent_ancestry(fm, parent);
        let tagged = if auto_tags.len() > 0 {
            let ghost at = auto_tags.deep_view();
            let ghost walk = choose|walk: Seq<(Seq<char>, u64)>|
                #[trigger] ancestry_walk(m3, &t_derive, parent, walk) && at == ancestry_tags(walk);
            proof {
                assert(ancestry_walk(m3, &t_derive, parent, walk) && at == ancestry_tags(walk));
                lemma_ancestry_same_tree(m3, old(self), &t_derive, parent, walk);
                assert(at.len() == auto_tags@.len());
            }
            match fm.set_file_tags(new_id, name, auto_tags) {
                Ok(()) => {
                    proof {
                        let nt = tags_of(fm@, new_id).unwrap();
                        let ot = tags_of(m3, new_id).unwrap();
                        lemma_inode_not_tag_key(new_id, new_id, nt, ot);
                        lemma_dirent_not_tag_key(parent, name@, new_id, nt, ot);
                        assert(ancestry_walk(m3, old(self), parent, walk) && ancestry_tags(walk).len() > 0 && tags_set_to(
                            m3,
                            fm@,
                            new_id,
                            ancestry_tags(walk),
                        ));
                        assert(inode_record(fm@, new_id) == inode_record(m3, new_id));
                        assert(dirent_child(fm@, parent, name@) == dirent_child(m3, parent, name@));
                    }
                    AutoTag::Stored
                },
                Err(_) => AutoTag::Failed,
            }
        } else {
            AutoTag::NotNeeded
        };
        proof {
            lemma_records_not_tag_keys(new_id, new_id, parent, name@);
            let ki = key_bytes(spec_inode_key(new_id));
            let kd = key_bytes(spec_dirent_key(parent, name@));
            assert(fm@.contains_key(ki) == m3.contains_key(ki));
            assert(fm@.contains_key(kd) == m3.contains_key(kd));
            assert(inode_record(fm@, new_id) == inode_record(m3, new_id));
            assert(dirent_child(fm@, parent, name@) == dirent_child(m3, parent, name@));
        }
        let ghost m4 = fm@;
        assert(file_created(old(fm)@, m4, old(self), new_id, parent, name@, tagged));
        let parent_h = match self.live_node(parent) {
            Some(h) => h,
            None => return Err(FsError::NotFound),
        };
        let ghost t1 = *self;
        let h = self.add_node(new_id, parent, String::from_str(name), attr);
        proof {
            if old(self).sealed() {
                lemma_seal_nodes(&t1, self, parent_h as int);
                lemma_frozen_kept_trans(old(self), &t1, self);
            }
        }
        let ghost t2 = *self;
        self.set_child(parent_h, String::from_str(name), h);
        proof {
            if old(self).sealed() {
                lemma_live_children(&t2, parent_h as int);
                lemma_set_child_targets(t2.nodes()[parent_h as int].children, name@, h as int, t2.frozen());
                lemma_seal_nodes(&t2, self, parent_h as int);
                lemma_frozen_kept_trans(old(self), &t2, self);
            }
        }
        let ghost t3 = *self;
        self.register(new_id, h);
        proof {
            if old(self).sealed() {
                lemma_seal_register(&t3, self, new_id, h as int);
                lemma_frozen_kept_trans(old(self), &t3, self);
            }
        }
        proof {
            let cv = self.nodes()[parent_h as int].children;
            assert(cv.last() == (name@, h as int));
            assert(names_unique(cv)) by {
                assert(cv == children_view(self.nodes@[parent_h as int].children@));
            }
            lemma_child_pos(cv, name@);
            assert(cv[cv.len() - 1].0 == name@);
            assert(child_of(cv, name@) == Some(h as int));
            assert(self.nodes()[h as int].name == name@);
            assert(self.nodes()[h as int].attr == attr);
        }
        Ok((new_id, tagged))
    }

    /// Creates directory `name` in live directory `parent` under a new
    /// inode number, after copy-on-write along the path to `parent` (see
    /// `get_mutable_inode`): its inode record and directory entry are
    /// stored and it joins the live tree under the node the registry names
    /// `parent`. Returns its attributes; `NotFound` when `parent` is not
    /// live, `Io` when the store fails.
    pub fn mkdir_live(&mut self, fm: &mut FileManager, parent: u64, name: &str, now: u64) -> (r: Result<NodeAttr, FsError>)
        requires
            old(self).wf(),
        ensures
            final(self).wf(),
            final(self).snapshots() == old(self).snapshots(),
            r is Err ==> r == Err::<NodeAttr, FsError>(FsError::Io) || r == Err::<NodeAttr, FsError>(FsError::NotFound),
            r == Err::<NodeAttr, FsError>(FsError::NotFound) <==> !final(self).registry().contains_key(parent),
            old(self).registry().contains_key(parent) ==> r != Err::<NodeAttr, FsError>(FsError::NotFound),
            r == Err::<NodeAttr, FsError>(FsError::NotFound) ==> final(fm)@ == old(fm)@,
            r matches Ok(a) ==> a == spec_dir_attr(a.ino, now) && live_entry(final(self), parent, name@, a.ino)
                && final(self).nodes()[final(self).registry()[a.ino]].attr == a,
            r matches Ok(a) ==> inode_record(final(fm)@, a.ino) == Some(Some((a.ino, parent, name@, true, 0u64)))
                && dirent_child(final(fm)@, parent, name@) == Some(Some(a.ino)),
            old(self).sealed() ==> final(self).sealed() && frozen_kept(old(self), final(self)),
    {
        match self.get_path_from_inode(parent) {
            Some(path) => {
                let _ = self.get_mutable_inode(path.as_str());
            },
            None => {},
        }
        let parent_h = match self.live_node(parent) {
            Some(h) => h,
            None => return Err(FsError::NotFound),
        };
        let ghost tg = *self;
        let new_id = self.generate_id();
        proof {
            if old(self).sealed() {
                lemma_seal_nodes(&tg, self, tg.root());
                lemma_frozen_kept_trans(old(self), &tg, self);
            }
        }
        let attr = dir_attr(new_id, now);
        let meta = InodeMetadata {
            id: new_id,
            parent_id: parent,
            name: String::from_str(name),
            is_dir: true,
            attr: InodeAttr { size: 0 },
        };
        if fm.save_inode(&meta).is_err() {
            return Err(FsError::Io);
        }
        let ghost m1 = fm@;
        if fm.save_dirent(parent, name, new_id).is_err() {
            return Err(FsError::Io);
        }
        proof {
            lemma_inode_dirent_keys_differ(new_id, parent, name@);
            assert(inode_record(fm@, new_id) == inode_record(m1, new_id));
        }
        let ghost t1 = *self;
        let h = self.add_node(new_id, parent, String::from_str(name), attr);
        proof {
            if old(self).sealed() {
                lemma_seal_nodes(&t1, self, parent_h as int);
                lemma_frozen_kept_trans(old(self), &t1, self);
            }
        }
        let ghost t3 = *self;
        self.register(new_id, h);
        proof {
            if old(self).sealed() {
                lemma_seal_register(&t3, self, new_id, h as int);
                lemma_frozen_kept_trans(old(self), &t3, self);
            }
        }
        let ghost t2 = *self;
        self.set_child(parent_h, String::from_str(name), h);
        proof {
            if old(self).sealed() {
                lemma_live_children(&t2, parent_h as int);
                lemma_set_child_targets(t2.nodes()[parent_h as int].children, name@, h as int, t2.frozen());
                lemma_seal_nodes(&t2, self, parent_h as int);
                lemma_frozen_kept_trans(old(self), &t2, self);
            }
        }
        proof {
            let cv = self.nodes()[parent_h as int].children;
            assert(cv.last() == (name@, h as int));
            assert(names_unique(cv)) by {
                assert(cv == children_view(self.nodes@[parent_h as int].children@));
            }
            lemma_child_pos(cv, name@);
            assert(cv[cv.len() - 1].0 == name@);
            assert(child_of(cv, name@) == Some(h as int));
            assert(self.nodes()[h as int].name == name@);
        }
        Ok(attr)
    }

    /// Takes entry `name` out of live directory `parent`, removes its
    /// stored directory entry and the removed inode's tags (see
    /// `FileManager::forget_entry`); returns that inode and whether the
    /// store forgot both. `NotFound` when `parent` is not live or has no
    /// such entry.
    pub fn unlink_live(&mut self, fm: &mut FileManager, parent: u64, name: &str) -> (r: Result<(u64, bool), FsError>)
        requires
            old(self).wf(),
        ensures
            final(self).wf(),
            final(self).registry() == old(self).registry(),
            final(self).snapshots() == old(self).snapshots(),
            r matches Ok(p) ==> (p.1 ==> entry_forgotten(final(fm)@, parent, name@, p.0)),
            r is Err <==> match live_pos(old(self), parent) {
                Some(h) => child_of(old(self).nodes()[h].children, name@) is None,
                None => true,
            },
            r is Err ==> r == Err::<(u64, bool), FsError>(FsError::NotFound),
            r matches Ok(p) ==> ({
                let id = p.0;
                let h = old(self).registry()[parent];
                &&& id == old(self).nodes()[child_of(old(self).nodes()[h].children, name@).unwrap()].id
                &&& final(self).nodes()[h].children == without_child(old(self).nodes()[h].children, name@)
            }),
            r is Err ==> final(self).nodes() == old(self).nodes() && final(fm)@ == old(fm)@,
            old(self).sealed() ==> final(self).sealed() && frozen_kept(old(self), final(self)),
    {
        let parent_h = match self.live_node(parent) {
            Some(h) => h,
            None => return Err(FsError::NotFound),
        };
        let ghost before = self.nodes();
        let ghost t0 = *self;
        let removed = self.remove_child(parent_h, name);
        proof {
            if t0.sealed() {
                lemma_live_children(&t0, parent_h as int);
                lemma_set_child_targets(t0.nodes()[parent_h as int].children, name@, t0.root(), t0.frozen());
                lemma_seal_nodes(&t0, self, parent_h as int);
            }
        }
        match removed {
            Some(c) => {
                proof {
                    lemma_child_pos(before[parent_h as int].children, name@);
                }
                assert(c < self.nodes@.len()) by {
                    let j = child_pos(before[parent_h as int].children, name@).unwrap();
                    assert(old(self).nodes@[parent_h as int].children@[j].1 < old(self).nodes@.len());
                }
                let removed_ino = self.nodes[c].id;
                assert(self.nodes()[c as int].id == before[c as int].id);
                let done = fm.forget_entry(parent, name, removed_ino);
                Ok((removed_ino, done))
            },
            None => {
                assert(self.nodes() =~= before);
                Err(FsError::NotFound)
            },
        }
    }

    /// Takes live inode `real_ino` out of its parent directory (by the
    /// name it was created with), removes the stored directory entry and
    /// its tags; returns it and whether the store forgot both. `NotFound`
    /// when it or its parent is not live,
    /// or the parent has no entry of that name.
    pub fn unlink_real(&mut self, fm: &mut FileManager, real_ino: u64) -> (r: Result<(u64, bool), FsError>)
        requires
            old(self).wf(),
        ensures
            final(self).wf(),
            final(self).registry() == old(self).registry(),
            final(self).snapshots() == old(self).snapshots(),
            r is Err ==> r == Err::<(u64, bool), FsError>(FsError::NotFound),
            r matches Ok(p) ==> p.0 == real_ino,
            r matches Ok(p) ==> (p.1 ==> ({
                let n = old(self).nodes()[old(self).registry()[real_ino]];
                entry_forgotten(final(fm)@, n.parent_id, n.name, real_ino)
            })),
            !old(self).registry().contains_key(real_ino) ==> r is Err,
            old(self).sealed() ==> final(self).sealed() && frozen_kept(old(self), final(self)),
    {
        let h = match self.live_node(real_ino) {
            Some(h) => h,
            None => return Err(FsError::NotFound),
        };
        let real_parent = self.nodes[h].parent_id;
        let real_name = self.nodes[h].name.clone();
        let parent_h = match self.live_node(real_parent) {
            Some(p) => p,
            None => return Err(FsError::NotFound),
        };
        let ghost t0 = *self;
        let removed = self.remove_child(parent_h, real_name.as_str());
        proof {
            if t0.sealed() {
                lemma_live_children(&t0, parent_h as int);
                lemma_set_child_targets(t0.nodes()[parent_h as int].children, real_name@, t0.root(), t0.frozen());
                lemma_seal_nodes(&t0, self, parent_h as int);
            }
        }
        match removed {
            Some(_) => {
                let done = fm.forget_entry(real_parent, real_name.as_str(), real_ino);
                Ok((real_ino, done))
            },
            None => Err(FsError::NotFound),
        }
    }

    /// The live file that `name` names in virtual directory
    /// `parent_virtual`: the one candidate with all its tags whose live
    /// name is `name`. `NotFound` when `parent_virtual` is no virtual
    /// directory or no candidate has that name, `InvalidArgument` when
    /// several do, `Io` when the store fails.
    pub fn resolve_real_file_in_tag_dir(&self, fm: &FileManager, tags: &TagRegistry, parent_virtual: u64, name: &str) -> (r: Result<
        u64,
        FsError,
    >)
        requires
            self.wf(),
        ensures
            r is Err ==> r == Err::<u64, FsError>(FsError::NotFound) || r == Err::<u64, FsError>(FsError::InvalidArgument)
                || r == Err::<u64, FsError>(FsError::Io),
            match crate::tagfs::dir_tags_at(tags@, parent_virtual) {
                None => r == Err::<u64, FsError>(FsError::NotFound),
                Some(dt) => r == Err::<u64, FsError>(FsError::Io) || tag_dir_match(fm@, self, dt, name@, r),
            },
    {
        let dir_tags = match tags.get_virtual_dir_tags(parent_virtual) {
            Some(t) => t,
            None => return Err(FsError::NotFound),
        };
        let candidates = match fm.get_files_by_tags(dir_tags.as_slice()) {
            Ok(c) => c,
            Err(_) => return Err(FsError::Io),
        };
        let mut names: Vec<Option<String>> = Vec::new();
        let mut i: usize = 0;
        while i < candidates.len()
            invariant
                self.wf(),
                i <= candidates@.len(),
                names@.len() == i,
                name_views(names@) == tree_live_names(self, candidates@.take(i as int)),
            decreases candidates@.len() - i,
        {
            let n = self.lookup_live_inode_name(candidates[i]);
            let ghost before = names@;
            names.push(n);
            proof {
                let c1 = candidates@.take(i + 1);
                assert(c1 =~= candidates@.take(i as int).push(candidates@[i as int]));
                assert forall|k: int| 0 <= k < i + 1 implies #[trigger] name_views(names@)[k] == tree_live_names(self, c1)[k] by {
                    if k < i {
                        assert(names@[k] == before[k]);
                        assert(c1[k] == candidates@.take(i as int)[k]);
                        assert(name_views(before)[k] == tree_live_names(self, candidates@.take(i as int))[k]);
                    } else {
                        assert(names@[k] == n);
                        assert(c1[k] == candidates@[i as int]);
                        assert(name_views(names@)[k] == match n {
                            Some(x) => Some(x@),
                            None => None::<Seq<char>>,
                        });
                    }
                }
                assert(name_views(names@) =~= tree_live_names(self, c1));
            }
            i = i + 1;
        }
        assert(candidates@.take(candidates@.len() as int) =~= candidates@);
        let r = unique_named_match(candidates.as_slice(), names.as_slice(), name);
        proof {
            let dt = dir_tags.deep_view();
            assert(crate::tagfs::dir_tags_at(tags@, parent_virtual) == Some(dt));
            assert(crate::tagfs::sorted_ids_all(fm@, dt, candidates@));
            assert(r == match_answer(named_matches(candidates@, tree_live_names(self, candidates@), name@)));
            assert(tag_dir_match(fm@, self, dt, name@, r));
        }
        r
    }
}


/// The live names of `ids`, in order (`None` for one that is not live).
pub open spec fn tree_live_names(t: &InodeTree, ids: Seq<u64>) -> Seq<Option<Seq<char>>> {
    ids.map_values(
        |id: u64|
            match live_pos(t, id) {
                Some(h) => Some(t.nodes()[h].name),
                None => None::<Seq<char>>,
            },
    )
}

/// What a tag directory answers for a name, given the candidates that
/// bear it: `NotFound` for none, the one, or `InvalidArgument` for several.
pub open spec fn match_answer(found: Seq<u64>) -> Result<u64, FsError> {
    if found.len() == 0 {
        Err(FsError::NotFound)
    } else if found.len() == 1 {
        Ok(found[0])
    } else {
        Err(FsError::InvalidArgument)
    }
}

/// `r` is what a tag directory of tags `dt` answers for `name`: among the
/// inodes that bear every tag (ascending, as the store lists them), the
/// one whose live name is `name` (see `match_answer`).
pub open spec fn tag_dir_match(m: Map<Seq<u8>, Seq<u8>>, t: &InodeTree, dt: Seq<Seq<char>>, name: Seq<char>, r: Result<u64, FsError>) -> bool {
    exists|ids: Seq<u64>|
        #[trigger] crate::tagfs::sorted_ids_all(m, dt, ids) && r == match_answer(named_matches(ids, tree_live_names(t, ids), name))
}

/// The last snapshot taken is `name`, taken at `timestamp`, and the store
/// holds its record: that name, that time and the inode of its root.
pub open spec fn snapshot_stored_as(m: Map<Seq<u8>, Seq<u8>>, t: &InodeTree, name: Seq<char>, timestamp: u64) -> bool {
    &&& t.snapshots().len() > 0
    &&& t.snapshots().last().0 == name
    &&& t.snapshots().last().1 == timestamp
    &&& m.contains_key(key_bytes(spec_snapshot_key(name)))
    &&& m[key_bytes(spec_snapshot_key(name))] == bincode_snapshot(name, timestamp, t.nodes()[t.snapshots().last().2].id)
}

/// The root of the last snapshot taken has a child of each name that the
/// stored live root (in `m`) has an entry of, and no other.
pub open spec fn last_snapshot_mirrors_root(m: Map<Seq<u8>, Seq<u8>>, t: &InodeTree) -> bool {
    &&& t.snapshots().len() > 0
    &&& forall|nm: Seq<char>|
        #![trigger child_of(t.nodes()[t.snapshots().last().2].children, nm)]
        #![trigger dirent_child(m, FUSE_ROOT_ID, nm)]
        (child_of(t.nodes()[t.snapshots().last().2].children, nm) is Some <==> dirent_child(m, FUSE_ROOT_ID, nm) != Some(
            None::<u64>,
        ))
}

/// Snapshot `name` exists.
pub open spec fn has_snapshot_named(t: &InodeTree, name: Seq<char>) -> bool {
    exists|i: int| 0 <= i < t.snapshots().len() && #[trigger] t.snapshots()[i].0 == name
}

/// A message naming an inode: `prefix` then the decimal number.
fn inode_message(prefix: &str, id: u64) -> (m: String)
    ensures
        m@ == prefix@ + crate::text::decimal(id as nat),
{
    let mut m = string_of(prefix);
    push_decimal(&mut m, id);
    m
}

/// A message naming a snapshot: `Snapshot '`, the name, then `suffix`.
fn snapshot_message(name: &str, suffix: &str) -> (m: String)
    ensures
        m@ == "Snapshot '"@ + name@ + suffix@,
{
    let mut m = string_of("Snapshot '");
    m.append(name);
    m.append(suffix);
    m
}

/// The text of a snapshot message: `Snapshot '`, the name, then `suffix`.
pub open spec fn snapshot_message_view(name: Seq<char>, suffix: Seq<char>) -> Seq<char> {
    "Snapshot '"@ + name + suffix
}

/// A snapshot that could not be rebuilt at start: its name, root inode,
/// why, and whether dropping its record failed (and why).
pub struct SnapshotRestoreFailure {
    pub name: String,
    pub root_id: u64,
    pub error: String,
    pub prune_error: Option<String>,
}

impl InodeTree {
    /// Makes snapshot `name` the one with root `root`, taken at
    /// `timestamp`, in place of any snapshot of that name.
    #[verifier::spinoff_prover]
    fn put_snapshot(&mut self, name: String, timestamp: u64, root: usize)
        requires
            old(self).wf(),
            root < old(self).nodes@.len(),
        ensures
            final(self).frozen() == old(self).frozen(),
            final(self).wf(),
            final(self).nodes@.len() == old(self).nodes@.len(),
            final(self).nodes() == old(self).nodes(),
            final(self).registry() == old(self).registry(),
            final(self).root() == old(self).root(),
            final(self).next_inode() == old(self).next_inode(),
            has_snapshot_named(final(self), name@),
            forall|n: Seq<char>| n != name@ ==> (has_snapshot_named(final(self), n) <==> has_snapshot_named(old(self), n)),
            roots_within(old(self).snapshots(), final(self).snapshots(), root as int),
            final(self).snapshots().len() > 0,
            final(self).snapshots().last() == (name@, timestamp, root as int),
    {
        let ghost before = *self;
        self.take_snapshot_out(name.as_str());
        let ghost mid = *self;
        proof {
            assert forall|k: int| 0 <= k < self.snapshots@.len() implies #[trigger] self.snapshots@[k].name@ != name@ by {
                if self.snapshots@[k].name@ == name@ {
                    assert(self.snapshots()[k].0 == name@);
                    assert(has_snapshot_named(self, name@));
                }
            }
        }
        self.hold(root);
        let ghost mid2 = *self;
        let entry = Snapshot { name, timestamp, root };
        self.snapshots.push(entry);
        proof {
            let k = self.snapshots@.len() - 1;
            assert(self.snapshots()[k].0 == name@);
            assert forall|a: int, b: int|
                0 <= a < self.snapshots@.len() && 0 <= b < self.snapshots@.len() && a != b implies #[trigger] self.snapshots@[a].name@
                    != #[trigger] self.snapshots@[b].name@ by {
                if a < k && b < k {
                    assert(self.snapshots@[a] == mid2.snapshots@[a] && self.snapshots@[b] == mid2.snapshots@[b]);
                } else if a < k {
                    assert(self.snapshots@[a] == mid2.snapshots@[a]);
                } else {
                    assert(self.snapshots@[b] == mid2.snapshots@[b]);
                }
            }
            assert forall|i: int| 0 <= i < self.snapshots@.len() implies #[trigger] self.snapshots@[i].root < self.nodes@.len() by {
                if i < k {
                    assert(self.snapshots@[i] == mid2.snapshots@[i]);
                }
            }
            assert forall|n: Seq<char>| n != name@ implies (has_snapshot_named(self, n) <==> has_snapshot_named(&mid2, n)) by {
                if has_snapshot_named(&mid2, n) {
                    let j = choose|j: int| 0 <= j < mid2.snapshots().len() && #[trigger] mid2.snapshots()[j].0 == n;
                    assert(self.snapshots()[j] == mid2.snapshots()[j]);
                }
                if has_snapshot_named(self, n) {
                    let j = choose|j: int| 0 <= j < self.snapshots().len() && #[trigger] self.snapshots()[j].0 == n;
                    assert(j != k);
                    assert(self.snapshots()[j] == mid2.snapshots()[j]);
                }
            }
            assert(self.nodes() =~= mid2.nodes());
            assert(self.registry() =~= mid2.registry());
            assert forall|n: Seq<char>| n != name@ implies (has_snapshot_named(self, n) <==> has_snapshot_named(old(self), n)) by {
                assert(mid2.snapshots() == mid.snapshots());
                assert(has_snapshot_named(&mid2, n) <==> has_snapshot_named(&mid, n));
                assert(has_snapshot_named(&mid, n) <==> has_snapshot_named(&before, n));
            }
            assert forall|i: int| 0 <= i < self.snapshots().len() implies (#[trigger] self.snapshots()[i]).2 == root as int
                || exists|k: int| 0 <= k < before.snapshots().len() && before.snapshots()[k].2 == self.snapshots()[i].2 by {
                if i < k {
                    assert(self.snapshots()[i] == mid2.snapshots()[i]);
                    assert(mid2.snapshots() == mid.snapshots());
                    assert(mid.snapshots()[i].2 == -1 || exists|k2: int| 0 <= k2 < before.snapshots().len() && before.snapshots()[k2].2 == mid.snapshots()[i].2);
                }
            }
        }
    }

    /// Drops snapshot `name` from the tree; whether there was one.
    fn take_snapshot_out(&mut self, name: &str) -> (removed: bool)
        requires
            old(self).wf(),
        ensures
            final(self).frozen() == old(self).frozen(),
            final(self).wf(),
            final(self).nodes@.len() == old(self).nodes@.len(),
            final(self).nodes() == old(self).nodes(),
            final(self).registry() == old(self).registry(),
            final(self).root() == old(self).root(),
            final(self).next_inode() == old(self).next_inode(),
            removed == has_snapshot_named(old(self), name@),
            !has_snapshot_named(final(self), name@),
            forall|n: Seq<char>| n != name@ ==> (has_snapshot_named(final(self), n) <==> has_snapshot_named(old(self), n)),
            roots_within(old(self).snapshots(), final(self).snapshots(), -1),
    {
        match self.snapshot_index(name) {
            Some(i) => {
                let ghost before = *self;
                let old_entry = self.snapshots.remove(i);
                proof {
                    assert forall|a: int, b: int|
                        0 <= a < self.snapshots@.len() && 0 <= b < self.snapshots@.len() && a != b implies #[trigger] self.snapshots@[a].name@
                            != #[trigger] self.snapshots@[b].name@ by {
                        let a0 = if a < i { a } else { a + 1 };
                        let b0 = if b < i { b } else { b + 1 };
                        assert(self.snapshots@[a] == before.snapshots@[a0]);
                        assert(self.snapshots@[b] == before.snapshots@[b0]);
                    }
                    assert forall|k: int| 0 <= k < self.snapshots@.len() implies #[trigger] self.snapshots@[k].root < self.nodes@.len() by {
                        let k0 = if k < i { k } else { k + 1 };
                        assert(self.snapshots@[k] == before.snapshots@[k0]);
                    }
                    assert(!has_snapshot_named(self, name@)) by {
                        if has_snapshot_named(self, name@) {
                            let k = choose|k: int| 0 <= k < self.snapshots().len() && #[trigger] self.snapshots()[k].0 == name@;
                            let k0 = if k < i { k } else { k + 1 };
                            assert(self.snapshots()[k] == before.snapshots()[k0]);
                            assert(before.snapshots()[i as int].0 == name@);
                        }
                    }
                    assert(has_snapshot_named(&before, name@)) by {
                        assert(before.snapshots()[i as int].0 == name@);
                    }
                    assert forall|n: Seq<char>| n != name@ implies (has_snapshot_named(self, n) <==> has_snapshot_named(&before, n)) by {
                        if has_snapshot_named(&before, n) {
                            let k = choose|k: int| 0 <= k < before.snapshots().len() && #[trigger] before.snapshots()[k].0 == n;
                            assert(k != i);
                            let k1 = if k < i { k } else { k - 1 };
                            assert(self.snapshots()[k1] == before.snapshots()[k]);
                        }
                        if has_snapshot_named(self, n) {
                            let k = choose|k: int| 0 <= k < self.snapshots().len() && #[trigger] self.snapshots()[k].0 == n;
                            let k0 = if k < i { k } else { k + 1 };
                            assert(self.snapshots()[k] == before.snapshots()[k0]);
                        }
                    }
                    assert(self.nodes() =~= before.nodes());
                    assert(self.registry() =~= before.registry());
                    assert forall|k: int| 0 <= k < self.snapshots().len() implies (#[trigger] self.snapshots()[k]).2 == -1
                        || exists|k2: int| 0 <= k2 < before.snapshots().len() && before.snapshots()[k2].2 == self.snapshots()[k].2 by {
                        let k0 = if k < i { k } else { k + 1 };
                        assert(self.snapshots()[k] == before.snapshots()[k0]);
                    }
                }
                self.release(old_entry.root);
                true
            },
            None => {
                assert forall|k: int| 0 <= k < self.snapshots().len() implies (#[trigger] self.snapshots()[k]).2 == -1
                    || exists|k2: int| 0 <= k2 < old(self).snapshots().len() && old(self).snapshots()[k2].2 == self.snapshots()[k].2 by {
                    assert(old(self).snapshots()[k] == self.snapshots()[k]);
                }
                false
            },
        }
    }

    /// Removes snapshot `name` and its stored record: `None` when there is
    /// no such snapshot, else what removing the record gave.
    pub fn remove_snapshot(&mut self, fm: &mut FileManager, name: &str) -> (r: Option<Result<(), String>>)
        requires
            old(self).wf(),
        ensures
            final(self).wf(),
            final(self).nodes() == old(self).nodes(),
            final(self).registry() == old(self).registry(),
            final(self).root() == old(self).root(),
            r is Some == has_snapshot_named(old(self), name@),
            !has_snapshot_named(final(self), name@),
            r is None ==> final(fm)@ == old(fm)@,
            r matches Some(Ok(())) ==> final(fm)@ == old(fm)@.remove(crate::file_manager::key_bytes(crate::file_manager::spec_snapshot_key(name@))),
            old(self).sealed() ==> final(self).sealed() && frozen_kept(old(self), final(self)),
    {
        let removed = self.take_snapshot_out(name);
        proof {
            if old(self).sealed() {
                lemma_seal_snapshots_only(old(self), self);
            }
        }
        if removed {
            Some(fm.delete_snapshot(name))
        } else {
            None
        }
    }
}


/// The nodes of `before` are kept, unchanged, at the start of `after`.
pub open spec fn keeps_nodes(before: Seq<NodeView>, after: Seq<NodeView>) -> bool {
    before.len() <= after.len() && forall|k: int| 0 <= k < before.len() ==> #[trigger] after[k] == before[k]
}

/// Keeping nodes is transitive.
proof fn lemma_keeps_trans(a: Seq<NodeView>, b: Seq<NodeView>, c: Seq<NodeView>)
    requires
        keeps_nodes(a, b),
        keeps_nodes(b, c),
    ensures
        keeps_nodes(a, c),
{
    assert forall|k: int| 0 <= k < a.len() implies #[trigger] c[k] == a[k] by {
        assert(c[k] == b[k]);
    }
}

impl InodeTree {
    /// Rebuilds the snapshot subtree rooted at stored inode `inode_id` as
    /// new nodes (not registered), from the stored inode records and
    /// directory entries. Fails when an inode comes round again (a cycle),
    /// when an inode record is missing, or when the store cannot be read.
    fn restore_snapshot_subtree(&mut self, fm: &FileManager, inode_id: u64, visited: &mut HashSet<u64>, now: u64, fuel: u64) -> (r: Result<
        usize,
        String,
    >)
        requires
            old(self).wf(),
        ensures
            final(self).frozen() == old(self).frozen(),
            final(self).wf(),
            keeps_nodes(old(self).nodes(), final(self).nodes()),
            final(self).registry() == old(self).registry(),
            final(self).root() == old(self).root(),
            final(self).snapshots() == old(self).snapshots(),
            final(self).next_inode() == old(self).next_inode(),
            r matches Ok(h) ==> h < final(self).nodes().len() && inode_record(fm@, inode_id) == Some(
                Some(stored_form(final(self).nodes()[h as int])),
            ),
            old(visited)@.contains(inode_id) ==> r is Err,
            block_closed(final(self).nodes(), old(self).nodes().len() as int),
            r matches Ok(h) ==> h == old(self).nodes().len(),
        decreases fuel,
    {
        if fuel == 0 || !visited.insert(inode_id) {
            return Err(inode_message("Cycle detected while restoring inode ", inode_id));
        }
        let meta = match fm.load_inode(inode_id) {
            Ok(Some(m)) => m,
            Ok(None) => return Err(inode_message("Missing inode metadata for ", inode_id)),
            Err(e) => return Err(e),
        };
        let attr = Self::make_attr(meta.id, meta.is_dir, meta.attr.size, now);
        let h = self.add_node(meta.id, meta.parent_id, meta.name, attr);
        let ghost base = old(self).nodes();
        assert(keeps_nodes(base, self.nodes()));
        assert(block_closed(self.nodes(), base.len() as int));
        let children = match fm.list_dirents(inode_id) {
            Ok(c) => c,
            Err(e) => return Err(e),
        };
        let mut i: usize = 0;
        while i < children.len()
            invariant
                self.frozen() == old(self).frozen(),
                self.wf(),
                h < self.nodes@.len(),
                h == base.len(),
                base == old(self).nodes(),
                keeps_nodes(base, self.nodes()),
                stored_form(self.nodes()[h as int]) == inode_tuple(meta),
                block_closed(self.nodes(), base.len() as int),
                self.registry() == old(self).registry(),
                self.root() == old(self).root(),
                self.snapshots() == old(self).snapshots(),
                self.next_inode() == old(self).next_inode(),
                i <= children@.len(),
                fuel > 0,
            decreases children@.len() - i,
        {
            let ghost mid = self.nodes();
            let step = self.restore_snapshot_subtree(fm, children[i].child_inode_id, visited, now, fuel - 1);
            proof {
                lemma_keeps_trans(base, mid, self.nodes());
                lemma_block_closed_grow(base.len() as int, mid, self.nodes());
            }
            let c = match step {
                Ok(c) => c,
                Err(e) => return Err(e),
            };
            let ghost mid2 = self.nodes();
            self.set_child(h, children[i].name.clone(), c);
            proof {
                assert forall|k: int| 0 <= k < base.len() implies #[trigger] self.nodes()[k] == base[k] by {
                    assert(mid2[k] == mid[k]);
                }
                lemma_block_closed_set_child(base.len() as int, mid2, self.nodes(), h as int, children@[i as int].name@, c as int);
            }
            i = i + 1;
        }
        Ok(h)
    }
}


/// Inode `id` has a record, of a regular file.
pub open spec fn stored_file(m: Map<Seq<u8>, Seq<u8>>, id: u64) -> bool {
    inode_record(m, id) matches Some(Some(rec)) && !rec.3
}

/// Key `k` is one of the records of inode `id`: its inode record, its
/// recipe, or one of its directory entries.
pub open spec fn record_key_of(k: Seq<u8>, id: u64) -> bool {
    ||| k == key_bytes(spec_inode_key(id))
    ||| k == key_bytes(spec_recipe_key(id))
    ||| exists|n: Seq<char>| k == key_bytes(#[trigger] spec_dirent_key(id, n))
}

/// From `m0` to `m1` nothing changed but entry `name` of `parent` and the
/// records of the inodes from `lo` up to `hi`.
pub open spec fn copy_writes(
    m0: Map<Seq<u8>, Seq<u8>>,
    m1: Map<Seq<u8>, Seq<u8>>,
    lo: int,
    hi: int,
    parent: u64,
    name: Seq<char>,
) -> bool {
    forall|k: Seq<u8>|
        k != key_bytes(spec_dirent_key(parent, name)) && !(exists|id: u64| lo <= id < hi && #[trigger] record_key_of(k, id))
            ==> (#[trigger] m1.contains_key(k) == m0.contains_key(k) && (m0.contains_key(k) ==> m1[k] == m0[k]))
}

/// Copy writes that follow one another, the second under an inode of the
/// first's range and within its own range inside the whole, stay within
/// the whole.
proof fn lemma_copy_writes_compose(
    m0: Map<Seq<u8>, Seq<u8>>,
    m1: Map<Seq<u8>, Seq<u8>>,
    m2: Map<Seq<u8>, Seq<u8>>,
    lo: int,
    h1: int,
    a: int,
    b: int,
    hi: int,
    parent: u64,
    name: Seq<char>,
    p2: u64,
    n2: Seq<char>,
)
    requires
        copy_writes(m0, m1, lo, h1, parent, name),
        copy_writes(m1, m2, a, b, p2, n2),
        lo <= a,
        h1 <= hi,
        b <= hi,
        lo <= p2 < hi,
    ensures
        copy_writes(m0, m2, lo, hi, parent, name),
{
    assert forall|k: Seq<u8>|
        k != key_bytes(spec_dirent_key(parent, name)) && !(exists|id: u64| lo <= id < hi && #[trigger] record_key_of(k, id))
            implies (#[trigger] m2.contains_key(k) == m0.contains_key(k) && (m0.contains_key(k) ==> m2[k] == m0[k])) by {
        if k == key_bytes(spec_dirent_key(p2, n2)) {
            assert(record_key_of(k, p2));
        }
        if exists|id: u64| a <= id < b && #[trigger] record_key_of(k, id) {
            let id = choose|id: u64| a <= id < b && #[trigger] record_key_of(k, id);
            assert(lo <= id < hi);
        }
        if exists|id: u64| lo <= id < h1 && #[trigger] record_key_of(k, id) {
            let id = choose|id: u64| lo <= id < h1 && #[trigger] record_key_of(k, id);
            assert(lo <= id < hi);
        }
        assert(m1.contains_key(k) == m0.contains_key(k));
        assert(m2.contains_key(k) == m1.contains_key(k));
        if m0.contains_key(k) {
            assert(m1[k] == m0[k]);
            assert(m2[k] == m1[k]);
        }
    }
}

impl InodeTree {
    /// Copies the stored subtree rooted at inode `source_inode_id` as
    /// entry `node_name` of directory `parent_id`: each node gets a new
    /// inode number, whose inode record, directory entry and (for a
    /// regular file) recipe are stored — a file without a recipe gets an
    /// empty one. The copies are registered as live when `register_live`.
    /// Returns the copy of the root; fails when a record is missing or the
    /// store fails.
    fn clone_subtree_from_metadata(
        &mut self,
        fm: &mut FileManager,
        source_inode_id: u64,
        parent_id: u64,
        node_name: &str,
        register_live: bool,
        now: u64,
        fuel: u64,
    ) -> (r: Result<usize, String>)
        requires
            old(self).wf(),
        ensures
            final(self).frozen() == old(self).frozen(),
            final(self).wf(),
            keeps_nodes(old(self).nodes(), final(self).nodes()),
            final(self).root() == old(self).root(),
            final(self).snapshots() == old(self).snapshots(),
            !register_live ==> final(self).registry() == old(self).registry(),
            r matches Ok(h) ==> h < final(self).nodes().len() && final(self).nodes()[h as int].id == old(self).next_inode()
                && final(self).nodes()[h as int].name == node_name@ && final(self).nodes()[h as int].parent_id
                == parent_id,
            block_closed(final(self).nodes(), old(self).nodes().len() as int),
            registry_grows_new(old(self).registry(), final(self).registry(), old(self).nodes().len() as int),
            r matches Ok(h) ==> h == old(self).nodes().len(),
            r is Ok && old(self).next_inode() + (final(self).nodes().len() - old(self).nodes().len()) <= u64::MAX ==> (
            final(self).next_inode() == old(self).next_inode() + (final(self).nodes().len() - old(self).nodes().len())
                && copy_writes(
                old(fm)@,
                final(fm)@,
                old(self).next_inode() as int,
                final(self).next_inode() as int,
                parent_id,
                node_name@,
            )),
            r is Ok && old(self).next_inode() + (final(self).nodes().len() - old(self).nodes().len()) <= u64::MAX
                && stored_file(old(fm)@, source_inode_id) && recipe_record(
                old(fm)@,
                source_inode_id,
            ) is Some ==> recipe_record(final(fm)@, old(self).next_inode()) == match recipe_record(
                old(fm)@,
                source_inode_id,
            ) {
                Some(Some(x)) => Some(Some(x)),
                _ => Some(Some((0u64, Seq::<Seq<char>>::empty(), 0u32))),
            },
            r is Ok && parent_id != source_inode_id ==> forall|nm: Seq<char>|
                #![trigger child_of(final(self).nodes()[r->Ok_0 as int].children, nm)]
                #![trigger dirent_child(old(fm)@, source_inode_id, nm)]
                (child_of(final(self).nodes()[r->Ok_0 as int].children, nm) is Some <==> dirent_child(
                    old(fm)@,
                    source_inode_id,
                    nm,
                ) != Some(None::<u64>)),
            r is Err ==> store_error_text(r->Err_0@),
        decreases fuel,
    {
        proof {
            reveal_strlit("Missing source inode metadata ");
        }
        if fuel == 0 {
            return Err(inode_message("Missing source inode metadata ", source_inode_id));
        }
        let source_meta = match fm.load_inode(source_inode_id) {
            Ok(Some(m)) => m,
            Ok(None) => return Err(inode_message("Missing source inode metadata ", source_inode_id)),
            Err(e) => return Err(e),
        };
        let new_id = self.generate_id();
        let attr = Self::make_attr(new_id, source_meta.is_dir, source_meta.attr.size, now);
        let meta = InodeMetadata {
            id: new_id,
            parent_id,
            name: String::from_str(node_name),
            is_dir: source_meta.is_dir,
            attr: InodeAttr { size: source_meta.attr.size },
        };
        let ghost m0 = fm@;
        match fm.save_inode(&meta) {
            Ok(()) => {},
            Err(e) => return Err(e),
        }
        let ghost m1 = fm@;
        match fm.save_dirent(parent_id, node_name, new_id) {
            Ok(()) => {},
            Err(e) => return Err(e),
        }
        let ghost m2 = fm@;
        proof {
            assert forall|nm: Seq<char>| parent_id != source_inode_id implies #[trigger] dirent_child(m2, source_inode_id, nm)
                == dirent_child(old(fm)@, source_inode_id, nm) by {
                lemma_inode_dirent_keys_differ(new_id, source_inode_id, nm);
                lemma_dirent_parents_differ(source_inode_id, parent_id, nm, node_name@);
            }
            lemma_inode_recipe_keys_differ(new_id, source_inode_id);
            lemma_recipe_dirent_keys_differ(source_inode_id, parent_id, node_name@);
            let kr = key_bytes(spec_recipe_key(source_inode_id));
            assert(m1.contains_key(kr) == m0.contains_key(kr));
            assert(recipe_record(m2, source_inode_id) == recipe_record(old(fm)@, source_inode_id));
        }
        let ghost rec_expect = match recipe_record(old(fm)@, source_inode_id) {
            Some(Some(x)) => Some(Some(x)),
            _ => Some(Some((0u64, Seq::<Seq<char>>::empty(), 0u32))),
        };
        if !source_meta.is_dir {
            let recipe = match fm.load_recipe(source_inode_id) {
                Ok(Some(rec)) => rec,
                Ok(None) => FileRecipe { file_size: 0, chunks: Vec::new(), kind: FileKind::File },
                Err(e) => return Err(e),
            };
            proof {
                assert(recipe.chunks.deep_view() =~= Seq::<Seq<char>>::empty() || recipe_record(old(fm)@, source_inode_id)
                    == Some(Some(recipe_tuple(recipe))));
                assert(recipe_record(old(fm)@, source_inode_id) is Some ==> recipe_tuple(recipe) == rec_expect->0->0);
            }
            match fm.save_recipe(new_id, &recipe) {
                Ok(()) => {},
                Err(e) => return Err(e),
            }
            proof {
                assert forall|nm: Seq<char>| parent_id != source_inode_id implies #[trigger] dirent_child(fm@, source_inode_id, nm)
                    == dirent_child(old(fm)@, source_inode_id, nm) by {
                    lemma_recipe_dirent_keys_differ(new_id, source_inode_id, nm);
                    assert(dirent_child(m2, source_inode_id, nm) == dirent_child(old(fm)@, source_inode_id, nm));
                }
            }
        }
        let ghost m_list = fm@;
        proof {
            assert forall|k: Seq<u8>|
                k != key_bytes(spec_dirent_key(parent_id, node_name@)) && !(exists|id: u64|
                    new_id <= id < new_id + 1 && #[trigger] record_key_of(k, id)) implies (#[trigger] fm@.contains_key(k)
                == old(fm)@.contains_key(k) && (old(fm)@.contains_key(k) ==> fm@[k] == old(fm)@[k])) by {
                assert(!record_key_of(k, new_id));
                assert(k != key_bytes(spec_inode_key(new_id)));
                assert(k != key_bytes(spec_recipe_key(new_id)));
                assert(m1.contains_key(k) == m0.contains_key(k));
            }
            assert(copy_writes(old(fm)@, fm@, new_id as int, new_id + 1, parent_id, node_name@));
        }
        let h = self.add_node(new_id, parent_id, String::from_str(node_name), attr);
        if register_live {
            self.register(new_id, h);
        }
        let ghost base = old(self).nodes();
        assert(keeps_nodes(base, self.nodes()));
        assert(block_closed(self.nodes(), base.len() as int));
        let children = match fm.list_dirents(source_inode_id) {
            Ok(c) => c,
            Err(e) => return Err(e),
        };
        let ghost child_names = dirent_names(children@);
        proof {
            assert(self.nodes()[h as int].children.len() == 0);
            assert forall|nm: Seq<char>| !(#[trigger] child_of(self.nodes()[h as int].children, nm) is Some) by {}
        }
        let mut i: usize = 0;
        while i < children.len()
            invariant
                self.frozen() == old(self).frozen(),
                self.wf(),
                h < self.nodes@.len(),
                h == base.len(),
                child_names == dirent_names(children@),
                forall|nm: Seq<char>|
                    #[trigger] child_of(self.nodes()[h as int].children, nm) is Some <==> child_names.take(i as int).contains(nm),
                base == old(self).nodes(),
                keeps_nodes(base, self.nodes()),
                self.nodes()[h as int].id == new_id,
                self.nodes()[h as int].name == node_name@,
                self.nodes()[h as int].parent_id == parent_id,
                new_id == old(self).next_inode(),
                self.root() == old(self).root(),
                self.snapshots() == old(self).snapshots(),
                !register_live ==> self.registry() == old(self).registry(),
                block_closed(self.nodes(), base.len() as int),
                registry_grows_new(old(self).registry(), self.registry(), base.len() as int),
                i <= children@.len(),
                fuel > 0,
                self.nodes().len() >= base.len() + 1,
                new_id + (self.nodes().len() - base.len()) <= u64::MAX ==> (self.next_inode() == new_id + (self.nodes().len()
                    - base.len()) && copy_writes(old(fm)@, fm@, new_id as int, self.next_inode() as int, parent_id, node_name@)
                    && (!source_meta.is_dir ==> recipe_record(fm@, new_id) == rec_expect)),
            decreases children@.len() - i,
        {
            let ghost mid = self.nodes();
            let ghost mid_reg = self.registry();
            let ghost mid_next = self.next_inode();
            let ghost fm_mid = fm@;
            let step = self.clone_subtree_from_metadata(
                fm,
                children[i].child_inode_id,
                new_id,
                children[i].name.as_str(),
                register_live,
                now,
                fuel - 1,
            );
            proof {
                lemma_keeps_trans(base, mid, self.nodes());
                lemma_block_closed_grow(base.len() as int, mid, self.nodes());
                assert forall|id: u64| #[trigger] self.registry().contains_key(id) implies (old(self).registry().contains_key(id)
                    && self.registry()[id] == old(self).registry()[id]) || self.registry()[id] >= base.len() by {
                    if !(mid_reg.contains_key(id) && self.registry()[id] == mid_reg[id]) {
                        assert(self.registry()[id] >= mid.len());
                    }
                }
            }
            let c = match step {
                Ok(c) => c,
                Err(e) => return Err(e),
            };
            proof {
                let after_len = self.nodes().len();
                if new_id + (after_len - base.len()) <= u64::MAX {
                    assert(mid.len() <= after_len);
                    assert(mid_next == new_id + (mid.len() - base.len()));
                    assert(mid_next + (after_len - mid.len()) <= u64::MAX);
                    assert(self.next_inode() == new_id + (after_len - base.len()));
                    lemma_copy_writes_compose(
                        old(fm)@,
                        fm_mid,
                        fm@,
                        new_id as int,
                        mid_next as int,
                        mid_next as int,
                        self.next_inode() as int,
                        self.next_inode() as int,
                        parent_id,
                        node_name@,
                        new_id,
                        children@[i as int].name@,
                    );
                    if !source_meta.is_dir {
                        let kr = key_bytes(spec_recipe_key(new_id));
                        lemma_recipe_dirent_keys_differ(new_id, new_id, children@[i as int].name@);
                        assert forall|id: u64| mid_next <= id < self.next_inode() implies !#[trigger] record_key_of(kr, id) by {
                            lemma_inode_recipe_keys_differ(id, new_id);
                            if kr == key_bytes(spec_recipe_key(id)) {
                                lemma_recipe_key_injective(new_id, id);
                            }
                            assert forall|n: Seq<char>| kr != key_bytes(#[trigger] spec_dirent_key(id, n)) by {
                                lemma_recipe_dirent_keys_differ(new_id, id, n);
                            }
                        }
                        assert(fm@.contains_key(kr) == fm_mid.contains_key(kr));
                        assert(recipe_record(fm@, new_id) == recipe_record(fm_mid, new_id));
                    }
                }
            }
            let ghost mid2 = self.nodes();
            let ghost t4 = *self;
            self.set_child(h, children[i].name.clone(), c);
            proof {
                assert forall|k: int| 0 <= k < base.len() implies #[trigger] self.nodes()[k] == base[k] by {
                    assert(mid2[k] == base[k]);
                }
                lemma_block_closed_set_child(base.len() as int, mid2, self.nodes(), h as int, children@[i as int].name@, c as int);
                lemma_wf_facts(&t4);
                assert(mid2[h as int] == mid[h as int]);
                assert forall|nm: Seq<char>|
                    #[trigger] child_of(self.nodes()[h as int].children, nm) is Some <==> child_names.take(i + 1).contains(nm) by {
                    lemma_set_child_lookup(mid2[h as int].children, children@[i as int].name@, c as int, nm);
                    let before_names = child_names.take(i as int);
                    let after_names = child_names.take(i + 1);
                    assert(after_names =~= before_names.push(child_names[i as int]));
                    assert(child_names[i as int] == children@[i as int].name@);
                    assert(child_of(mid[h as int].children, nm) is Some <==> before_names.contains(nm));
                    if nm == children@[i as int].name@ {
                        assert(after_names[i as int] == nm);
                    } else {
                        if before_names.contains(nm) {
                            let j = choose|j: int| 0 <= j < before_names.len() && before_names[j] == nm;
                            assert(after_names[j] == nm);
                        }
                        if after_names.contains(nm) {
                            let j = choose|j: int| 0 <= j < after_names.len() && after_names[j] == nm;
                            assert(j != i);
                            assert(before_names[j] == nm);
                        }
                    }
                }
            }
            i = i + 1;
        }
        proof {
            assert(child_names.take(i as int) =~= child_names);
            if parent_id != source_inode_id {
                assert forall|nm: Seq<char>|
                    #[trigger] child_of(self.nodes()[h as int].children, nm) is Some <==> dirent_child(
                        old(fm)@,
                        source_inode_id,
                        nm,
                    ) != Some(None::<u64>) by {
                    assert(dirent_child(m_list, source_inode_id, nm) == dirent_child(old(fm)@, source_inode_id, nm));
                    if child_names.contains(nm) {
                        let a = choose|a: int| 0 <= a < child_names.len() && child_names[a] == nm;
                        assert(children@[a].name@ == nm);
                    }
                }
            }
        }
        Ok(h)
    }

    /// Fills live directory `parent_h` (inode `parent_id`) from the store:
    /// for each stored directory entry whose inode record exists, a node
    /// built from the record is registered and made the entry's child, and
    /// the inode counter moves past its inode; directories are filled in
    /// turn. Entries and records that cannot be read are passed over; the
    /// result tells whether every listing and record read succeeded.
    fn hydrate_live_children(&mut self, fm: &FileManager, parent_h: usize, parent_id: u64, now: u64, fuel: u64) -> (complete: bool)
        requires
            old(self).wf(),
            parent_h < old(self).nodes@.len(),
            old(self).nodes()[parent_h as int].id == parent_id,
        ensures
            final(self).frozen() == old(self).frozen(),
            final(self).wf(),
            final(self).nodes().len() >= old(self).nodes().len(),
            final(self).nodes@.len() >= old(self).nodes@.len(),
            final(self).root() == old(self).root(),
            final(self).snapshots() == old(self).snapshots(),
            forall|k: int| 0 <= k < old(self).nodes().len() ==> #[trigger] final(self).nodes()[k].id == old(self).nodes()[k].id,
            forall|k: int|
                0 <= k < old(self).nodes().len() ==> stored_form(#[trigger] final(self).nodes()[k]) == stored_form(
                    old(self).nodes()[k],
                ),
            forall|k: int|
                old(self).nodes().len() <= k < final(self).nodes().len() ==> mirrors_record(
                    fm@,
                    #[trigger] final(self).nodes()[k],
                ),
            forall|k: int|
                0 <= k < old(self).nodes().len() && k != parent_h ==> #[trigger] final(self).nodes()[k] == old(self).nodes()[k],
            block_closed(final(self).nodes(), old(self).nodes().len() as int),
            old(self).nodes()[parent_h as int].children.len() == 0 ==> forall|j: int|
                0 <= j < final(self).nodes()[parent_h as int].children.len() ==> old(self).nodes().len()
                    <= #[trigger] final(self).nodes()[parent_h as int].children[j].1,
            children_from_store(fm@, old(self).nodes(), parent_h as int) ==> children_from_store(
                fm@,
                final(self).nodes(),
                parent_h as int,
            ),
            forall|q: int|
                old(self).nodes().len() <= q < final(self).nodes().len() ==> #[trigger] children_from_store(
                    fm@,
                    final(self).nodes(),
                    q,
                ),
            complete ==> store_entries_present(fm@, final(self).nodes(), parent_h as int),
            complete ==> forall|q: int|
                old(self).nodes().len() <= q < final(self).nodes().len() && final(self).nodes()[q].attr.kind
                    == NodeKind::Directory ==> #[trigger] store_entries_present(fm@, final(self).nodes(), q),
        decreases fuel,
    {
        if fuel == 0 {
            return false;
        }
        let dirents = match fm.list_dirents(parent_id) {
            Ok(entries) => entries,
            Err(_) => return false,
        };
        let ghost m = fm@;
        let ghost base = self.nodes();
        let ghost n0 = base.len() as int;
        let mut complete = true;
        let mut i: usize = 0;
        while i < dirents.len()
            invariant
                self.frozen() == old(self).frozen(),
                self.wf(),
                m == fm@,
                base == old(self).nodes(),
                n0 == base.len(),
                parent_h < self.nodes@.len(),
                self.nodes@.len() >= old(self).nodes@.len(),
                self.nodes().len() == self.nodes@.len(),
                old(self).nodes().len() == old(self).nodes@.len(),
                self.root() == old(self).root(),
                self.snapshots() == old(self).snapshots(),
                i <= dirents@.len(),
                fuel > 0,
                (parent_h as int) < n0,
                base[parent_h as int].id == parent_id,
                forall|a: int|
                    0 <= a < dirents@.len() ==> dirent_child(m, parent_id, (#[trigger] dirents@[a]).name@) == Some(
                        Some(dirents@[a].child_inode_id),
                    ),
                forall|name: Seq<char>|
                    #![trigger dirent_child(m, parent_id, name)]
                    dirent_child(m, parent_id, name) != Some(None::<u64>) ==> dirent_names(dirents@).contains(name),
                forall|a: int, b: int|
                    0 <= a < b < dirents@.len() ==> (#[trigger] dirents@[a]).name@ != (#[trigger] dirents@[b]).name@,
                forall|k: int| 0 <= k < old(self).nodes().len() ==> #[trigger] self.nodes()[k].id == old(self).nodes()[k].id,
                forall|k: int|
                    0 <= k < old(self).nodes().len() ==> stored_form(#[trigger] self.nodes()[k]) == stored_form(
                        old(self).nodes()[k],
                    ),
                forall|k: int|
                    old(self).nodes().len() <= k < self.nodes().len() ==> mirrors_record(fm@, #[trigger] self.nodes()[k]),
                forall|k: int| 0 <= k < n0 && k != parent_h ==> #[trigger] self.nodes()[k] == base[k],
                block_closed(self.nodes(), n0),
                base[parent_h as int].children.len() == 0 ==> forall|j: int|
                    0 <= j < self.nodes()[parent_h as int].children.len() ==> n0
                        <= #[trigger] self.nodes()[parent_h as int].children[j].1,
                children_from_store(m, base, parent_h as int) ==> children_from_store(m, self.nodes(), parent_h as int),
                forall|q: int| n0 <= q < self.nodes().len() ==> #[trigger] children_from_store(m, self.nodes(), q),
                complete ==> forall|q: int|
                    n0 <= q < self.nodes().len() && self.nodes()[q].attr.kind == NodeKind::Directory
                        ==> #[trigger] store_entries_present(m, self.nodes(), q),
                complete ==> forall|a: int, rec: (u64, u64, Seq<char>, bool, u64)|
                    0 <= a < i && #[trigger] entry_leads_to(m, parent_id, dirents@[a].name@, rec) ==> holds_entry(
                        self.nodes(),
                        parent_h as int,
                        dirents@[a].name@,
                        rec,
                    ),
            decreases dirents@.len() - i,
        {
            let meta = match fm.load_inode(dirents[i].child_inode_id) {
                Ok(Some(x)) => x,
                Ok(None) => {
                    proof {
                      if complete {
                        let nm = dirents@[i as int].name@;
                        assert forall|a: int, rec: (u64, u64, Seq<char>, bool, u64)|
                            0 <= a < i + 1 && #[trigger] entry_leads_to(m, parent_id, dirents@[a].name@, rec) implies holds_entry(
                                self.nodes(),
                                parent_h as int,
                                dirents@[a].name@,
                                rec,
                            ) by {
                            if a == i {
                                let t = choose|t: u64|
                                    dirent_child(m, parent_id, nm) == Some(Some(t)) && #[trigger] inode_record(m, t) == Some(Some(rec));
                                assert(dirent_child(m, parent_id, dirents@[a].name@) == Some(Some(dirents@[a].child_inode_id)));
                                assert(false);
                            }
                        }
                      }
                    }
                    i = i + 1;
                    continue;
                },
                Err(_) => {
                    complete = false;
                    i = i + 1;
                    continue;
                },
            };
            let attr = Self::make_attr(meta.id, meta.is_dir, meta.attr.size, now);
            let id = meta.id;
            let is_dir = meta.is_dir;
            let ghost s0 = self.nodes();
            let ghost t0 = *self;
            proof {
                lemma_wf_facts(&t0);
            }
            let h = self.add_node(id, meta.parent_id, meta.name, attr);
            self.register(id, h);
            let ghost s1 = self.nodes();
            let ghost t1 = *self;
            proof {
                assert(s1[h as int].id == meta.id);
                assert(stored_form(s1[h as int]) == inode_tuple(meta));
                assert(mirrors_record(fm@, s1[h as int]));
                lemma_wf_facts(&t1);
                assert(dirent_child(m, parent_id, dirents@[i as int].name@) == Some(Some(dirents@[i as int].child_inode_id)));
                assert(s0[parent_h as int].id == old(self).nodes()[parent_h as int].id);
                assert(s1[parent_h as int].id == parent_id);
                assert(inode_record(m, dirents@[i as int].child_inode_id) == Some(Some(stored_form(s1[h as int]))));
                assert(entry_leads_to(m, s1[parent_h as int].id, dirents@[i as int].name@, stored_form(s1[h as int])));
                assert forall|q: int| n0 <= q < s1.len() implies #[trigger] children_from_store(m, s1, q) by {
                    if q < s0.len() {
                        lemma_store_links_kept(m, s0, s1, q);
                    }
                }
                assert forall|q: int| n0 <= q < s0.len() && s1[q].attr.kind == NodeKind::Directory && store_entries_present(m, s0, q)
                    implies #[trigger] store_entries_present(m, s1, q) by {
                    lemma_store_links_kept(m, s0, s1, q);
                }
                assert(children_from_store(m, s0, parent_h as int) ==> children_from_store(m, s1, parent_h as int)) by {
                    lemma_store_links_kept(m, s0, s1, parent_h as int);
                }
                assert forall|nm: Seq<char>, rec: (u64, u64, Seq<char>, bool, u64)|
                    #[trigger] holds_entry(s0, parent_h as int, nm, rec) implies holds_entry(s1, parent_h as int, nm, rec) by {
                    lemma_store_links_kept(m, s0, s1, parent_h as int);
                }
            }
            self.set_child(parent_h, dirents[i].name.clone(), h);
            let ghost s3 = self.nodes();
            proof {
                lemma_store_set_child(m, s1, s3, parent_h as int, dirents@[i as int].name@, h as int);
                assert forall|k: int| 0 <= k < old(self).nodes().len() implies #[trigger] self.nodes()[k].id == old(self).nodes()[k].id by {
                    assert(s1[k] == s0[k]);
                }
                assert forall|k: int| 0 <= k < old(self).nodes().len() implies stored_form(#[trigger] self.nodes()[k]) == stored_form(
                    old(self).nodes()[k],
                ) by {
                    assert(s1[k] == s0[k]);
                }
                assert forall|k: int| old(self).nodes().len() <= k < self.nodes().len() implies mirrors_record(
                    fm@,
                    #[trigger] self.nodes()[k],
                ) by {
                    if k < s0.len() {
                        assert(s1[k] == s0[k]);
                    }
                }
                assert forall|k: int| 0 <= k < n0 && k != parent_h implies #[trigger] self.nodes()[k] == base[k] by {
                    assert(s1[k] == s0[k]);
                }
                lemma_block_closed_grow(n0, s0, s1);
                assert forall|k: int, j: int| n0 <= k < s3.len() && 0 <= j < s3[k].children.len() implies n0
                    <= #[trigger] s3[k].children[j].1 by {
                    assert(s3[k] == s1[k]);
                }
                if base[parent_h as int].children.len() == 0 {
                    lemma_without_child_entries(s1[parent_h as int].children, dirents@[i as int].name@);
                    let w = without_child(s1[parent_h as int].children, dirents@[i as int].name@);
                    assert forall|j: int| 0 <= j < s3[parent_h as int].children.len() implies n0
                        <= #[trigger] s3[parent_h as int].children[j].1 by {
                        if j < w.len() {
                            assert(s1[parent_h as int].children.contains(w[j]));
                            let j2 = choose|j2: int| 0 <= j2 < s1[parent_h as int].children.len() && s1[parent_h as int].children[j2] == w[j];
                            assert(s1[parent_h as int] == s0[parent_h as int]);
                            assert(n0 <= s0[parent_h as int].children[j2].1);
                        }
                    }
                }
                assert forall|q: int| n0 <= q < s3.len() implies #[trigger] children_from_store(m, s3, q) by {
                    lemma_store_links_kept(m, s1, s3, q);
                }
                assert(s3[h as int].attr.kind == NodeKind::Directory <==> is_dir);
                if complete {
                    assert forall|q: int| n0 <= q < s3.len() && s3[q].attr.kind == NodeKind::Directory && q != h
                        implies #[trigger] store_entries_present(m, s3, q) by {
                        assert(store_entries_present(m, s1, q));
                        lemma_store_links_kept(m, s1, s3, q);
                    }
                    let nm_i = dirents@[i as int].name@;
                    assert forall|a: int, rec: (u64, u64, Seq<char>, bool, u64)|
                        0 <= a < i + 1 && #[trigger] entry_leads_to(m, parent_id, dirents@[a].name@, rec) implies holds_entry(
                            s3,
                            parent_h as int,
                            dirents@[a].name@,
                            rec,
                        ) by {
                        if a == i {
                            let t = choose|t: u64|
                                dirent_child(m, parent_id, nm_i) == Some(Some(t)) && #[trigger] inode_record(m, t) == Some(Some(rec));
                            assert(dirent_child(m, parent_id, dirents@[a].name@) == Some(Some(dirents@[a].child_inode_id)));
                            assert(rec == stored_form(s1[h as int]));
                        } else {
                            assert(dirents@[a].name@ != nm_i);
                            assert(holds_entry(s0, parent_h as int, dirents@[a].name@, rec));
                            assert(holds_entry(s1, parent_h as int, dirents@[a].name@, rec));
                        }
                    }
                }
            }
            if id >= self.next_inode {
                self.next_inode = id.wrapping_add(1);
            }
            if is_dir {
                let ghost s2 = self.nodes();
                let ghost t2 = *self;
                proof {
                    lemma_wf_facts(&t2);
                }
                let sub = self.hydrate_live_children(fm, h, id, now, fuel - 1);
                let ghost s4 = self.nodes();
                proof {
                    assert forall|k: int| 0 <= k < old(self).nodes().len() implies #[trigger] self.nodes()[k].id == old(self).nodes()[k].id by {
                        assert(self.nodes()[k].id == s2[k].id);
                    }
                    assert forall|k: int| 0 <= k < old(self).nodes().len() implies stored_form(#[trigger] self.nodes()[k]) == stored_form(
                        old(self).nodes()[k],
                    ) by {
                        assert(stored_form(self.nodes()[k]) == stored_form(s2[k]));
                    }
                    assert forall|k: int| old(self).nodes().len() <= k < self.nodes().len() implies mirrors_record(
                        fm@,
                        #[trigger] self.nodes()[k],
                    ) by {
                        if k < s2.len() {
                            assert(stored_form(self.nodes()[k]) == stored_form(s2[k]));
                            assert(mirrors_record(fm@, s2[k]));
                        }
                    }
                    assert forall|k: int| 0 <= k < n0 && k != parent_h implies #[trigger] self.nodes()[k] == base[k] by {
                        assert(s4[k] == s2[k]);
                    }
                    assert forall|k: int, j: int| n0 <= k < s4.len() && 0 <= j < s4[k].children.len() implies n0
                        <= #[trigger] s4[k].children[j].1 by {
                        if k < s2.len() && k != h {
                            assert(s4[k] == s2[k]);
                        } else if k == h {
                            assert(s2[h as int].children.len() == 0);
                        }
                    }
                    assert(s4[parent_h as int] == s2[parent_h as int]);
                    lemma_store_links_kept(m, s2, s4, parent_h as int);
                    assert forall|q: int| n0 <= q < s4.len() implies #[trigger] children_from_store(m, s4, q) by {
                        if q < s2.len() && q != h {
                            lemma_store_links_kept(m, s2, s4, q);
                        }
                    }
                    if complete && sub {
                        assert forall|q: int| n0 <= q < s4.len() && s4[q].attr.kind == NodeKind::Directory
                            implies #[trigger] store_entries_present(m, s4, q) by {
                            if q < s2.len() && q != h {
                                assert(store_entries_present(m, s2, q));
                                lemma_store_links_kept(m, s2, s4, q);
                            }
                        }
                        assert forall|a: int, rec: (u64, u64, Seq<char>, bool, u64)|
                            0 <= a < i + 1 && #[trigger] entry_leads_to(m, parent_id, dirents@[a].name@, rec) implies holds_entry(
                                s4,
                                parent_h as int,
                                dirents@[a].name@,
                                rec,
                            ) by {
                            assert(holds_entry(s2, parent_h as int, dirents@[a].name@, rec));
                        }
                    }
                }
                complete = complete && sub;
            }
            i = i + 1;
        }
        proof {
            if complete {
                let nodes = self.nodes();
                assert forall|name: Seq<char>, rec: (u64, u64, Seq<char>, bool, u64)|
                    #[trigger] entry_leads_to(m, nodes[parent_h as int].id, name, rec) implies holds_entry(
                        nodes,
                        parent_h as int,
                        name,
                        rec,
                    ) by {
                    let t = choose|t: u64| dirent_child(m, parent_id, name) == Some(Some(t)) && #[trigger] inode_record(m, t) == Some(Some(rec));
                    assert(dirent_names(dirents@).contains(name));
                    let a = choose|a: int| 0 <= a < dirent_names(dirents@).len() && dirent_names(dirents@)[a] == name;
                    assert(dirents@[a].name@ == name);
                    assert(entry_leads_to(m, parent_id, dirents@[a].name@, rec));
                }
            }
        }
        complete
    }
}


impl InodeTree {
    /// Takes snapshot `name` of the stored live tree: it must not exist
    /// yet; the stored tree under the root is copied (see
    /// `clone_subtree_from_metadata`, not registered) as entry `name` of
    /// `.snapshots`, kept as snapshot `name` taken at `timestamp`, and its
    /// record stored. Buffered writes are to be flushed before.
    pub fn create_snapshot_named(&mut self, fm: &mut FileManager, name: &str, timestamp: u64, now: u64) -> (r: Result<(), String>)
        requires
            old(self).wf(),
        ensures
            final(self).wf(),
            keeps_nodes(old(self).nodes(), final(self).nodes()),
            final(self).registry() == old(self).registry(),
            final(self).root() == old(self).root(),
            has_snapshot_named(old(self), name@) ==> r is Err && r->Err_0@ == snapshot_message_view(name@, "' already exists"@)
                && final(self).snapshots() == old(self).snapshots() && final(fm)@ == old(fm)@,
            (r is Err && r->Err_0@ == snapshot_message_view(name@, "' already exists"@)) <==> has_snapshot_named(
                old(self),
                name@,
            ),
            r is Ok ==> has_snapshot_named(final(self), name@),
            r is Ok ==> snapshot_stored_as(final(fm)@, final(self), name@, timestamp),
            r is Ok ==> last_snapshot_mirrors_root(old(fm)@, final(self)),
            forall|n: Seq<char>| n != name@ ==> (has_snapshot_named(final(self), n) <==> has_snapshot_named(old(self), n)),
            old(self).sealed() ==> final(self).sealed() && old(self).frozen().subset_of(final(self).frozen()),
    {
        proof {
            reveal_strlit("Snapshot '");
            assert(snapshot_message_view(name@, "' already exists"@)[0] == 'S');
        }
        if self.has_snapshot(name) {
            return Err(snapshot_message(name, "' already exists"));
        }
        let ghost base = self.nodes();
        let ghost t0 = *self;
        let step = self.clone_subtree_from_metadata(fm, FUSE_ROOT_ID, SNAPSHOT_DIR_ID, name, false, now, u64::MAX);
        proof {
            if t0.sealed() {
                lemma_seal_garbage(&t0, self);
            }
        }
        let frozen_root = match step {
            Ok(h) => h,
            Err(e) => return Err(e),
        };
        let ghost mid = self.nodes();
        let ghost tc = *self;
        assert(tc.snapshots() == t0.snapshots());
        assert(frozen_root < self.nodes@.len());
        let root_id = self.nodes[frozen_root].id;
        self.put_snapshot(String::from_str(name), timestamp, frozen_root);
        proof {
            lemma_keeps_trans(base, mid, self.nodes());
        }
        let ghost tp = *self;
        self.frozen = Ghost(self.frozen@.union(span(base.len() as int, self.nodes@.len() as int)));
        proof {
            assert(self.snapshots() == tp.snapshots());
            assert(self.nodes() == tp.nodes());
            assert forall|n: Seq<char>| n != name@ implies has_snapshot_named(self, n) == has_snapshot_named(&t0, n) by {
                assert(has_snapshot_named(self, n) == has_snapshot_named(&tp, n));
                assert(has_snapshot_named(&tp, n) == has_snapshot_named(&tc, n));
                assert(has_snapshot_named(&tc, n) == has_snapshot_named(&t0, n));
            }
            if t0.sealed() {
                lemma_seal_new_block(&t0, self, frozen_root as int);
            }
        }
        match fm.save_snapshot(name, timestamp, root_id) {
            Ok(()) => {
                assert(self.nodes()[self.snapshots().last().2].id == root_id);
                Ok(())
            },
            Err(e) => Err(e),
        }
    }

    /// Lets go of every registry entry, leaving the registry empty.
    fn clear_registry(&mut self)
        requires
            old(self).wf(),
        ensures
            final(self).frozen() == old(self).frozen(),
            final(self).wf(),
            final(self).nodes@.len() == old(self).nodes@.len(),
            final(self).nodes() == old(self).nodes(),
            final(self).registry() == Map::<u64, int>::empty(),
            final(self).root() == old(self).root(),
            final(self).snapshots() == old(self).snapshots(),
            final(self).next_inode() == old(self).next_inode(),
    {
        let mut keys: Vec<u64> = Vec::new();
        let ghost all = vstd::std_specs::iter::IteratorSpec::remaining(&vstd::std_specs::hash::spec_keys_iter(&self.registry)).unref();
        for k in it: self.registry.keys()
            invariant
                self.frozen() == old(self).frozen(),
                it.seq().unref() == all,
                keys@ == all.take(it.index() as int),
        {
            keys.push(*k);
            assert(keys@ =~= all.take(it.index() + 1));
        }
        let mut registry = HashMap::new();
        std::mem::swap(&mut registry, &mut self.registry);
        proof {
            assert(self.registry() =~= Map::<u64, int>::empty());
            assert(self.nodes() =~= old(self).nodes());
        }
        let mut i: usize = 0;
        while i < keys.len()
            invariant
                self.frozen() == old(self).frozen(),
                self.wf(),
                i <= keys@.len(),
                self.nodes@.len() == old(self).nodes@.len(),
                self.nodes() == old(self).nodes(),
                self.registry() == Map::<u64, int>::empty(),
                self.root() == old(self).root(),
                self.snapshots() == old(self).snapshots(),
                self.next_inode() == old(self).next_inode(),
                forall|id: u64| #[trigger] registry@.contains_key(id) ==> registry@[id] < self.nodes@.len(),
            decreases keys@.len() - i,
        {
            match registry.get(&keys[i]) {
                Some(h) => self.release(*h),
                None => {},
            }
            i = i + 1;
        }
    }
}


/// The inode of the root of snapshot `name` (meaningful when it exists).
pub open spec fn snapshot_root_ino(t: &InodeTree, name: Seq<char>) -> u64 {
    t.nodes()[t.snapshots()[choose|i: int| 0 <= i < t.snapshots().len() && #[trigger] t.snapshots()[i].0 == name].2].id
}

/// The live root is inode 1 and has no name.
pub open spec fn root_is_fresh(t: &InodeTree) -> bool {
    t.nodes()[t.root()].id == FUSE_ROOT_ID && t.nodes()[t.root()].name.len() == 0
}

impl InodeTree {
    /// Empties the live root and makes it inode 1 again: no children,
    /// nameless, no parent, an empty directory.
    fn reset_root(&mut self)
        requires
            old(self).wf(),
        ensures
            final(self).frozen() == old(self).frozen(),
            final(self).wf(),
            final(self).nodes@.len() == old(self).nodes@.len(),
            final(self).root() == old(self).root(),
            final(self).registry() == old(self).registry(),
            final(self).snapshots() == old(self).snapshots(),
            final(self).next_inode() == old(self).next_inode(),
            final(self).nodes()[final(self).root()].id == FUSE_ROOT_ID,
            final(self).nodes()[final(self).root()].parent_id == 0,
            final(self).nodes()[final(self).root()].name.len() == 0,
            final(self).nodes()[final(self).root()].children.len() == 0,
            final(self).nodes()[final(self).root()].attr.kind == NodeKind::Directory,
            final(self).nodes()[final(self).root()].attr.size == 0,
            final(self).nodes()[final(self).root()].attr.ino == FUSE_ROOT_ID,
            forall|k: int| 0 <= k < old(self).nodes().len() && k != old(self).root() ==> #[trigger] final(self).nodes()[k]
                == old(self).nodes()[k],
    {
        let r = self.root;
        while self.nodes[r].children.len() > 0
            invariant
                self.frozen() == old(self).frozen(),
                self.wf(),
                r == self.root,
                self.nodes@.len() == old(self).nodes@.len(),
                self.root() == old(self).root(),
                self.registry() == old(self).registry(),
                self.snapshots() == old(self).snapshots(),
                self.next_inode() == old(self).next_inode(),
                forall|k: int| 0 <= k < old(self).nodes().len() && k != old(self).root() ==> #[trigger] self.nodes()[k]
                    == old(self).nodes()[k],
            decreases self.nodes()[r as int].children.len(),
        {
            let ghost before = *self;
            let entry = self.nodes[r].children.pop().unwrap();
            proof {
                assert(entry.1 < self.nodes@.len()) by {
                    assert(before.nodes@[r as int].children@.last() == entry);
                }
                assert forall|h: int, j: int|
                    0 <= h < self.nodes@.len() && 0 <= j < self.nodes@[h].children@.len() implies #[trigger] self.nodes@[h].children@[j].1
                        < self.nodes@.len() by {
                    if h != r {
                        assert(self.nodes@[h] == before.nodes@[h]);
                    } else {
                        assert(self.nodes@[h].children@[j] == before.nodes@[h].children@[j]);
                    }
                }
                assert forall|h: int| 0 <= h < self.nodes@.len() implies names_unique(
                    #[trigger] children_view(self.nodes@[h].children@),
                ) by {
                    if h != r {
                        assert(self.nodes@[h] == before.nodes@[h]);
                    } else {
                        assert(children_view(self.nodes@[h].children@) =~= children_view(before.nodes@[h].children@).drop_last());
                    }
                }
                assert forall|k: int| 0 <= k < old(self).nodes().len() && k != old(self).root() implies #[trigger] self.nodes()[k]
                    == old(self).nodes()[k] by {
                    assert(self.nodes@[k] == before.nodes@[k]);
                    assert(before.nodes()[k] == old(self).nodes()[k]);
                }
                assert(self.registry() =~= before.registry());
                assert(self.snapshots() =~= before.snapshots());
            }
            self.release(entry.1);
        }
        let ghost before = *self;
        self.nodes[r].id = FUSE_ROOT_ID;
        self.nodes[r].name = String::new();
        self.nodes[r].parent_id = 0;
        self.nodes[r].attr.ino = FUSE_ROOT_ID;
        self.nodes[r].attr.kind = NodeKind::Directory;
        self.nodes[r].attr.size = 0;
        self.nodes[r].attr.blocks = 0;
        proof {
            assert forall|h: int, j: int|
                0 <= h < self.nodes@.len() && 0 <= j < self.nodes@[h].children@.len() implies #[trigger] self.nodes@[h].children@[j].1
                    < self.nodes@.len() by {
                assert(self.nodes@[h].children@ == before.nodes@[h].children@);
            }
            assert forall|h: int| 0 <= h < self.nodes@.len() implies names_unique(
                #[trigger] children_view(self.nodes@[h].children@),
            ) by {
                assert(self.nodes@[h].children@ == before.nodes@[h].children@);
            }
            assert forall|k: int| 0 <= k < old(self).nodes().len() && k != old(self).root() implies #[trigger] self.nodes()[k]
                == old(self).nodes()[k] by {
                assert(self.nodes@[k] == before.nodes@[k]);
                assert(before.nodes()[k] == old(self).nodes()[k]);
            }
            assert(self.registry() =~= before.registry());
            assert(self.snapshots() =~= before.snapshots());
        }
    }

    /// Replaces the live tree with a copy of snapshot `name`: the root's
    /// stored directory entries are removed, the root is emptied, only it
    /// stays registered, its record is stored, and the stored subtree of
    /// each entry of the snapshot's root is copied under it as live (see
    /// `clone_subtree_from_metadata`). The page cache is to be emptied
    /// alongside.
    pub fn restore_live_from_snapshot(&mut self, fm: &mut FileManager, name: &str, now: u64) -> (r: Result<(), String>)
        requires
            old(self).wf(),
        ensures
            final(self).wf(),
            final(self).snapshots() == old(self).snapshots(),
            !has_snapshot_named(old(self), name@) ==> r is Err && r->Err_0@ == snapshot_message_view(name@, "' not found"@)
                && final(fm)@ == old(fm)@ && final(self).nodes() == old(self).nodes() && final(self).registry()
                == old(self).registry() && final(self).root() == old(self).root(),
            r is Ok ==> root_is_fresh(final(self)),
            r is Ok && snapshot_root_ino(old(self), name@) != FUSE_ROOT_ID ==> forall|nm: Seq<char>|
                #![trigger dirent_child(old(fm)@, snapshot_root_ino(old(self), name@), nm)]
                #![trigger child_of(final(self).nodes()[final(self).root()].children, nm)]
                (child_of(final(self).nodes()[final(self).root()].children, nm) is Some <==> dirent_child(
                    old(fm)@,
                    snapshot_root_ino(old(self), name@),
                    nm,
                ) != Some(None::<u64>)),
            (r is Err && r->Err_0@ == snapshot_message_view(name@, "' not found"@)) <==> !has_snapshot_named(
                old(self),
                name@,
            ),
            old(self).sealed() ==> final(self).sealed() && frozen_kept(old(self), final(self)),
    {
        proof {
            reveal_strlit("Snapshot '");
            assert(snapshot_message_view(name@, "' not found"@)[0] == 'S');
        }
        let snapshot_root_id = match self.snapshot_index(name) {
            Some(i) => {
                assert(self.snapshots()[i as int].0 == name@);
                assert(has_snapshot_named(old(self), name@));
                let ghost j = choose|j: int| 0 <= j < self.snapshots().len() && #[trigger] self.snapshots()[j].0 == name@;
                assert(j == i) by {
                    if j != i {
                        assert(self.snapshots@[j].name@ != self.snapshots@[i as int].name@);
                    }
                }
                let h = self.snapshots[i].root;
                assert(self.nodes()[h as int].id == self.nodes@[h as int].id);
                self.nodes[h].id
            },
            None => {
                proof {
                    assert forall|i: int| 0 <= i < self.snapshots().len() implies #[trigger] self.snapshots()[i].0 != name@ by {}
                }
                return Err(snapshot_message(name, "' not found"));
            },
        };
        let old_root_dirents = match fm.list_dirents(FUSE_ROOT_ID) {
            Ok(d) => d,
            Err(e) => return Err(e),
        };
        let mut i: usize = 0;
        while i < old_root_dirents.len()
            invariant
                i <= old_root_dirents@.len(),
                forall|p: u64, n: Seq<char>| p != FUSE_ROOT_ID ==> #[trigger] dirent_child(fm@, p, n) == dirent_child(old(fm)@, p, n),
            decreases old_root_dirents@.len() - i,
        {
            let ghost before = fm@;
            let _ = fm.delete_dirent(FUSE_ROOT_ID, old_root_dirents[i].name.as_str());
            proof {
                assert forall|p: u64, n: Seq<char>| p != FUSE_ROOT_ID implies #[trigger] dirent_child(fm@, p, n) == dirent_child(
                    old(fm)@,
                    p,
                    n,
                ) by {
                    lemma_dirent_parents_differ(p, FUSE_ROOT_ID, n, old_root_dirents@[i as int].name@);
                    let k = key_bytes(spec_dirent_key(p, n));
                    assert(fm@.contains_key(k) == before.contains_key(k));
                    assert(dirent_child(before, p, n) == dirent_child(old(fm)@, p, n));
                }
            }
            i = i + 1;
        }
        let ghost t0 = *self;
        self.reset_root();
        proof {
            if t0.sealed() {
                lemma_seal_nodes(&t0, self, t0.root());
            }
        }
        let ghost t1 = *self;
        self.clear_registry();
        proof {
            if t0.sealed() {
                lemma_seal_registry_only(&t1, self);
                lemma_frozen_kept_trans(&t0, &t1, self);
            }
        }
        let r = self.root;
        let ghost t2 = *self;
        self.register(FUSE_ROOT_ID, r);
        proof {
            if t0.sealed() {
                lemma_seal_register(&t2, self, FUSE_ROOT_ID, r as int);
                lemma_frozen_kept_trans(&t0, &t2, self);
            }
        }
        let meta = Self::map_inode(&self.nodes[r]);
        let ghost before_save = fm@;
        match fm.save_inode(&meta) {
            Ok(()) => {},
            Err(e) => return Err(e),
        }
        proof {
            assert forall|p: u64, n: Seq<char>| p != FUSE_ROOT_ID implies #[trigger] dirent_child(fm@, p, n) == dirent_child(
                old(fm)@,
                p,
                n,
            ) by {
                lemma_inode_dirent_keys_differ(meta.id, p, n);
                let k = key_bytes(spec_dirent_key(p, n));
                assert(fm@.contains_key(k) == before_save.contains_key(k));
                assert(dirent_child(before_save, p, n) == dirent_child(old(fm)@, p, n));
            }
        }
        let ghost m_list = fm@;
        let snap_children = match fm.list_dirents(snapshot_root_id) {
            Ok(c) => c,
            Err(e) => return Err(e),
        };
        let ghost snap_names = dirent_names(snap_children@);
        proof {
            let t_now = *self;
            lemma_wf_facts(&t_now);
            assert(self.nodes()[self.root()].children.len() == 0);
            assert forall|nm: Seq<char>| !(#[trigger] child_of(self.nodes()[self.root()].children, nm) is Some) by {}
        }
        let mut i: usize = 0;
        while i < snap_children.len()
            invariant
                self.wf(),
                r == self.root,
                i <= snap_children@.len(),
                snap_names == dirent_names(snap_children@),
                forall|nm: Seq<char>|
                    #[trigger] child_of(self.nodes()[self.root()].children, nm) is Some <==> snap_names.take(i as int).contains(nm),
                self.snapshots() == old(self).snapshots(),
                self.nodes()[self.root()].id == FUSE_ROOT_ID,
                self.nodes()[self.root()].name.len() == 0,
                has_snapshot_named(old(self), name@),
                snapshot_message_view(name@, "' not found"@)[0] == 'S',
                old(self).sealed() ==> self.sealed() && frozen_kept(old(self), self),
            decreases snap_children@.len() - i,
        {
            let ghost t3 = *self;
            let step = self.clone_subtree_from_metadata(
                fm,
                snap_children[i].child_inode_id,
                FUSE_ROOT_ID,
                snap_children[i].name.as_str(),
                true,
                now,
                u64::MAX,
            );
            proof {
                if old(self).sealed() {
                    lemma_seal_garbage(&t3, self);
                    lemma_frozen_kept_trans(old(self), &t3, self);
                }
            }
            let c = match step {
                Ok(c) => c,
                Err(e) => return Err(e),
            };
            let ghost t4 = *self;
            self.set_child(r, snap_children[i].name.clone(), c);
            proof {
                lemma_wf_facts(&t4);
                assert(t4.nodes()[r as int] == t3.nodes()[r as int]);
                assert forall|nm: Seq<char>|
                    #[trigger] child_of(self.nodes()[self.root()].children, nm) is Some <==> snap_names.take(i + 1).contains(nm) by {
                    lemma_set_child_lookup(t4.nodes()[r as int].children, snap_children@[i as int].name@, c as int, nm);
                    let before_names = snap_names.take(i as int);
                    let after_names = snap_names.take(i + 1);
                    assert(after_names =~= before_names.push(snap_names[i as int]));
                    assert(snap_names[i as int] == snap_children@[i as int].name@);
                    assert(child_of(t3.nodes()[r as int].children, nm) is Some <==> before_names.contains(nm));
                    assert(self.nodes()[self.root()].children == without_child(
                        t4.nodes()[r as int].children,
                        snap_children@[i as int].name@,
                    ).push((snap_children@[i as int].name@, c as int)));
                    if nm == snap_children@[i as int].name@ {
                        assert(after_names[i as int] == nm);
                    } else {
                        if before_names.contains(nm) {
                            let j = choose|j: int| 0 <= j < before_names.len() && before_names[j] == nm;
                            assert(after_names[j] == nm);
                        }
                        if after_names.contains(nm) {
                            let j = choose|j: int| 0 <= j < after_names.len() && after_names[j] == nm;
                            assert(j != i);
                            assert(before_names[j] == nm);
                        }
                    }
                }
                if old(self).sealed() {
                    lemma_live_children(&t4, r as int);
                    lemma_set_child_targets(t4.nodes()[r as int].children, snap_children@[i as int].name@, c as int, t4.frozen());
                    lemma_seal_nodes(&t4, self, r as int);
                    lemma_frozen_kept_trans(old(self), &t4, self);
                }
            }
            i = i + 1;
        }
        proof {
            assert(snap_names.take(i as int) =~= snap_names);
            if snapshot_root_id != FUSE_ROOT_ID {
                assert forall|nm: Seq<char>|
                    #[trigger] child_of(self.nodes()[self.root()].children, nm) is Some <==> dirent_child(
                        old(fm)@,
                        snapshot_root_id,
                        nm,
                    ) != Some(None::<u64>) by {
                    assert(dirent_child(m_list, snapshot_root_id, nm) == dirent_child(old(fm)@, snapshot_root_id, nm));
                    if snap_names.contains(nm) {
                        let a = choose|a: int| 0 <= a < snap_names.len() && snap_names[a] == nm;
                        assert(snap_children@[a].name@ == nm);
                    }
                }
            }
        }
        Ok(())
    }
}


impl InodeTree {
    /// Rebuilds every stored snapshot (see `restore_snapshot_subtree`); a
    /// snapshot that cannot be rebuilt has its record removed and is
    /// reported.
    fn restore_snapshots(&mut self, fm: &mut FileManager, now: u64) -> (r: (Vec<SnapshotRestoreFailure>, bool))
        requires
            old(self).wf(),
        ensures
            r.1 ==> forall|t: (Seq<char>, u64, u64)|
                #[trigger] snapshot_stored(old(fm)@, t) ==> has_snapshot_named(final(self), t.0) || exists|f: int|
                    0 <= f < r.0@.len() && r.0@[f].name@ == t.0,
            final(self).wf(),
            keeps_nodes(old(self).nodes(), final(self).nodes()),
            final(self).registry() == old(self).registry(),
            final(self).root() == old(self).root(),
            old(self).sealed() ==> final(self).sealed(),
            forall|p: u64, n: Seq<char>| #[trigger] dirent_child(final(fm)@, p, n) == dirent_child(old(fm)@, p, n),
            forall|t: u64| #[trigger] inode_record(final(fm)@, t) == inode_record(old(fm)@, t),
    {
        let (metas, all_read) = fm.load_snapshots_checked();
        let ghost m_scan = fm@;
        let mut failures: Vec<SnapshotRestoreFailure> = Vec::new();
        let mut i: usize = 0;
        let ghost base = self.nodes();
        while i < metas.len()
            invariant
                m_scan == old(fm)@,
                all_read ==> forall|t: (Seq<char>, u64, u64)|
                    #[trigger] snapshot_stored(m_scan, t) ==> exists|j: int| 0 <= j < metas@.len() && snapshot_tuple(metas@[j]) == t,
                forall|a: int|
                    0 <= a < i ==> has_snapshot_named(self, (#[trigger] metas@[a]).name@) || exists|f: int|
                        0 <= f < failures@.len() && failures@[f].name@ == metas@[a].name@,
                self.wf(),
                base == old(self).nodes(),
                keeps_nodes(base, self.nodes()),
                self.registry() == old(self).registry(),
                self.root() == old(self).root(),
                i <= metas@.len(),
                old(self).sealed() ==> self.sealed(),
                forall|p: u64, n: Seq<char>| #[trigger] dirent_child(fm@, p, n) == dirent_child(old(fm)@, p, n),
                forall|t: u64| #[trigger] inode_record(fm@, t) == inode_record(old(fm)@, t),
            decreases metas@.len() - i,
        {
            let mut visited: HashSet<u64> = HashSet::new();
            let ghost mid = self.nodes();
            let ghost t0 = *self;
            let ghost f0 = failures@;
            let rebuilt = self.restore_snapshot_subtree(fm, metas[i].root_id, &mut visited, now, u64::MAX);
            proof {
                lemma_keeps_trans(base, mid, self.nodes());
                if old(self).sealed() {
                    lemma_seal_garbage(&t0, self);
                }
                assert forall|n: Seq<char>| has_snapshot_named(self, n) == has_snapshot_named(&t0, n) by {
                    assert(self.snapshots() == t0.snapshots());
                }
            }
            let ghost t_mid = *self;
            match rebuilt {
                Ok(root) => {
                    let ghost mid2 = self.nodes();
                    let nm = metas[i].name.clone();
                    assert(nm@ == metas@[i as int].name@);
                    self.put_snapshot(nm, metas[i].timestamp, root);
                    assert(self.nodes() == mid2);
                    let ghost t_put = *self;
                    self.frozen = Ghost(self.frozen@.union(span(t0.nodes().len() as int, self.nodes@.len() as int)));
                    proof {
                        if old(self).sealed() {
                            lemma_seal_new_block(&t0, self, root as int);
                        }
                        assert(self.snapshots() == t_put.snapshots());
                        assert forall|a: int|
                            0 <= a < i + 1 implies has_snapshot_named(self, (#[trigger] metas@[a]).name@) || exists|f: int|
                                0 <= f < failures@.len() && failures@[f].name@ == metas@[a].name@ by {
                            assert(has_snapshot_named(self, metas@[a].name@) == has_snapshot_named(&t_put, metas@[a].name@));
                            if metas@[a].name@ != metas@[i as int].name@ {
                                assert(has_snapshot_named(&t_put, metas@[a].name@) == has_snapshot_named(&t_mid, metas@[a].name@));
                                assert(has_snapshot_named(&t_mid, metas@[a].name@) == has_snapshot_named(&t0, metas@[a].name@));
                            }
                        }
                    }
                },
                Err(e) => {
                    let ghost before = fm@;
                    let pruned = fm.delete_snapshot(metas[i].name.as_str());
                    proof {
                        lemma_snapshot_key_apart(before, fm@, metas@[i as int].name@);
                    }
                    let prune_error = match pruned {
                        Ok(()) => None,
                        Err(pe) => Some(pe),
                    };
                    let fname = metas[i].name.clone();
                    assert(fname@ == metas@[i as int].name@);
                    failures.push(
                        SnapshotRestoreFailure {
                            name: fname,
                            root_id: metas[i].root_id,
                            error: e,
                            prune_error,
                        },
                    );
                    proof {
                        assert forall|a: int|
                            0 <= a < i + 1 implies has_snapshot_named(self, (#[trigger] metas@[a]).name@) || exists|f: int|
                                0 <= f < failures@.len() && failures@[f].name@ == metas@[a].name@ by {
                            if a == i {
                                assert(failures@[f0.len() as int].name@ == metas@[a].name@);
                            } else if !has_snapshot_named(self, metas@[a].name@) {
                                assert(!has_snapshot_named(&t0, metas@[a].name@));
                                let f = choose|f: int| 0 <= f < f0.len() && f0[f].name@ == metas@[a].name@;
                                assert(failures@[f] == f0[f]);
                            }
                        }
                    }
                },
            }
            i = i + 1;
        }
        proof {
            if all_read {
                assert forall|t: (Seq<char>, u64, u64)| #[trigger] snapshot_stored(old(fm)@, t) implies has_snapshot_named(
                    self,
                    t.0,
                ) || exists|f: int| 0 <= f < failures@.len() && failures@[f].name@ == t.0 by {
                    let j = choose|j: int| 0 <= j < metas@.len() && snapshot_tuple(metas@[j]) == t;
                    assert(metas@[j].name@ == t.0);
                    assert(has_snapshot_named(self, metas@[j].name@) || exists|f: int|
                        0 <= f < failures@.len() && failures@[f].name@ == metas@[j].name@);
                }
            }
        }
        let r = (failures, all_read);
        assert(r.0@ == failures@);
        r
    }

    /// The tree of a mount: the live root, whose record is stored (a
    /// failure to store it is passed over), filled from the stored
    /// directory entries (see `hydrate_live_children`), and the stored
    /// snapshots rebuilt (see `restore_snapshots`), with those that could
    /// not be rebuilt and whether every read succeeded. Every live node's
    /// children come from the store; when every read succeeded, every
    /// stored entry of a live directory is there too, and every stored
    /// snapshot is there or among those reported.
    pub fn load(fm: &mut FileManager, now: u64) -> (r: (InodeTree, Vec<SnapshotRestoreFailure>, bool))
        ensures
            r.0.wf(),
            r.0.nodes()[r.0.root()].id == FUSE_ROOT_ID,
            r.0.nodes()[r.0.root()].attr.kind == NodeKind::Directory,
            r.0.sealed(),
            forall|k: int| #[trigger] under(r.0.nodes(), r.0.root(), k) ==> children_from_store(final(fm)@, r.0.nodes(), k),
            r.2 ==> forall|k: int|
                #[trigger] under(r.0.nodes(), r.0.root(), k) && r.0.nodes()[k].attr.kind == NodeKind::Directory
                    ==> store_entries_present(final(fm)@, r.0.nodes(), k),
            r.2 ==> forall|t: (Seq<char>, u64, u64)|
                #[trigger] snapshot_stored(old(fm)@, t) ==> has_snapshot_named(&r.0, t.0) || exists|f: int|
                    0 <= f < r.1@.len() && r.1@[f].name@ == t.0,
    {
        let mut t = InodeTree::new(now);
        let meta = Self::map_inode(&t.nodes[0]);
        let ghost m0 = fm@;
        let _ = fm.save_inode(&meta);
        let root = t.root;
        let ghost m1 = fm@;
        proof {
            lemma_inode_key_not_snapshot(meta.id);
            assert forall|t: (Seq<char>, u64, u64)| #[trigger] snapshot_stored(m0, t) implies snapshot_stored(m1, t) by {
                let k = choose|k: Seq<u8>|
                    #[trigger] m0.contains_key(k) && is_prefix(key_bytes(prefix_snapshot()), k)
                        && bincode_decode_snapshot(m0[k]) == Some(t);
                assert(k != key_bytes(spec_inode_key(meta.id)));
                assert(m1.contains_key(k));
            }
        }
        let ghost n_start = t.nodes();
        assert(children_from_store(m1, n_start, 0));
        let complete = t.hydrate_live_children(fm, root, FUSE_ROOT_ID, now, u64::MAX);
        let ghost nh = t.nodes();
        let ghost l = nh.len() as int;
        proof {
            lemma_seal_empty(&t);
            lemma_wf_facts(&t);
        }
        assert(fm@ == m1);
        let (failures, all_read) = t.restore_snapshots(fm, now);
        proof {
            let nf = t.nodes();
            lemma_leads_same(m1, fm@);
            assert forall|j: int| 0 <= j < nf[0].children.len() implies 1 <= #[trigger] nf[0].children[j].1 < l by {
                assert(nf[0] == nh[0]);
                assert(0 <= nh[0].children[j].1 < l);
            }
            assert forall|k: int, j: int| 1 <= k < l && 0 <= j < nf[k].children.len() implies 1 <= #[trigger] nf[k].children[j].1 < l by {
                assert(nf[k] == nh[k]);
                assert(0 <= nh[k].children[j].1 < l);
            }
            assert forall|q: int| 0 <= q < l implies stored_form(#[trigger] nf[q]) == stored_form(nh[q]) by {
                assert(nf[q] == nh[q]);
            }
            assert forall|k: int| #[trigger] under(nf, 0, k) implies children_from_store(fm@, nf, k) && (complete
                && nf[k].attr.kind == NodeKind::Directory ==> store_entries_present(fm@, nf, k)) by {
                let comps = choose|comps: Seq<Seq<char>>| #[trigger] resolve(nf, 0, comps) == Some(k);
                lemma_under_block(nf, 0, 1, l, comps);
                assert(nf[k] == nh[k]);
                lemma_store_links_kept(m1, nh, nf, k);
                assert(children_from_store(m1, nf, k));
                if complete && nf[k].attr.kind == NodeKind::Directory {
                    assert(store_entries_present(m1, nh, k));
                    assert(store_entries_present(m1, nf, k));
                }
            }
        }
        proof {
            assert(t.nodes()[0] == nh[0]);
            assert(stored_form(nh[0]) == stored_form(n_start[0]));
        }
        proof {
            if complete && all_read {
                assert forall|x: (Seq<char>, u64, u64)| #[trigger] snapshot_stored(m0, x) implies has_snapshot_named(&t, x.0)
                    || exists|f: int| 0 <= f < failures@.len() && failures@[f].name@ == x.0 by {
                    assert(snapshot_stored(m1, x));
                }
            }
        }
        let r = (t, failures, complete && all_read);
        assert(r.1@ == failures@);
        r
    }
}

} // verus!
