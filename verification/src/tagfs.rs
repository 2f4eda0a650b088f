//! TagFS: the virtual directories under `@tags`.
//!
//! A virtual directory stands for a set of tags and lists the files that
//! have all of them, plus the tags one level further down; a virtual file
//! in it stands for a live inode. Each gets a virtual inode number when it
//! is first looked up, and keeps it: a virtual directory is found again by
//! the `/`-joined canonical tag list, a virtual file by that key, `|` and
//! the live inode's number.
use vstd::prelude::*;
use crate::file_manager::{
    index_of, key_bytes, lemma_tags_among_exact, listed_under_all, next_level_tag, spec_tag_index_key, tags_among, FileManager,
};
use crate::fs_ops::{name_views, FsError};
use crate::text::{
    canonical_of, canonical_tags, contains_text, lemma_push_to_set, decimal, insert_text_sorted, lemma_canonical_of,
    normal_tag, normal_tag_set, normalize_tag_list, push_decimal, sorted_texts, string_of,
    string_push,
};

verus! {

/// The inode of the mount's root directory.
pub const FUSE_ROOT_ID: u64 = 1;

/// The inode of the `.snapshots` directory.
pub const SNAPSHOT_DIR_ID: u64 = 2;

/// The inode of `.snapshots/.create`.
pub const SNAPSHOT_CREATE_ID: u64 = 3;

/// The inode of the `@tags` directory.
pub const TAGS_DIR_ID: u64 = 4;

/// The inode of the `.tagfs_ctl` control file.
pub const TAGFS_CONTROL_ID: u64 = 5;

/// The first virtual inode number.
pub const VIRTUAL_INODE_START: u64 = 1_000_000;

/// The context of a virtual directory: its canonical tag list.
#[derive(Debug)]
pub struct TagVirtualDirContext {
    pub tags: Vec<String>,
}

/// The context of a virtual file: the live inode it stands for.
#[derive(Debug)]
pub struct TagVirtualFileContext {
    pub real_inode_id: u64,
}

/// The canonical form of a tag list: each tag trimmed and lower-cased,
/// empty ones dropped, no duplicates, ascending.
pub fn canonicalize_tags(tags: &[String]) -> (out: Vec<String>)
    ensures
        out.deep_view() == canonical_of(tags.deep_view()),
        canonical_tags(out.deep_view(), normal_tag_set(tags.deep_view())),
{
    let out = normalize_tag_list(tags);
    proof {
        lemma_canonical_of(tags.deep_view(), out.deep_view());
    }
    out
}

/// Tags joined with `/`.
pub open spec fn join_tags(tags: Seq<Seq<char>>) -> Seq<char>
    decreases tags.len(),
{
    if tags.len() == 0 {
        Seq::empty()
    } else if tags.len() == 1 {
        tags[0]
    } else {
        join_tags(tags.drop_last()) + seq!['/'] + tags.last()
    }
}

/// The key of a virtual directory: its tags joined with `/`.
pub fn tag_key(tags: &[String]) -> (k: String)
    ensures
        k@ == join_tags(tags.deep_view()),
{
    let ghost ts = tags.deep_view();
    let mut k = String::new();
    let mut i: usize = 0;
    while i < tags.len()
        invariant
            i <= tags@.len(),
            ts == tags.deep_view(),
            k@ == join_tags(ts.take(i as int)),
        decreases tags@.len() - i,
    {
        assert(ts.take(i + 1).drop_last() =~= ts.take(i as int));
        assert(ts[i as int] == tags@[i as int]@);
        if i > 0 {
            string_push(&mut k, '/');
        } else {
            assert(ts.take(0) =~= Seq::<Seq<char>>::empty());
        }
        k.append(tags[i].as_str());
        i = i + 1;
    }
    assert(ts.take(tags@.len() as int) =~= ts);
    k
}

/// The key of a virtual file: the directory key, `|` and the live inode.
pub open spec fn spec_tag_file_key(tags: Seq<Seq<char>>, real_inode_id: u64) -> Seq<char> {
    join_tags(tags) + seq!['|'] + decimal(real_inode_id as nat)
}

/// The key of the virtual file for `real_inode_id` under `tags`.
pub fn tag_file_key(tags: &[String], real_inode_id: u64) -> (k: String)
    ensures
        k@ == spec_tag_file_key(tags.deep_view(), real_inode_id),
{
    let mut k = tag_key(tags);
    string_push(&mut k, '|');
    push_decimal(&mut k, real_inode_id);
    k
}

/// A virtual node: a directory with its tags, or a file with its live
/// inode.
pub enum VirtualKind {
    Dir(TagVirtualDirContext),
    File(TagVirtualFileContext),
}

/// A virtual node with the key it is found by.
pub struct VirtualNode {
    pub key: String,
    pub kind: VirtualKind,
}

/// A virtual node as plain values.
pub enum VirtualView {
    Dir(Seq<Seq<char>>),
    File(u64),
}

/// A virtual node's key and what it stands for.
pub open spec fn node_view(n: VirtualNode) -> (Seq<char>, VirtualView) {
    (
        n.key@,
        match n.kind {
            VirtualKind::Dir(c) => VirtualView::Dir(c.tags.deep_view()),
            VirtualKind::File(c) => VirtualView::File(c.real_inode_id),
        },
    )
}

/// Whether node `e` is a directory (`dir`) or a file (`!dir`) with key `k`.
pub open spec fn node_has(e: (Seq<char>, VirtualView), k: Seq<char>, dir: bool) -> bool {
    e.0 == k && (e.1 is Dir) == dir
}

/// The position of the first node of kind `dir` with key `k` at or after
/// position `i`.
pub open spec fn find_from(s: Seq<(Seq<char>, VirtualView)>, k: Seq<char>, dir: bool, i: int) -> Option<int>
    decreases s.len() - i,
{
    if i < 0 || i >= s.len() {
        None
    } else if node_has(s[i], k, dir) {
        Some(i)
    } else {
        find_from(s, k, dir, i + 1)
    }
}

/// The position of the first node of kind `dir` with key `k`.
pub open spec fn find_node(s: Seq<(Seq<char>, VirtualView)>, k: Seq<char>, dir: bool) -> Option<int> {
    find_from(s, k, dir, 0)
}

/// What `find_from` finds: the first match at or after `i`, or no match.
proof fn lemma_find_from(s: Seq<(Seq<char>, VirtualView)>, k: Seq<char>, dir: bool, i: int)
    requires
        0 <= i,
    ensures
        match find_from(s, k, dir, i) {
            Some(j) => i <= j < s.len() && node_has(s[j], k, dir) && forall|m: int|
                i <= m < j ==> !node_has(#[trigger] s[m], k, dir),
            None => forall|m: int| i <= m < s.len() ==> !node_has(#[trigger] s[m], k, dir),
        },
    decreases s.len() - i,
{
    if i < s.len() && !node_has(s[i], k, dir) {
        lemma_find_from(s, k, dir, i + 1);
    }
}

/// The virtual inode number of the node at position `i`.
pub open spec fn vino(i: int) -> int {
    VIRTUAL_INODE_START + i
}

/// What looking up the virtual directory for `tags` does: it finds the
/// registered one, or registers a new one at the end (unless numbers are
/// exhausted).
pub open spec fn dir_lookup_post(
    s0: Seq<(Seq<char>, VirtualView)>,
    s1: Seq<(Seq<char>, VirtualView)>,
    tags: Seq<Seq<char>>,
    r: Option<u64>,
) -> bool {
    let c = canonical_of(tags);
    let k = join_tags(c);
    match find_node(s0, k, true) {
        Some(i) => r is Some && r->0 == vino(i) && s1 == s0,
        None => match r {
            Some(v) => v == vino(s0.len() as int) && s1 == s0.push((k, VirtualView::Dir(c))),
            None => s1 == s0 && vino(s0.len() as int) + 2 >= u64::MAX,
        },
    }
}

/// What looking up the virtual file for live inode `live` under `tags`
/// does: it finds the registered one, or registers a new one at the end.
pub open spec fn file_lookup_post(
    s0: Seq<(Seq<char>, VirtualView)>,
    s1: Seq<(Seq<char>, VirtualView)>,
    tags: Seq<Seq<char>>,
    live: u64,
    r: Option<u64>,
) -> bool {
    let k = spec_tag_file_key(canonical_of(tags), live);
    match find_node(s0, k, false) {
        Some(i) => r is Some && r->0 == vino(i) && s1 == s0,
        None => match r {
            Some(v) => v == vino(s0.len() as int) && s1 == s0.push((k, VirtualView::File(live))),
            None => s1 == s0 && vino(s0.len() as int) + 2 >= u64::MAX,
        },
    }
}

/// Looking a virtual directory up registers it for good: its number is a
/// virtual one, it is found again under that number afterwards, and a
/// second lookup of the same tags, in any order (any tags with the same
/// canonical form), changes nothing and gives the same number.
pub proof fn lemma_virtual_dir_stable(
    s0: Seq<(Seq<char>, VirtualView)>,
    s1: Seq<(Seq<char>, VirtualView)>,
    tags: Seq<Seq<char>>,
    v: u64,
)
    requires
        dir_lookup_post(s0, s1, tags, Some(v)),
    ensures
        v >= VIRTUAL_INODE_START,
        find_node(s1, join_tags(canonical_of(tags)), true) == Some(v - VIRTUAL_INODE_START),
        forall|s2: Seq<(Seq<char>, VirtualView)>, r2: Option<u64>|
            dir_lookup_post(s1, s2, tags, r2) ==> r2 == Some(v) && s2 == s1,
        forall|tags2: Seq<Seq<char>>, s2: Seq<(Seq<char>, VirtualView)>, r2: Option<u64>|
            canonical_of(tags2) == canonical_of(tags) && #[trigger] dir_lookup_post(s1, s2, tags2, r2) ==> r2 == Some(v)
                && s2 == s1,
{
    let k = join_tags(canonical_of(tags));
    lemma_find_from(s0, k, true, 0);
    match find_node(s0, k, true) {
        Some(i) => {},
        None => {
            let n = s0.len() as int;
            assert(node_has(s1[n], k, true));
            assert forall|j: int| 0 <= j < n implies !node_has(#[trigger] s1[j], k, true) by {
                assert(s1[j] == s0[j]);
            }
            lemma_find_first(s1, k, true, n);
        },
    }
}

/// Looking a virtual file up registers it for good: afterwards it is found
/// again under the same number and stands for the same live inode.
pub proof fn lemma_virtual_file_stable(
    s0: Seq<(Seq<char>, VirtualView)>,
    s1: Seq<(Seq<char>, VirtualView)>,
    tags: Seq<Seq<char>>,
    live: u64,
    v: u64,
)
    requires
        file_lookup_post(s0, s1, tags, live, Some(v)),
    ensures
        find_node(s1, spec_tag_file_key(canonical_of(tags), live), false) == Some(v - VIRTUAL_INODE_START),
        forall|s2: Seq<(Seq<char>, VirtualView)>, r2: Option<u64>|
            file_lookup_post(s1, s2, tags, live, r2) ==> r2 == Some(v) && s2 == s1,
{
    let k = spec_tag_file_key(canonical_of(tags), live);
    lemma_find_from(s0, k, false, 0);
    match find_node(s0, k, false) {
        Some(i) => {},
        None => {
            let n = s0.len() as int;
            assert(node_has(s1[n], k, false));
            assert forall|j: int| 0 <= j < n implies !node_has(#[trigger] s1[j], k, false) by {
                assert(s1[j] == s0[j]);
            }
            lemma_find_first(s1, k, false, n);
        },
    }
}

/// Different keys are never found at the same position: tag sets whose
/// keys differ get different virtual directories.
pub proof fn lemma_virtual_ids_distinct(s: Seq<(Seq<char>, VirtualView)>, k1: Seq<char>, k2: Seq<char>, dir: bool)
    requires
        find_node(s, k1, dir) is Some,
        find_node(s, k1, dir) == find_node(s, k2, dir),
    ensures
        k1 == k2,
{
    lemma_find_from(s, k1, dir, 0);
    lemma_find_from(s, k2, dir, 0);
}

/// No tag is empty and none holds a `/`.
pub open spec fn plain_tags(c: Seq<Seq<char>>) -> bool {
    forall|i: int| 0 <= i < c.len() ==> (#[trigger] c[i]).len() > 0 && !c[i].contains('/')
}

/// Text before and after a last `/` is found again from the whole.
proof fn lemma_join_split(x: Seq<char>, y: Seq<char>, x2: Seq<char>, y2: Seq<char>)
    requires
        x + seq!['/'] + y == x2 + seq!['/'] + y2,
        !y.contains('/'),
        !y2.contains('/'),
    ensures
        x == x2,
        y == y2,
{
    let w = x + seq!['/'] + y;
    let w2 = x2 + seq!['/'] + y2;
    if y.len() < y2.len() {
        let p = w.len() - y.len() - 1;
        assert(w[p] == '/');
        assert(y2[p - x2.len() - 1] == w2[p]);
        assert(y2.contains('/'));
    } else if y2.len() < y.len() {
        let p = w2.len() - y2.len() - 1;
        assert(w2[p] == '/');
        assert(y[p - x.len() - 1] == w[p]);
        assert(y.contains('/'));
    }
    assert(w.len() == x.len() + 1 + y.len());
    assert(w2.len() == x2.len() + 1 + y2.len());
    assert(y.len() == y2.len());
    assert(x.len() == x2.len());
    assert(x =~= w.subrange(0, x.len() as int));
    assert(x2 =~= w2.subrange(0, x2.len() as int));
    assert(y =~= w.subrange(x.len() as int + 1, w.len() as int));
    assert(y2 =~= w2.subrange(x2.len() as int + 1, w2.len() as int));
}

/// A joined key of two or more tags holds a `/`; of one, the tag itself.
proof fn lemma_join_shape(a: Seq<Seq<char>>)
    requires
        plain_tags(a),
    ensures
        a.len() == 1 ==> join_tags(a) == a[0] && !join_tags(a).contains('/'),
        a.len() >= 1 ==> join_tags(a).len() > 0,
        a.len() >= 2 ==> join_tags(a).contains('/'),
    decreases a.len(),
{
    if a.len() >= 2 {
        let p = a.drop_last();
        assert(plain_tags(p)) by {
            assert forall|i: int| 0 <= i < p.len() implies (#[trigger] p[i]).len() > 0 && !p[i].contains('/') by {
                assert(p[i] == a[i]);
            }
        }
        lemma_join_shape(p);
        let w = join_tags(p) + seq!['/'] + a.last();
        assert(w[join_tags(p).len() as int] == '/');
    } else if a.len() == 1 {
        assert(a[0].len() > 0);
    }
}

/// Tag lists without empty tags or `/` are told apart by their keys.
pub proof fn lemma_join_tags_injective(a: Seq<Seq<char>>, b: Seq<Seq<char>>)
    requires
        plain_tags(a),
        plain_tags(b),
        join_tags(a) == join_tags(b),
    ensures
        a == b,
    decreases a.len(),
{
    lemma_join_shape(a);
    lemma_join_shape(b);
    if a.len() == 0 {
        if b.len() > 0 {
            assert(join_tags(b).len() > 0);
        }
        assert(b.len() == 0);
        assert(a =~= b);
    } else if a.len() == 1 {
        assert(b.len() == 1);
        assert(a =~= b);
    } else {
        assert(b.len() >= 2);
        let pa = a.drop_last();
        let pb = b.drop_last();
        assert(!a.last().contains('/'));
        assert(!b.last().contains('/'));
        lemma_join_split(join_tags(pa), a.last(), join_tags(pb), b.last());
        assert(plain_tags(pa)) by {
            assert forall|i: int| 0 <= i < pa.len() implies (#[trigger] pa[i]).len() > 0 && !pa[i].contains('/') by {
                assert(pa[i] == a[i]);
            }
        }
        assert(plain_tags(pb)) by {
            assert forall|i: int| 0 <= i < pb.len() implies (#[trigger] pb[i]).len() > 0 && !pb[i].contains('/') by {
                assert(pb[i] == b[i]);
            }
        }
        lemma_join_tags_injective(pa, pb);
        assert(a =~= pa.push(a.last()));
        assert(b =~= pb.push(b.last()));
    }
}

/// Tag sets with different canonical forms get different virtual
/// directories: when the registry finds the directories of two tag lists
/// (whose canonical tags hold no `/`) at one position, the lists have the
/// same canonical form.
pub proof fn lemma_virtual_dirs_apart(s: Seq<(Seq<char>, VirtualView)>, tags1: Seq<Seq<char>>, tags2: Seq<Seq<char>>)
    requires
        plain_tags(canonical_of(tags1)),
        plain_tags(canonical_of(tags2)),
        find_node(s, join_tags(canonical_of(tags1)), true) is Some,
        find_node(s, join_tags(canonical_of(tags1)), true) == find_node(s, join_tags(canonical_of(tags2)), true),
    ensures
        canonical_of(tags1) == canonical_of(tags2),
{
    lemma_virtual_ids_distinct(s, join_tags(canonical_of(tags1)), join_tags(canonical_of(tags2)), true);
    lemma_join_tags_injective(canonical_of(tags1), canonical_of(tags2));
}

/// The registry of virtual directories and files.
pub struct TagRegistry {
    nodes: Vec<VirtualNode>,
}

impl View for TagRegistry {
    type V = Seq<(Seq<char>, VirtualView)>;

    /// The virtual nodes, the one with inode `VIRTUAL_INODE_START + i` at
    /// position `i`.
    closed spec fn view(&self) -> Seq<(Seq<char>, VirtualView)> {
        self.nodes@.map_values(|n: VirtualNode| node_view(n))
    }
}

/// The first matching node found by a scan is the one `find_node` names.
proof fn lemma_find_first(s: Seq<(Seq<char>, VirtualView)>, k: Seq<char>, dir: bool, i: int)
    requires
        0 <= i < s.len(),
        node_has(s[i], k, dir),
        forall|j: int| 0 <= j < i ==> !node_has(#[trigger] s[j], k, dir),
    ensures
        find_node(s, k, dir) == Some(i),
{
    lemma_find_from(s, k, dir, 0);
    match find_node(s, k, dir) {
        Some(j) => {
            if j < i {
                assert(!node_has(s[j], k, dir));
            }
            if j > i {
                assert(!node_has(s[i], k, dir));
            }
        },
        None => {
            assert(!node_has(s[i], k, dir));
        },
    }
}

impl TagRegistry {
    /// Every registered node has a virtual inode number below `u64::MAX`.
    #[verifier::type_invariant]
    closed spec fn inv(self) -> bool {
        self.nodes@.len() + 1 < u64::MAX - VIRTUAL_INODE_START
    }

    /// An empty registry.
    pub fn new() -> (r: Self)
        ensures
            r@ == Seq::<(Seq<char>, VirtualView)>::empty(),
    {
        let r = TagRegistry { nodes: Vec::new() };
        assert(r@ =~= Seq::<(Seq<char>, VirtualView)>::empty());
        r
    }

    /// The position of the first node of kind `dir` with key `key`.
    fn find(&self, key: &String, dir: bool) -> (r: Option<usize>)
        ensures
            match r {
                Some(i) => find_node(self@, key@, dir) == Some(i as int) && i < self@.len()
                    && self@.len() + 1 < u64::MAX - VIRTUAL_INODE_START,
                None => find_node(self@, key@, dir) is None,
            },
    {
        proof {
            use_type_invariant(self);
        }
        let mut i: usize = 0;
        while i < self.nodes.len()
            invariant
                i <= self.nodes@.len(),
                self.nodes@.len() + 1 < u64::MAX - VIRTUAL_INODE_START,
                forall|j: int| 0 <= j < i ==> !node_has(#[trigger] self@[j], key@, dir),
            decreases self.nodes@.len() - i,
        {
            let is_dir = match &self.nodes[i].kind {
                VirtualKind::Dir(_) => true,
                VirtualKind::File(_) => false,
            };
            assert(self@[i as int] == node_view(self.nodes@[i as int]));
            if is_dir == dir && self.nodes[i].key == *key {
                proof {
                    lemma_find_first(self@, key@, dir, i as int);
                }
                return Some(i);
            }
            i = i + 1;
        }
        proof {
            lemma_find_from(self@, key@, dir, 0);
        }
        None
    }

    /// Appends a node, giving it the next virtual inode number; `None` when
    /// the numbers are exhausted.
    fn append(&mut self, node: VirtualNode) -> (r: Option<u64>)
        ensures
            r matches Some(v) ==> v == vino(old(self)@.len() as int) && final(self)@ == old(self)@.push(
                node_view(node),
            ),
            r is None ==> final(self)@ == old(self)@ && vino(old(self)@.len() as int) + 2 >= u64::MAX,
    {
        proof {
            use_type_invariant(&*self);
        }
        let n = self.nodes.len();
        if n as u64 >= u64::MAX - VIRTUAL_INODE_START - 2 {
            return None;
        }
        let mut nodes: Vec<VirtualNode> = Vec::new();
        std::mem::swap(&mut nodes, &mut self.nodes);
        nodes.push(node);
        self.nodes = nodes;
        assert(self@ =~= old(self)@.push(node_view(node)));
        Some(VIRTUAL_INODE_START + n as u64)
    }

    /// The virtual directory already registered for `tags`, if any.
    pub fn existing_tag_virtual_dir(&self, tags: &[String]) -> (r: Option<u64>)
        ensures
            match find_node(self@, join_tags(canonical_of(tags.deep_view())), true) {
                Some(i) => r is Some && r->0 == vino(i),
                None => r is None,
            },
    {
        let canonical = canonicalize_tags(tags);
        let key = tag_key(canonical.as_slice());
        match self.find(&key, true) {
            Some(i) => Some(VIRTUAL_INODE_START + i as u64),
            None => None,
        }
    }

    /// The virtual directory for `tags`: the one already registered for
    /// their canonical list, or a new one; `None` only when virtual inode
    /// numbers are exhausted.
    pub fn get_or_create_tag_virtual_dir(&mut self, tags: &[String]) -> (r: Option<u64>)
        ensures
            dir_lookup_post(old(self)@, final(self)@, tags.deep_view(), r),
    {
        let canonical = canonicalize_tags(tags);
        let key = tag_key(canonical.as_slice());
        match self.find(&key, true) {
            Some(i) => Some(VIRTUAL_INODE_START + i as u64),
            None => {
                let node = VirtualNode {
                    key,
                    kind: VirtualKind::Dir(TagVirtualDirContext { tags: canonical }),
                };
                self.append(node)
            },
        }
    }

    /// The virtual file for live inode `real_inode_id` under `tags`: the
    /// one already registered, or a new one; `None` only when virtual
    /// inode numbers are exhausted.
    pub fn get_or_create_tag_virtual_file(&mut self, tags: &[String], real_inode_id: u64) -> (r: Option<u64>)
        ensures
            file_lookup_post(old(self)@, final(self)@, tags.deep_view(), real_inode_id, r),
    {
        let canonical = canonicalize_tags(tags);
        let key = tag_file_key(canonical.as_slice(), real_inode_id);
        match self.find(&key, false) {
            Some(i) => Some(VIRTUAL_INODE_START + i as u64),
            None => {
                let node = VirtualNode {
                    key,
                    kind: VirtualKind::File(TagVirtualFileContext { real_inode_id }),
                };
                self.append(node)
            },
        }
    }

    /// The position of virtual inode `ino`, if it is registered.
    fn position(&self, ino: u64) -> (r: Option<usize>)
        ensures
            match r {
                Some(i) => i < self@.len() && vino(i as int) == ino,
                None => !(VIRTUAL_INODE_START <= ino < vino(self@.len() as int)),
            },
    {
        if ino < VIRTUAL_INODE_START {
            return None;
        }
        let d = ino - VIRTUAL_INODE_START;
        if d >= self.nodes.len() as u64 {
            return None;
        }
        Some(d as usize)
    }

    /// The tags of virtual directory `ino`.
    pub fn get_virtual_dir_tags(&self, ino: u64) -> (r: Option<Vec<String>>)
        ensures
            match r {
                Some(t) => VIRTUAL_INODE_START <= ino && self@[ino - VIRTUAL_INODE_START]
                    == (self@[ino - VIRTUAL_INODE_START].0, VirtualView::Dir(t.deep_view()))
                    && ino - VIRTUAL_INODE_START < self@.len(),
                None => !(VIRTUAL_INODE_START <= ino < vino(self@.len() as int) && self@[ino
                    - VIRTUAL_INODE_START].1 is Dir),
            },
    {
        match self.position(ino) {
            Some(i) => {
                assert(self@[i as int] == node_view(self.nodes@[i as int]));
                match &self.nodes[i].kind {
                    VirtualKind::Dir(ctx) => {
                        let t = ctx.tags.clone();
                        proof {
                            assert(t.deep_view() =~= ctx.tags.deep_view()) by {
                                assert forall|j: int| 0 <= j < t@.len() implies t.deep_view()[j] == ctx.tags.deep_view()[j] by {
                                    assert(vstd::pervasive::cloned::<String>(ctx.tags@[j], t@[j]));
                                }
                            }
                        }
                        Some(t)
                    },
                    VirtualKind::File(_) => None,
                }
            },
            None => None,
        }
    }

    /// The live inode that virtual file `ino` stands for.
    pub fn real_inode_for_virtual_file(&self, ino: u64) -> (r: Option<u64>)
        ensures
            match r {
                Some(rid) => VIRTUAL_INODE_START <= ino && ino - VIRTUAL_INODE_START < self@.len()
                    && self@[ino - VIRTUAL_INODE_START].1 == VirtualView::File(rid),
                None => !(VIRTUAL_INODE_START <= ino < vino(self@.len() as int) && self@[ino
                    - VIRTUAL_INODE_START].1 is File),
            },
    {
        match self.position(ino) {
            Some(i) => {
                assert(self@[i as int] == node_view(self.nodes@[i as int]));
                match &self.nodes[i].kind {
                    VirtualKind::File(ctx) => Some(ctx.real_inode_id),
                    VirtualKind::Dir(_) => None,
                }
            },
            None => None,
        }
    }

    /// Whether `ino` is `@tags` or a virtual directory.
    pub fn is_tag_virtual_dir_inode(&self, ino: u64) -> (b: bool)
        ensures
            b == (ino == TAGS_DIR_ID || (VIRTUAL_INODE_START <= ino < vino(self@.len() as int)
                && self@[ino - VIRTUAL_INODE_START].1 is Dir)),
    {
        if ino == TAGS_DIR_ID {
            return true;
        }
        self.get_virtual_dir_tags(ino).is_some()
    }

    /// Whether `ino` is a virtual file.
    pub fn is_tag_virtual_file_inode(&self, ino: u64) -> (b: bool)
        ensures
            b == (VIRTUAL_INODE_START <= ino < vino(self@.len() as int) && self@[ino
                - VIRTUAL_INODE_START].1 is File),
    {
        self.real_inode_for_virtual_file(ino).is_some()
    }
}


/// Some inode has the tag `name` (normalised).
pub open spec fn tag_has_files(m: Map<Seq<u8>, Seq<u8>>, name: Seq<char>) -> bool {
    &&& normal_tag(name).len() > 0
    &&& index_of(m, normal_tag(name)) is Some
    &&& index_of(m, normal_tag(name)).unwrap() != Set::<u64>::empty()
}

/// Some inode has every one of `tags` (normalised).
pub open spec fn tags_have_files(m: Map<Seq<u8>, Seq<u8>>, tags: Seq<Seq<char>>) -> bool {
    exists|id: u64| #[trigger] listed_under_all(m, normal_tag_set(tags), id)
}

/// What a name under `@tags` or a virtual directory is.
pub enum TagEntry {
    /// `@tags` or a virtual directory, by inode.
    Dir(u64),
    /// No tag directory: the name may be one of these inodes, all of which
    /// have every one of these tags.
    Files(Vec<String>, Vec<u64>),
}

/// The directory inode a lookup found, if it found one.
pub open spec fn dir_entry(r: Result<Option<TagEntry>, FsError>) -> Option<u64> {
    match r {
        Ok(Some(TagEntry::Dir(v))) => Some(v),
        _ => None,
    }
}

/// A lookup of the virtual directory for `tags`, when `has_files` tells
/// whether any inode has them all: with files, the directory is found or
/// registered; without, only a registered one is found. `no_dir` is what
/// the lookup answers when it finds none.
pub open spec fn tag_dir_lookup_outcome(
    s0: Seq<(Seq<char>, VirtualView)>,
    s1: Seq<(Seq<char>, VirtualView)>,
    tags: Seq<Seq<char>>,
    has_files: bool,
    r: Result<Option<TagEntry>, FsError>,
    no_dir: spec_fn(Result<Option<TagEntry>, FsError>) -> bool,
) -> bool {
    &&& r is Err ==> r == Err::<Option<TagEntry>, FsError>(FsError::Io) && s1 == s0
    &&& has_files && r is Ok ==> dir_entry(r) is Some && dir_lookup_post(s0, s1, tags, dir_entry(r))
    &&& !has_files && r is Ok ==> s1 == s0 && match find_node(s0, join_tags(canonical_of(tags)), true) {
        Some(i) => dir_entry(r) is Some && dir_entry(r).unwrap() == vino(i),
        None => no_dir(r),
    }
}

/// The tags of virtual directory `ino`, if it is one.
pub open spec fn dir_tags_at(s: Seq<(Seq<char>, VirtualView)>, ino: u64) -> Option<Seq<Seq<char>>> {
    if VIRTUAL_INODE_START <= ino < vino(s.len() as int) {
        match s[ino - VIRTUAL_INODE_START].1 {
            VirtualView::Dir(c) => Some(c),
            VirtualView::File(_) => None,
        }
    } else {
        None
    }
}

/// What looking up `name` in directory `parent` finds among the tag
/// directories, given the store `m` and the registry before (`s0`) and
/// after (`s1`).
///
/// `@tags` in the root is the tags directory. In `@tags`, a name is the
/// virtual directory of that one tag: found or registered when some file
/// has the tag, else found only if registered before. In a virtual
/// directory, a name is first the directory of the tags plus that name
/// (the same way); failing that, the files with all the directory's tags
/// are handed back to be matched by name. Anywhere else, nothing.
pub open spec fn tag_lookup_post(
    m: Map<Seq<u8>, Seq<u8>>,
    s0: Seq<(Seq<char>, VirtualView)>,
    s1: Seq<(Seq<char>, VirtualView)>,
    parent: u64,
    name: Seq<char>,
    r: Result<Option<TagEntry>, FsError>,
) -> bool {
    if parent == FUSE_ROOT_ID && name == seq!['@', 't', 'a', 'g', 's'] {
        r == Ok::<Option<TagEntry>, FsError>(Some(TagEntry::Dir(TAGS_DIR_ID))) && s1 == s0
    } else if parent == TAGS_DIR_ID {
        tag_dir_lookup_outcome(
            s0,
            s1,
            seq![name],
            tag_has_files(m, name),
            r,
            |r: Result<Option<TagEntry>, FsError>| r == Ok::<Option<TagEntry>, FsError>(None),
        )
    } else if dir_tags_at(s0, parent) is Some {
        let cur = dir_tags_at(s0, parent).unwrap();
        let next = canonical_of(cur.push(name));
        tag_dir_lookup_outcome(
            s0,
            s1,
            next,
            tags_have_files(m, next),
            r,
            |r: Result<Option<TagEntry>, FsError>|
                match r {
                    Ok(Some(TagEntry::Files(tags, ids))) => tags.deep_view() == cur && sorted_ids_all(
                        m,
                        cur,
                        ids@,
                    ),
                    _ => false,
                },
        )
    } else {
        r == Ok::<Option<TagEntry>, FsError>(None) && s1 == s0
    }
}

/// `ids` are, ascending, the inodes that have every one of `tags`.
pub open spec fn sorted_ids_all(m: Map<Seq<u8>, Seq<u8>>, tags: Seq<Seq<char>>, ids: Seq<u64>) -> bool {
    &&& crate::text::sorted_ids(ids)
    &&& forall|id: u64| #[trigger] ids.contains(id) <==> listed_under_all(m, normal_tag_set(tags), id)
}

impl TagRegistry {
    /// Looks `name` up in directory `parent` among the tag directories,
    /// registering the virtual directory it names when files have its
    /// tags; `Io` when the store cannot be read (or virtual inode numbers
    /// are exhausted).
    pub fn resolve_tag_lookup(&mut self, fm: &FileManager, parent: u64, name: &str) -> (r: Result<
        Option<TagEntry>,
        FsError,
    >)
        ensures
            tag_lookup_post(fm@, old(self)@, final(self)@, parent, name@, r),
    {
        let tags_word = string_of("@tags");
        proof {
            reveal_strlit("@tags");
            assert(tags_word@ =~= seq!['@', 't', 'a', 'g', 's']);
        }
        let name_s = String::from_str(name);
        if parent == FUSE_ROOT_ID && name_s == tags_word {
            return Ok(Some(TagEntry::Dir(TAGS_DIR_ID)));
        }
        if parent == TAGS_DIR_ID {
            let files = match fm.get_files_with_tag(name) {
                Ok(v) => v,
                Err(_) => return Err(FsError::Io),
            };
            let mut tags: Vec<String> = Vec::new();
            tags.push(name_s);
            assert(tags.deep_view() =~= seq![name@]);
            proof {
                if files@.len() > 0 {
                    assert(files@.to_set().contains(files@[0]));
                } else {
                    assert(files@.to_set() =~= Set::<u64>::empty());
                }
            }
            if files.len() == 0 {
                return match self.existing_tag_virtual_dir(tags.as_slice()) {
                    Some(v) => Ok(Some(TagEntry::Dir(v))),
                    None => Ok(None),
                };
            }
            return match self.get_or_create_tag_virtual_dir(tags.as_slice()) {
                Some(v) => Ok(Some(TagEntry::Dir(v))),
                None => Err(FsError::Io),
            };
        }
        let current = match self.get_virtual_dir_tags(parent) {
            Some(t) => t,
            None => return Ok(None),
        };
        let mut next = current.clone();
        proof {
            assert(next.deep_view() =~= current.deep_view()) by {
                assert forall|j: int| 0 <= j < next@.len() implies next.deep_view()[j] == current.deep_view()[j] by {
                    assert(vstd::pervasive::cloned::<String>(current@[j], next@[j]));
                }
            }
        }
        let ghost before = next.deep_view();
        next.push(name_s);
        assert(next.deep_view() =~= before.push(name@));
        let next = canonicalize_tags(next.as_slice());
        let matches = match fm.get_files_by_tags(next.as_slice()) {
            Ok(v) => v,
            Err(_) => return Err(FsError::Io),
        };
        proof {
            if matches@.len() > 0 {
                assert(matches@.contains(matches@[0]));
            } else {
                assert forall|id: u64| !listed_under_all(fm@, normal_tag_set(next.deep_view()), id) by {
                    assert(!matches@.contains(id));
                }
            }
        }
        if matches.len() > 0 {
            return match self.get_or_create_tag_virtual_dir(next.as_slice()) {
                Some(v) => Ok(Some(TagEntry::Dir(v))),
                None => Err(FsError::Io),
            };
        }
        match self.existing_tag_virtual_dir(next.as_slice()) {
            Some(v) => return Ok(Some(TagEntry::Dir(v))),
            None => {},
        }
        let candidates = match fm.get_files_by_tags(current.as_slice()) {
            Ok(v) => v,
            Err(_) => return Err(FsError::Io),
        };
        Ok(Some(TagEntry::Files(current, candidates)))
    }
}


/// The position of the first of `names` at or after `i` that is `name`.
pub open spec fn first_named(names: Seq<Option<Seq<char>>>, name: Seq<char>, i: int) -> Option<int>
    decreases names.len() - i,
{
    if i < 0 || i >= names.len() {
        None
    } else if names[i] == Some(name) {
        Some(i)
    } else {
        first_named(names, name, i + 1)
    }
}

/// The tags of the one-tag virtual directories.
pub open spec fn single_tag_dirs(s: Seq<(Seq<char>, VirtualView)>) -> Set<Seq<char>>
    decreases s.len(),
{
    if s.len() == 0 {
        Set::empty()
    } else {
        let rest = single_tag_dirs(s.drop_last());
        match s.last().1 {
            VirtualView::Dir(c) => if c.len() == 1 {
                rest.insert(c[0])
            } else {
                rest
            },
            VirtualView::File(_) => rest,
        }
    }
}

/// The tags that directory tags `c` add to `cur` when they are `cur` and
/// one tag more.
pub open spec fn dir_children(c: Seq<Seq<char>>, cur: Seq<Seq<char>>) -> Set<Seq<char>> {
    if c.len() == cur.len() + 1 && cur.to_set().subset_of(c.to_set()) {
        c.to_set().difference(cur.to_set())
    } else {
        Set::empty()
    }
}

/// The tags that registered virtual directories one level below `cur`
/// add to it.
pub open spec fn child_tag_dirs(s: Seq<(Seq<char>, VirtualView)>, cur: Seq<Seq<char>>) -> Set<Seq<char>>
    decreases s.len(),
{
    if s.len() == 0 {
        Set::empty()
    } else {
        child_tag_dirs(s.drop_last(), cur).union(
            match s.last().1 {
                VirtualView::Dir(c) => dir_children(c, cur),
                VirtualView::File(_) => Set::empty(),
            },
        )
    }
}

/// The tags that have an index entry.
pub open spec fn indexed_tags(m: Map<Seq<u8>, Seq<u8>>) -> Set<Seq<char>> {
    Set::new(|t: Seq<char>| m.contains_key(key_bytes(spec_tag_index_key(t))))
}

/// The tags one level below `cur` in the store: every indexed tag below
/// no tag, else the other tags of the inodes that have all of `cur`.
pub open spec fn stored_next_tags(m: Map<Seq<u8>, Seq<u8>>, cur: Seq<Seq<char>>) -> Set<Seq<char>> {
    if normal_tag_set(cur) == Set::<Seq<char>>::empty() {
        indexed_tags(m)
    } else {
        Set::new(|t: Seq<char>| next_level_tag(m, normal_tag_set(cur), t))
    }
}

/// The tags the store adds below `cur` when the inodes having all of `cur`
/// are read as `ids`: with no tag, every indexed tag; else each tag, not
/// among them, that one of `ids` has.
pub open spec fn stored_among(m: Map<Seq<u8>, Seq<u8>>, cur: Seq<Seq<char>>, ids: Seq<u64>) -> Set<Seq<char>> {
    if normal_tag_set(cur) == Set::<Seq<char>>::empty() {
        indexed_tags(m)
    } else {
        Set::new(|t: Seq<char>| tags_among(m, normal_tag_set(cur), ids, t))
    }
}

/// Read from exactly the inodes having all of `cur`, the tags below are
/// the store's next-level tags; read from none, there are none.
pub proof fn lemma_stored_among(m: Map<Seq<u8>, Seq<u8>>, cur: Seq<Seq<char>>, ids: Seq<u64>)
    ensures
        sorted_ids_all(m, cur, ids) ==> stored_among(m, cur, ids) == stored_next_tags(m, cur),
        ids.len() == 0 && normal_tag_set(cur) != Set::<Seq<char>>::empty() ==> stored_among(m, cur, ids)
            == Set::<Seq<char>>::empty(),
{
    if sorted_ids_all(m, cur, ids) && normal_tag_set(cur) != Set::<Seq<char>>::empty() {
        lemma_tags_among_exact(m, normal_tag_set(cur), ids);
        assert(stored_among(m, cur, ids) =~= stored_next_tags(m, cur));
    }
    if ids.len() == 0 && normal_tag_set(cur) != Set::<Seq<char>>::empty() {
        assert(stored_among(m, cur, ids) =~= Set::<Seq<char>>::empty());
    }
}

/// A tag directory that the store adds below non-empty tags means the
/// inodes having all of them were read in full: a reading that is either
/// empty or exact, and adds a directory, is exact.
pub proof fn lemma_added_dir_means_full_read(m: Map<Seq<u8>, Seq<u8>>, cur: Seq<Seq<char>>, ids: Seq<u64>, t: Seq<char>)
    requires
        normal_tag_set(cur) != Set::<Seq<char>>::empty(),
        ids.len() == 0 || sorted_ids_all(m, cur, ids),
        stored_among(m, cur, ids).contains(t),
    ensures
        sorted_ids_all(m, cur, ids),
        next_level_tag(m, normal_tag_set(cur), t),
{
    lemma_stored_among(m, cur, ids);
}

/// What picking the candidate named `name` among `ids` (with their live
/// names `nv`) gives, with the registry before (`s0`) and after (`s1`):
/// `None` when no candidate has that name; else the first such candidate
/// with the virtual file standing for it under `tags`, found or
/// registered, or `Io` with the registry unchanged.
pub open spec fn pick_post(
    s0: Seq<(Seq<char>, VirtualView)>,
    s1: Seq<(Seq<char>, VirtualView)>,
    tags: Seq<Seq<char>>,
    ids: Seq<u64>,
    nv: Seq<Option<Seq<char>>>,
    name: Seq<char>,
    r: Result<Option<(u64, u64)>, FsError>,
) -> bool {
    match first_named(nv, name, 0) {
        None => r == Ok::<Option<(u64, u64)>, FsError>(None) && s1 == s0,
        Some(i) => {
            &&& r is Err ==> r == Err::<Option<(u64, u64)>, FsError>(FsError::Io) && s1 == s0
            &&& r is Ok ==> r->Ok_0 is Some && r->Ok_0.unwrap().1 == ids[i] && file_lookup_post(
                s0,
                s1,
                tags,
                ids[i],
                Some(r->Ok_0.unwrap().0),
            )
        },
    }
}

impl TagRegistry {
    /// Of the candidate inodes `ids` (with their live names, `names`), the
    /// first named `name`, with the virtual file that stands for it under
    /// `tags` (found or registered): `(virtual inode, live inode)`; `None`
    /// when no candidate has that name; `Io` when virtual inode numbers are
    /// exhausted.
    pub fn pick_virtual_file(&mut self, tags: &Vec<String>, ids: &[u64], names: &[Option<String>], name: &str) -> (r: Result<
        Option<(u64, u64)>,
        FsError,
    >)
        requires
            ids@.len() == names@.len(),
        ensures
            pick_post(old(self)@, final(self)@, tags.deep_view(), ids@, name_views(names@), name@, r),
    {
        let ghost nv = name_views(names@);
        let wanted = String::from_str(name);
        let mut i: usize = 0;
        while i < ids.len()
            invariant
                i <= ids@.len(),
                ids@.len() == names@.len(),
                nv == name_views(names@),
                wanted@ == name@,
                self@ == old(self)@,
                first_named(nv, name@, 0) == first_named(nv, name@, i as int),
            decreases ids@.len() - i,
        {
            let hit = match &names[i] {
                Some(n) => {
                    assert(nv[i as int] == Some(n@));
                    *n == wanted
                },
                None => {
                    assert(nv[i as int] == None::<Seq<char>>);
                    false
                },
            };
            assert(hit == (nv[i as int] == Some(name@)));
            if hit {
                assert(first_named(nv, name@, i as int) == Some(i as int));
                let live = ids[i];
                return match self.get_or_create_tag_virtual_file(tags.as_slice(), live) {
                    Some(v) => Ok(Some((v, live))),
                    None => Err(FsError::Io),
                };
            }
            assert(first_named(nv, name@, i as int) == first_named(nv, name@, i + 1));
            i = i + 1;
        }
        assert(first_named(nv, name@, i as int) is None);
        Ok(None)
    }

    /// The names `@tags` lists, ascending: the tags in the index (none
    /// when the store cannot be read) and those of registered one-tag
    /// virtual directories (see `listed_top_level_tags`).
    pub fn top_level_tags(&self, fm: &FileManager) -> (out: Vec<String>)
        ensures
            sorted_texts(out.deep_view()),
            out.deep_view().to_set() == single_tag_dirs(self@).union(indexed_tags(fm@)) || out.deep_view().to_set()
                == single_tag_dirs(self@),
    {
        let none: Vec<String> = Vec::new();
        assert(none.deep_view() =~= Seq::<Seq<char>>::empty());
        assert(normal_tag_set(none.deep_view()) =~= Set::<Seq<char>>::empty());
        let stored = match fm.get_next_level_tags(none.as_slice()) {
            Ok(v) => v,
            Err(_) => Vec::new(),
        };
        let ghost base = stored.deep_view().to_set();
        assert(base == indexed_tags(fm@) || base == Set::<Seq<char>>::empty()) by {
            if stored@.len() == 0 {
                assert(base =~= Set::<Seq<char>>::empty());
            } else {
                assert(base =~= indexed_tags(fm@));
            }
        }
        proof {
            if stored@.len() == 0 {
                assert(sorted_texts(stored.deep_view()));
            }
        }
        let out = self.listed_top_level_tags(stored);
        proof {
            if base == indexed_tags(fm@) {
                assert(out.deep_view().to_set() =~= single_tag_dirs(self@).union(indexed_tags(fm@)));
            } else {
                assert(out.deep_view().to_set() =~= single_tag_dirs(self@));
            }
        }
        out
    }

    /// The names `@tags` lists when the store lists the tags `stored`
    /// (ascending): those and the tags of registered one-tag virtual
    /// directories, ascending.
    pub fn listed_top_level_tags(&self, stored: Vec<String>) -> (out: Vec<String>)
        requires
            sorted_texts(stored.deep_view()),
        ensures
            sorted_texts(out.deep_view()),
            out.deep_view().to_set() == stored.deep_view().to_set().union(single_tag_dirs(self@)),
    {
        let mut out = stored;
        let ghost base = out.deep_view().to_set();
        let ghost s = self@;
        assert(single_tag_dirs(s.take(0)) =~= Set::<Seq<char>>::empty()) by {
            assert(s.take(0) =~= Seq::<(Seq<char>, VirtualView)>::empty());
        }
        assert(out.deep_view().to_set() =~= base.union(single_tag_dirs(s.take(0))));
        let mut i: usize = 0;
        while i < self.nodes.len()
            invariant
                i <= self.nodes@.len(),
                s == self@,
                sorted_texts(out.deep_view()),
                out.deep_view().to_set() == base.union(single_tag_dirs(s.take(i as int))),
            decreases self.nodes@.len() - i,
        {
            assert(s.take(i + 1).drop_last() =~= s.take(i as int));
            assert(s[i as int] == node_view(self.nodes@[i as int]));
            match &self.nodes[i].kind {
                VirtualKind::Dir(ctx) => {
                    if ctx.tags.len() == 1 {
                        let t = ctx.tags[0].clone();
                        assert(t@ == ctx.tags.deep_view()[0]);
                        insert_text_sorted(&mut out, t);
                    }
                },
                VirtualKind::File(_) => {},
            }
            assert(out.deep_view().to_set() =~= base.union(single_tag_dirs(s.take(i + 1))));
            i = i + 1;
        }
        assert(s.take(s.len() as int) =~= s);
        out
    }

    /// The tag names virtual directory tags `current` lists, ascending: the
    /// next-level tags in the store (none when it cannot be read) and the
    /// tags that registered virtual directories one level below add.
    pub fn child_tags(&self, fm: &FileManager, current: &Vec<String>) -> (out: Vec<String>)
        ensures
            sorted_texts(out.deep_view()),
            out.deep_view().to_set() == child_tag_dirs(self@, current.deep_view()).union(
                stored_next_tags(fm@, current.deep_view()),
            ) || out.deep_view().to_set() == child_tag_dirs(self@, current.deep_view()),
    {
        let ghost cur = current.deep_view();
        let stored = match fm.get_next_level_tags(current.as_slice()) {
            Ok(v) => v,
            Err(_) => Vec::new(),
        };
        let ghost base = stored.deep_view().to_set();
        assert(base == stored_next_tags(fm@, cur) || base == Set::<Seq<char>>::empty()) by {
            if stored@.len() == 0 {
                assert(base =~= Set::<Seq<char>>::empty());
            } else if normal_tag_set(cur) == Set::<Seq<char>>::empty() {
                assert(base =~= stored_next_tags(fm@, cur));
            } else {
                assert(base =~= stored_next_tags(fm@, cur));
            }
        }
        proof {
            if stored@.len() == 0 {
                assert(sorted_texts(stored.deep_view()));
            }
        }
        let out = self.listed_child_tags(current, stored);
        proof {
            if base == stored_next_tags(fm@, cur) {
                assert(out.deep_view().to_set() =~= child_tag_dirs(self@, cur).union(stored_next_tags(fm@, cur)));
            } else {
                assert(out.deep_view().to_set() =~= child_tag_dirs(self@, cur));
            }
        }
        out
    }

    /// The tag names virtual directory tags `current` lists when the store
    /// gives the next-level tags `stored` (ascending): those and the tags
    /// that registered virtual directories one level below add, ascending.
    pub fn listed_child_tags(&self, current: &Vec<String>, stored: Vec<String>) -> (out: Vec<String>)
        requires
            sorted_texts(stored.deep_view()),
        ensures
            sorted_texts(out.deep_view()),
            out.deep_view().to_set() == stored.deep_view().to_set().union(child_tag_dirs(self@, current.deep_view())),
    {
        let ghost cur = current.deep_view();
        let mut out = stored;
        let ghost base = out.deep_view().to_set();
        let ghost s = self@;
        assert(child_tag_dirs(s.take(0), cur) =~= Set::<Seq<char>>::empty()) by {
            assert(s.take(0) =~= Seq::<(Seq<char>, VirtualView)>::empty());
        }
        assert(out.deep_view().to_set() =~= base.union(child_tag_dirs(s.take(0), cur)));
        let mut i: usize = 0;
        while i < self.nodes.len()
            invariant
                i <= self.nodes@.len(),
                s == self@,
                cur == current.deep_view(),
                sorted_texts(out.deep_view()),
                out.deep_view().to_set() == base.union(child_tag_dirs(s.take(i as int), cur)),
            decreases self.nodes@.len() - i,
        {
            assert(s.take(i + 1).drop_last() =~= s.take(i as int));
            assert(s[i as int] == node_view(self.nodes@[i as int]));
            let ghost before = out.deep_view().to_set();
            match &self.nodes[i].kind {
                VirtualKind::Dir(ctx) => {
                    let ghost c = ctx.tags.deep_view();
                    if ctx.tags.len() > 0 && ctx.tags.len() - 1 == current.len() {
                        let mut all_in = true;
                        let mut j: usize = 0;
                        while j < current.len()
                            invariant
                                j <= current@.len(),
                                cur == current.deep_view(),
                                c == ctx.tags.deep_view(),
                                all_in == forall|k: int| 0 <= k < j ==> #[trigger] c.contains(cur[k]),
                            decreases current@.len() - j,
                        {
                            assert(current@[j as int]@ == cur[j as int]);
                            if !contains_text(&ctx.tags, &current[j]) {
                                all_in = false;
                            }
                            j = j + 1;
                        }
                        assert(all_in == cur.to_set().subset_of(c.to_set())) by {
                            if all_in {
                                assert forall|x: Seq<char>| cur.to_set().contains(x) implies c.to_set().contains(x) by {
                                    let k = choose|k: int| 0 <= k < cur.len() && cur[k] == x;
                                    assert(c.contains(cur[k]));
                                }
                            } else {
                                let k = choose|k: int| 0 <= k < cur.len() && !#[trigger] c.contains(cur[k]);
                                assert(cur.to_set().contains(cur[k]));
                            }
                        }
                        if all_in {
                            let mut j: usize = 0;
                            while j < ctx.tags.len()
                                invariant
                                    j <= c.len(),
                                    c == ctx.tags.deep_view(),
                                    cur == current.deep_view(),
                                    sorted_texts(out.deep_view()),
                                    out.deep_view().to_set() == before.union(
                                        c.take(j as int).to_set().difference(cur.to_set()),
                                    ),
                                decreases c.len() - j,
                            {
                                let t = ctx.tags[j].clone();
                                assert(t@ == c[j as int]);
                                assert(c.take(j + 1) =~= c.take(j as int).push(c[j as int]));
                                proof {
                                    lemma_push_to_set(c.take(j as int), c[j as int]);
                                }
                                if !contains_text(current, &t) {
                                    insert_text_sorted(&mut out, t);
                                    assert(out.deep_view().to_set() =~= before.union(
                                        c.take(j + 1).to_set().difference(cur.to_set()),
                                    ));
                                } else {
                                    assert(out.deep_view().to_set() =~= before.union(
                                        c.take(j + 1).to_set().difference(cur.to_set()),
                                    ));
                                }
                                j = j + 1;
                            }
                            assert(c.take(c.len() as int) =~= c);
                        }
                    }
                },
                VirtualKind::File(_) => {},
            }
            assert(out.deep_view().to_set() =~= base.union(child_tag_dirs(s.take(i + 1), cur)));
            i = i + 1;
        }
        assert(s.take(s.len() as int) =~= s);
        out
    }
}


/// `s1` is `s0` with nodes appended.
pub open spec fn extends(s0: Seq<(Seq<char>, VirtualView)>, s1: Seq<(Seq<char>, VirtualView)>) -> bool {
    s0.len() <= s1.len() && s1.take(s0.len() as int) == s0
}

/// Appending nodes moves no node: what was found is found at the same
/// position.
pub proof fn lemma_extends_keeps_found(
    s0: Seq<(Seq<char>, VirtualView)>,
    s1: Seq<(Seq<char>, VirtualView)>,
    k: Seq<char>,
    dir: bool,
)
    requires
        extends(s0, s1),
        find_node(s0, k, dir) is Some,
    ensures
        find_node(s1, k, dir) == find_node(s0, k, dir),
{
    lemma_find_from(s0, k, dir, 0);
    let i = find_node(s0, k, dir).unwrap();
    assert(s1[i] == s1.take(s0.len() as int)[i]);
    assert forall|j: int| 0 <= j < i implies !node_has(#[trigger] s1[j], k, dir) by {
        assert(s1[j] == s1.take(s0.len() as int)[j]);
    }
    lemma_find_first(s1, k, dir, i);
}

/// A directory lookup only ever appends to the registry.
proof fn lemma_dir_lookup_extends(
    s0: Seq<(Seq<char>, VirtualView)>,
    s1: Seq<(Seq<char>, VirtualView)>,
    tags: Seq<Seq<char>>,
    r: Option<u64>,
)
    requires
        dir_lookup_post(s0, s1, tags, r),
    ensures
        extends(s0, s1),
{
    assert(s0.take(s0.len() as int) =~= s0);
    if s1 != s0 {
        assert(s1.take(s0.len() as int) =~= s0);
    }
}

/// A file lookup only ever appends to the registry.
proof fn lemma_file_lookup_extends(
    s0: Seq<(Seq<char>, VirtualView)>,
    s1: Seq<(Seq<char>, VirtualView)>,
    tags: Seq<Seq<char>>,
    live: u64,
    r: Option<u64>,
)
    requires
        file_lookup_post(s0, s1, tags, live, r),
    ensures
        extends(s0, s1),
{
    assert(s0.take(s0.len() as int) =~= s0);
    if s1 != s0 {
        assert(s1.take(s0.len() as int) =~= s0);
    }
}

/// Appending is transitive.
proof fn lemma_extends_trans(
    a: Seq<(Seq<char>, VirtualView)>,
    b: Seq<(Seq<char>, VirtualView)>,
    c: Seq<(Seq<char>, VirtualView)>,
)
    requires
        extends(a, b),
        extends(b, c),
    ensures
        extends(a, c),
{
    assert(c.take(a.len() as int) =~= b.take(a.len() as int));
}

/// The entries that list virtual directories: each is a tag name with the
/// virtual directory that `base` plus that tag names in the registry `s`.
pub open spec fn dir_entries_found(
    s: Seq<(Seq<char>, VirtualView)>,
    base: Seq<Seq<char>>,
    entries: Seq<(u64, Seq<char>)>,
) -> bool {
    forall|j: int|
        0 <= j < entries.len() ==> find_node(
            s,
            join_tags(canonical_of(base.push(#[trigger] entries[j].1))),
            true,
        ) == Some(entries[j].0 - VIRTUAL_INODE_START)
}

/// Entries as plain values.
pub open spec fn entry_views(v: Seq<(u64, String)>) -> Seq<(u64, Seq<char>)> {
    v.map_values(|e: (u64, String)| (e.0, e.1@))
}

impl TagRegistry {
    /// The virtual directories for `base` plus each of `names`, in order,
    /// found or registered; `Io` when virtual inode numbers are exhausted.
    fn dir_entries_for(&mut self, base: &Vec<String>, names: Vec<String>) -> (r: Result<Vec<(u64, String)>, FsError>)
        ensures
            extends(old(self)@, final(self)@),
            r is Err ==> r == Err::<Vec<(u64, String)>, FsError>(FsError::Io),
            r matches Ok(v) ==> entry_views(v@).map_values(|e: (u64, Seq<char>)| e.1) == names.deep_view()
                && dir_entries_found(final(self)@, base.deep_view(), entry_views(v@)),
    {
        let ghost s0 = self@;
        let ghost b = base.deep_view();
        let mut out: Vec<(u64, String)> = Vec::new();
        let mut i: usize = 0;
        proof {
            assert(s0.take(s0.len() as int) =~= s0);
        }
        while i < names.len()
            invariant
                i <= names@.len(),
                b == base.deep_view(),
                s0 == old(self)@,
                extends(s0, self@),
                out@.len() == i,
                entry_views(out@).map_values(|e: (u64, Seq<char>)| e.1) == names.deep_view().take(i as int),
                dir_entries_found(self@, b, entry_views(out@)),
            decreases names@.len() - i,
        {
            let tag = names[i].clone();
            let mut extended = base.clone();
            proof {
                assert(extended.deep_view() =~= b) by {
                    assert forall|j: int| 0 <= j < extended@.len() implies extended.deep_view()[j] == b[j] by {
                        assert(vstd::pervasive::cloned::<String>(base@[j], extended@[j]));
                    }
                }
            }
            let ghost before = extended.deep_view();
            extended.push(tag.clone());
            assert(extended.deep_view() =~= before.push(tag@));
            let ghost s_prev = self@;
            let ghost ev_prev = entry_views(out@);
            match self.get_or_create_tag_virtual_dir(extended.as_slice()) {
                Some(v) => {
                    proof {
                        lemma_dir_lookup_extends(s_prev, self@, extended.deep_view(), Some(v));
                        lemma_extends_trans(s0, s_prev, self@);
                        lemma_virtual_dir_stable(s_prev, self@, extended.deep_view(), v);
                        assert forall|j: int| 0 <= j < ev_prev.len() implies find_node(
                            self@,
                            join_tags(canonical_of(b.push(#[trigger] ev_prev[j].1))),
                            true,
                        ) == Some(ev_prev[j].0 - VIRTUAL_INODE_START) by {
                            lemma_extends_keeps_found(
                                s_prev,
                                self@,
                                join_tags(canonical_of(b.push(ev_prev[j].1))),
                                true,
                            );
                        }
                    }
                    out.push((v, tag));
                    proof {
                        let ev = entry_views(out@);
                        assert(ev =~= ev_prev.push((v, tag@)));
                        assert(ev.map_values(|e: (u64, Seq<char>)| e.1) =~= names.deep_view().take(i + 1));
                        assert forall|j: int| 0 <= j < ev.len() implies find_node(
                            self@,
                            join_tags(canonical_of(b.push(#[trigger] ev[j].1))),
                            true,
                        ) == Some(ev[j].0 - VIRTUAL_INODE_START) by {
                            if j < ev_prev.len() {
                                assert(ev[j] == ev_prev[j]);
                            }
                        }
                    }
                },
                None => return Err(FsError::Io),
            }
            i = i + 1;
        }
        assert(names.deep_view().take(names@.len() as int) =~= names.deep_view());
        Ok(out)
    }

    /// The entries of `@tags`: each tag it lists (see `top_level_tags`),
    /// ascending, with its virtual directory, found or registered; `Io`
    /// when virtual inode numbers are exhausted.
    pub fn tags_dir_entries(&mut self, fm: &FileManager) -> (r: Result<Vec<(u64, String)>, FsError>)
        ensures
            dir_listing_post(old(self)@, final(self)@, Seq::empty(), single_tag_dirs(old(self)@), indexed_tags(fm@), r),
    {
        let names = self.top_level_tags(fm);
        let base: Vec<String> = Vec::new();
        assert(base.deep_view() =~= Seq::<Seq<char>>::empty());
        self.dir_entries_for(&base, names)
    }

    /// The directory entries of virtual directory tags `current`: each tag
    /// it lists (see `child_tags`), ascending, with the virtual directory
    /// for `current` plus that tag, found or registered; `Io` when virtual
    /// inode numbers are exhausted.
    pub fn child_dir_entries(&mut self, fm: &FileManager, current: &Vec<String>) -> (r: Result<Vec<(u64, String)>, FsError>)
        ensures
            dir_listing_post(
                old(self)@,
                final(self)@,
                current.deep_view(),
                child_tag_dirs(old(self)@, current.deep_view()),
                stored_next_tags(fm@, current.deep_view()),
                r,
            ),
    {
        let names = self.child_tags(fm, current);
        self.dir_entries_for(current, names)
    }

    /// The directory entries of virtual directory tags `current` when the
    /// inodes having all of them were read as `ids`: as `child_dir_entries`,
    /// with the store's tags taken from those inodes.
    pub fn child_dir_entries_among(&mut self, fm: &FileManager, current: &Vec<String>, ids: &Vec<u64>) -> (r: Result<
        Vec<(u64, String)>,
        FsError,
    >)
        ensures
            dir_listing_post(
                old(self)@,
                final(self)@,
                current.deep_view(),
                child_tag_dirs(old(self)@, current.deep_view()),
                stored_among(fm@, current.deep_view(), ids@),
                r,
            ),
    {
        let ghost cur = current.deep_view();
        let stored = match fm.next_level_tags_among(current.as_slice(), ids) {
            Ok(v) => v,
            Err(_) => Vec::new(),
        };
        let ghost base = stored.deep_view().to_set();
        assert(base == stored_among(fm@, cur, ids@) || base == Set::<Seq<char>>::empty()) by {
            if stored@.len() == 0 {
                assert(base =~= Set::<Seq<char>>::empty());
            } else {
                assert(base =~= stored_among(fm@, cur, ids@));
            }
        }
        proof {
            if stored@.len() == 0 {
                assert(sorted_texts(stored.deep_view()));
            }
        }
        let names = self.listed_child_tags(current, stored);
        proof {
            if base == stored_among(fm@, cur, ids@) {
                assert(names.deep_view().to_set() =~= child_tag_dirs(self@, cur).union(stored_among(fm@, cur, ids@)));
            } else {
                assert(names.deep_view().to_set() =~= child_tag_dirs(self@, cur));
            }
        }
        self.dir_entries_for(current, names)
    }

    /// The file entries of a virtual directory with tags `tags`: each
    /// candidate inode of `ids` that has a live name (`names`), in order,
    /// with that name and the virtual file standing for it, found or
    /// registered (see `files_listing_post`); `Io` when virtual inode
    /// numbers are exhausted.
    pub fn file_entries(&mut self, tags: &Vec<String>, ids: &[u64], names: &[Option<String>]) -> (r: Result<
        Vec<(u64, String)>,
        FsError,
    >)
        requires
            ids@.len() == names@.len(),
        ensures
            files_listing_post(old(self)@, final(self)@, tags.deep_view(), ids@, name_views(names@), r),
    {
        let ghost s0 = self@;
        let ghost t = tags.deep_view();
        let ghost nv = name_views(names@);
        let mut out: Vec<(u64, String)> = Vec::new();
        let mut i: usize = 0;
        proof {
            assert(s0.take(s0.len() as int) =~= s0);
            assert(ids@.take(0) =~= Seq::<u64>::empty());
        }
        while i < ids.len()
            invariant
                i <= ids@.len(),
                ids@.len() == names@.len(),
                t == tags.deep_view(),
                nv == name_views(names@),
                s0 == old(self)@,
                extends(s0, self@),
                files_listed(self@, t, named_files(ids@.take(i as int), nv.take(i as int)), entry_views(out@)),
            decreases ids@.len() - i,
        {
            let ghost nf = named_files(ids@.take(i as int), nv.take(i as int));
            proof {
                assert(ids@.take(i + 1).drop_last() =~= ids@.take(i as int));
                assert(nv.take(i + 1).drop_last() =~= nv.take(i as int));
                assert(nv.take(i + 1).last() == nv[i as int]);
                assert(ids@.take(i + 1).last() == ids@[i as int]);
            }
            match &names[i] {
                Some(n) => {
                    let ghost s_prev = self@;
                    let ghost out_prev = entry_views(out@);
                    assert(nv[i as int] == Some(n@));
                    match self.get_or_create_tag_virtual_file(tags.as_slice(), ids[i]) {
                        Some(v) => {
                            proof {
                                lemma_file_lookup_extends(s_prev, self@, t, ids@[i as int], Some(v));
                                lemma_extends_trans(s0, s_prev, self@);
                                lemma_virtual_file_stable(s_prev, self@, t, ids@[i as int], v);
                                assert(files_listed(s_prev, t, nf, out_prev));
                                assert forall|j: int| 0 <= j < out_prev.len() implies find_node(
                                    self@,
                                    spec_tag_file_key(canonical_of(t), nf[j].0),
                                    false,
                                ) == Some(#[trigger] out_prev[j].0 - VIRTUAL_INODE_START) by {
                                    assert(out_prev[j].1 == nf[j].1);
                                    lemma_extends_keeps_found(
                                        s_prev,
                                        self@,
                                        spec_tag_file_key(canonical_of(t), nf[j].0),
                                        false,
                                    );
                                }
                            }
                            let name = n.clone();
                            assert(name@ == n@);
                            out.push((v, name));
                            proof {
                                let nf2 = named_files(ids@.take(i + 1), nv.take(i + 1));
                                assert(nf2 == nf.push((ids@[i as int], n@)));
                                let ev = entry_views(out@);
                                assert(ev.len() == out_prev.len() + 1);
                                assert forall|j: int| 0 <= j < ev.len() implies (#[trigger] ev[j]).1 == nf2[j].1 && find_node(
                                    self@,
                                    spec_tag_file_key(canonical_of(t), nf2[j].0),
                                    false,
                                ) == Some(ev[j].0 - VIRTUAL_INODE_START) by {
                                    if j < out_prev.len() {
                                        assert(ev[j] == out_prev[j]);
                                    }
                                }
                            }
                        },
                        None => return Err(FsError::Io),
                    }
                },
                None => {
                    proof {
                        assert(nv[i as int] == None::<Seq<char>>);
                        assert(named_files(ids@.take(i + 1), nv.take(i + 1)) == nf);
                    }
                },
            }
            i = i + 1;
        }
        proof {
            assert(ids@.take(ids@.len() as int) =~= ids@);
            assert(nv.take(ids@.len() as int) =~= nv);
        }
        Ok(out)
    }
}

/// The candidates of `ids` that have a live name (`nv`), in order, each
/// with that name.
pub open spec fn named_files(ids: Seq<u64>, nv: Seq<Option<Seq<char>>>) -> Seq<(u64, Seq<char>)>
    decreases ids.len(),
{
    if ids.len() == 0 {
        Seq::empty()
    } else {
        let rest = named_files(ids.drop_last(), nv.drop_last());
        match nv.last() {
            Some(n) => rest.push((ids.last(), n)),
            None => rest,
        }
    }
}

/// The entries `ev` are, one for one, the named candidates `nf`, each
/// under the virtual file that stands for it under `tags` in `s`.
pub open spec fn files_listed(
    s: Seq<(Seq<char>, VirtualView)>,
    tags: Seq<Seq<char>>,
    nf: Seq<(u64, Seq<char>)>,
    ev: Seq<(u64, Seq<char>)>,
) -> bool {
    &&& ev.len() == nf.len()
    &&& forall|j: int|
        0 <= j < ev.len() ==> (#[trigger] ev[j]).1 == nf[j].1 && find_node(
            s,
            spec_tag_file_key(canonical_of(tags), nf[j].0),
            false,
        ) == Some(ev[j].0 - VIRTUAL_INODE_START)
}

/// What listing the files of a virtual directory with tags `tags` gives,
/// over candidates `ids` with live names `nv`, the registry before (`s0`)
/// and after (`s1`): the registry only grows; `Io`, or one entry per named
/// candidate, in order (see `files_listed`).
pub open spec fn files_listing_post(
    s0: Seq<(Seq<char>, VirtualView)>,
    s1: Seq<(Seq<char>, VirtualView)>,
    tags: Seq<Seq<char>>,
    ids: Seq<u64>,
    nv: Seq<Option<Seq<char>>>,
    r: Result<Vec<(u64, String)>, FsError>,
) -> bool {
    &&& extends(s0, s1)
    &&& r is Err ==> r == Err::<Vec<(u64, String)>, FsError>(FsError::Io)
    &&& r matches Ok(v) ==> files_listed(s1, tags, named_files(ids, nv), entry_views(v@))
}

/// What listing the tag directories below `cur` gives, with the registry
/// before (`s0`) and after (`s1`), when `registered` are the tags that
/// registered directories add and `stored` those the store adds: the
/// registry only grows; `Io`, or the names ascending, either all of both
/// or (the store unreadable) the registered ones, each with its virtual
/// directory.
pub open spec fn dir_listing_post(
    s0: Seq<(Seq<char>, VirtualView)>,
    s1: Seq<(Seq<char>, VirtualView)>,
    cur: Seq<Seq<char>>,
    registered: Set<Seq<char>>,
    stored: Set<Seq<char>>,
    r: Result<Vec<(u64, String)>, FsError>,
) -> bool {
    &&& extends(s0, s1)
    &&& r is Err ==> r == Err::<Vec<(u64, String)>, FsError>(FsError::Io)
    &&& r matches Ok(v) ==> ({
        let names = entry_views(v@).map_values(|e: (u64, Seq<char>)| e.1);
        &&& sorted_texts(names)
        &&& names.to_set() == registered.union(stored) || names.to_set() == registered
        &&& dir_entries_found(s1, cur, entry_views(v@))
    })
}

} // verus!
