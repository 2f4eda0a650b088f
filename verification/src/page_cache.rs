//! The write-back page cache: whole-file buffers keyed by inode, each
//! marked dirty once written, with a least-recently-used order that picks
//! the buffers to flush and drop when the cache holds more than its
//! capacity.
use vstd::prelude::*;
use std::collections::HashMap;
use std::collections::VecDeque;

verus! {

broadcast use vstd::std_specs::hash::group_hash_axioms;

/// The number of buffers the cache keeps before it evicts.
pub const PAGE_CACHE_CAPACITY: usize = 1024;

/// The page cache.
pub struct PageCache {
    entries: HashMap<u64, (Vec<u8>, bool)>,
    lru: VecDeque<u64>,
    capacity: usize,
}

/// A cached buffer as plain values: its bytes and whether it is dirty.
pub open spec fn entry_view(e: (Vec<u8>, bool)) -> (Seq<u8>, bool) {
    (e.0@, e.1)
}


/// The buffer of `ino`, empty where the cache has none.
pub open spec fn buffer_of(m: Map<u64, (Seq<u8>, bool)>, ino: u64) -> Seq<u8> {
    if m.contains_key(ino) {
        m[ino].0
    } else {
        Seq::empty()
    }
}

/// `n` zero bytes.
pub open spec fn zeros(n: nat) -> Seq<u8> {
    Seq::new(n, |i: int| 0u8)
}

/// `base` cut, or grown with zero bytes, to `len` bytes.
pub open spec fn resized(base: Seq<u8>, len: nat) -> Seq<u8> {
    if len <= base.len() {
        base.take(len as int)
    } else {
        base + zeros((len - base.len()) as nat)
    }
}

/// `base` with `data` written at `offset`; where the write ends past the
/// buffer, the buffer first grows with zero bytes to the write's end.
pub open spec fn overlay(base: Seq<u8>, offset: nat, data: Seq<u8>) -> Seq<u8> {
    let grown = if offset + data.len() > base.len() {
        resized(base, offset + data.len())
    } else {
        base
    };
    grown.take(offset as int) + data + grown.skip((offset + data.len()) as int)
}

/// What a read of at most `size` bytes at `offset` gives: the bytes from
/// `offset` to the end of the read or of the buffer, nothing from at or
/// past the end.
pub open spec fn read_window(data: Seq<u8>, offset: nat, size: nat) -> Seq<u8> {
    if offset < data.len() {
        if offset + size < data.len() {
            data.subrange(offset as int, (offset + size) as int)
        } else {
            data.skip(offset as int)
        }
    } else {
        Seq::empty()
    }
}

/// The recency order with `ino` taken out.
pub open spec fn without(order: Seq<u64>, ino: u64) -> Seq<u64> {
    order.filter(|x: u64| x != ino)
}

/// The position of the first inode at or after `i` in `order` that has a
/// buffer in `m`.
pub open spec fn first_cached(order: Seq<u64>, m: Map<u64, (Seq<u8>, bool)>, i: int) -> Option<int>
    decreases order.len() - i,
{
    if i < 0 || i >= order.len() {
        None
    } else if m.contains_key(order[i]) {
        Some(i)
    } else {
        first_cached(order, m, i + 1)
    }
}

/// What `first_cached` finds: the first inode with a buffer at or after
/// `i`, or none.
proof fn lemma_first_cached(order: Seq<u64>, m: Map<u64, (Seq<u8>, bool)>, i: int)
    requires
        0 <= i,
    ensures
        match first_cached(order, m, i) {
            Some(k) => i <= k < order.len() && m.contains_key(order[k]) && forall|j: int|
                i <= j < k ==> !m.contains_key(#[trigger] order[j]),
            None => forall|j: int| i <= j < order.len() ==> !m.contains_key(#[trigger] order[j]),
        },
    decreases order.len() - i,
{
    if i < order.len() && !m.contains_key(order[i]) {
        lemma_first_cached(order, m, i + 1);
    }
}

/// Taking an inode out of the order keeps every other inode, in order,
/// and nothing else.
proof fn lemma_without_step(s: Seq<u64>, ino: u64, x: u64)
    ensures
        without(s.push(x), ino) == if x != ino {
            without(s, ino).push(x)
        } else {
            without(s, ino)
        },
{
    reveal(Seq::filter);
    assert(s.push(x).drop_last() =~= s);
}

/// What is left after taking `ino` out holds no `ino` and only inodes of
/// `s`, each as often as there.
pub proof fn lemma_without_facts(s: Seq<u64>, ino: u64)
    ensures
        !without(s, ino).contains(ino),
        forall|x: u64| #[trigger] without(s, ino).contains(x) ==> s.contains(x),
        s.no_duplicates() ==> without(s, ino).no_duplicates(),
    decreases s.len(),
{
    if s.len() > 0 {
        let p = s.drop_last();
        let x = s.last();
        assert(p.push(x) =~= s);
        lemma_without_facts(p, ino);
        lemma_without_step(p, ino, x);
        assert forall|y: u64| #[trigger] without(s, ino).contains(y) implies s.contains(y) by {
            if without(p, ino).contains(y) {
                let j = choose|j: int| 0 <= j < p.len() && p[j] == y;
                assert(s[j] == y);
            } else {
                assert(y == x);
                assert(s[s.len() - 1] == y);
            }
        }
        if s.no_duplicates() {
            assert(p.no_duplicates()) by {
                assert forall|a: int, b: int| 0 <= a < p.len() && 0 <= b < p.len() && a != b implies p[a] != p[b] by {
                    assert(s[a] == p[a] && s[b] == p[b]);
                }
            }
            if x != ino {
                assert(!p.contains(x)) by {
                    if p.contains(x) {
                        let j = choose|j: int| 0 <= j < p.len() && p[j] == x;
                        assert(s[j] == s[s.len() - 1]);
                    }
                }
                assert(!without(p, ino).contains(x));
                let w = without(s, ino);
                assert forall|a: int, b: int| 0 <= a < w.len() && 0 <= b < w.len() && a != b implies w[a] != w[b] by {
                    if a < w.len() - 1 && b < w.len() - 1 {
                        assert(w[a] == without(p, ino)[a] && w[b] == without(p, ino)[b]);
                    } else if a == w.len() - 1 {
                        assert(without(p, ino).contains(w[b]));
                    } else {
                        assert(without(p, ino).contains(w[a]));
                    }
                }
            }
        }
    } else {
        reveal(Seq::filter);
    }
}

/// A read of the bytes just written gives them back, and a write leaves
/// every other byte of the buffer as it was; the buffer ends at the later
/// of its old end and the write's end.
pub proof fn lemma_read_after_write(base: Seq<u8>, offset: nat, data: Seq<u8>)
    ensures
        read_window(overlay(base, offset, data), offset, data.len()) == data,
        overlay(base, offset, data).len() == if offset + data.len() > base.len() {
            (offset + data.len()) as int
        } else {
            base.len() as int
        },
        forall|i: int|
            0 <= i < base.len() && !(offset <= i < offset + data.len()) ==> #[trigger] overlay(
                base,
                offset,
                data,
            )[i] == base[i],
        forall|i: int|
            base.len() <= i < offset ==> #[trigger] overlay(base, offset, data)[i] == 0u8,
{
    let o = overlay(base, offset, data);
    let end = offset + data.len();
    if data.len() > 0 {
        assert(o.subrange(offset as int, end as int) =~= data);
        if end >= o.len() {
            assert(o.skip(offset as int) =~= data);
        }
    } else {
        if offset < o.len() {
            assert(o.subrange(offset as int, offset as int) =~= data);
        }
    }
}

/// A resized buffer has the asked length, keeps the bytes it had below
/// it, and is zero past the old end.
pub proof fn lemma_resized(base: Seq<u8>, len: nat)
    ensures
        resized(base, len).len() == len,
        forall|i: int| 0 <= i < len && i < base.len() ==> #[trigger] resized(base, len)[i] == base[i],
        forall|i: int| base.len() <= i < len ==> #[trigger] resized(base, len)[i] == 0u8,
{
}

impl View for PageCache {
    type V = (Map<u64, (Seq<u8>, bool)>, Seq<u64>);

    /// The buffers by inode, and the recency order, least recent first.
    closed spec fn view(&self) -> (Map<u64, (Seq<u8>, bool)>, Seq<u64>) {
        (self.entries@.map_values(|e: (Vec<u8>, bool)| entry_view(e)), self.lru@)
    }
}

impl PageCache {
    /// The capacity the cache was made with.
    pub closed spec fn spec_capacity(&self) -> nat {
        self.capacity as nat
    }

    /// The recency order holds each inode at most once.
    #[verifier::type_invariant]
    closed spec fn inv(self) -> bool {
        self.lru@.no_duplicates()
    }

    /// `order` with every `ino` taken out, in order.
    fn order_without(order: &VecDeque<u64>, ino: u64) -> (out: VecDeque<u64>)
        ensures
            out@ == without(order@, ino),
    {
        let mut out: VecDeque<u64> = VecDeque::new();
        let mut i: usize = 0;
        while i < order.len()
            invariant
                i <= order@.len(),
                out@ == without(order@.take(i as int), ino),
            decreases order@.len() - i,
        {
            let x = order[i];
            proof {
                assert(order@.take(i + 1) =~= order@.take(i as int).push(x));
                lemma_without_step(order@.take(i as int), ino, x);
            }
            if x != ino {
                out.push_back(x);
            }
            i = i + 1;
        }
        proof {
            assert(order@.take(order@.len() as int) =~= order@);
            assert(order@.take(0) =~= Seq::<u64>::empty());
            reveal(Seq::filter);
        }
        out
    }

    /// Moves the buffers out, leaving none.
    fn take_entries(&mut self) -> (entries: HashMap<u64, (Vec<u8>, bool)>)
        ensures
            entries@ == old(self).entries@,
            final(self).entries@ == Map::<u64, (Vec<u8>, bool)>::empty(),
            final(self).lru@ == old(self).lru@,
            final(self).capacity == old(self).capacity,
    {
        proof {
            use_type_invariant(&*self);
        }
        let mut entries = HashMap::new();
        std::mem::swap(&mut entries, &mut self.entries);
        entries
    }

    /// The number of buffers.
    pub fn len(&self) -> (n: usize)
        ensures
            n == self@.0.len(),
    {
        assert(self@.0.dom() =~= self.entries@.dom());
        self.entries.len()
    }

    /// Whether `ino` has a buffer.
    pub fn contains(&self, ino: u64) -> (b: bool)
        ensures
            b == self@.0.contains_key(ino),
    {
        self.entries.contains_key(&ino)
    }

    /// Whether `ino` has a buffer that was written since it was loaded or
    /// flushed.
    pub fn is_dirty(&self, ino: u64) -> (b: bool)
        ensures
            b == (self@.0.contains_key(ino) && self@.0[ino].1),
    {
        match self.entries.get(&ino) {
            Some(e) => e.1,
            None => false,
        }
    }

    /// Keeps `data` as the clean buffer of `ino`.
    pub fn insert_clean(&mut self, ino: u64, data: Vec<u8>)
        ensures
            final(self)@.0 == old(self)@.0.insert(ino, (data@, false)),
            final(self)@.1 == old(self)@.1,
    {
        proof {
            use_type_invariant(&*self);
        }
        let mut entries = self.take_entries();
        entries.insert(ino, (data, false));
        self.entries = entries;
        assert(final(self)@.0 =~= old(self)@.0.insert(ino, (data@, false)));
    }

    /// Makes `ino` the most recently used inode.
    pub fn touch(&mut self, ino: u64)
        ensures
            final(self)@.0 == old(self)@.0,
            final(self)@.1 == without(old(self)@.1, ino).push(ino),
            final(self)@.1.no_duplicates(),
    {
        proof {
            use_type_invariant(&*self);
            lemma_without_facts(self.lru@, ino);
        }
        let mut order = Self::order_without(&self.lru, ino);
        order.push_back(ino);
        self.lru = order;
    }

    /// Writes `data` at `offset` into the buffer of `ino` (an empty one
    /// where it has none), growing it with zero bytes where the write ends
    /// past it, and marks it dirty; returns the end of the write.
    pub fn write_at(&mut self, ino: u64, offset: usize, data: &[u8]) -> (end: usize)
        requires
            offset + data@.len() <= usize::MAX,
        ensures
            end == offset + data@.len(),
            final(self)@.0 == old(self)@.0.insert(ino, (overlay(buffer_of(old(self)@.0, ino), offset as nat, data@), true)),
            final(self)@.1 == old(self)@.1,
    {
        let end = offset + data.len();
        proof {
            use_type_invariant(&*self);
        }
        let mut entries = self.take_entries();
        let mut buf = match entries.remove(&ino) {
            Some(e) => e.0,
            None => Vec::new(),
        };
        let ghost base = buf@;
        assert(base == buffer_of(old(self)@.0, ino));
        if end > buf.len() {
            buf.resize(end, 0u8);
            assert(buf@ =~= resized(base, end as nat));
        }
        let ghost grown = buf@;
        let mut i: usize = 0;
        while i < data.len()
            invariant
                i <= data@.len(),
                end == offset + data@.len(),
                buf@.len() == grown.len(),
                grown.len() >= end,
                forall|j: int| 0 <= j < grown.len() && !(offset <= j < offset + i) ==> #[trigger] buf@[j] == grown[j],
                forall|j: int| offset <= j < offset + i ==> #[trigger] buf@[j] == data@[j - offset],
            decreases data@.len() - i,
        {
            buf.set(offset + i, data[i]);
            i = i + 1;
        }
        assert(buf@ =~= overlay(base, offset as nat, data@));
        entries.insert(ino, (buf, true));
        self.entries = entries;
        assert(final(self)@.0 =~= old(self)@.0.insert(ino, (overlay(base, offset as nat, data@), true)));
        end
    }

    /// Cuts or grows (with zero bytes) the buffer of `ino` (an empty one
    /// where it has none) to `len` bytes and marks it dirty.
    pub fn resize_to(&mut self, ino: u64, len: usize)
        ensures
            final(self)@.0 == old(self)@.0.insert(ino, (resized(buffer_of(old(self)@.0, ino), len as nat), true)),
            final(self)@.1 == old(self)@.1,
    {
        proof {
            use_type_invariant(&*self);
        }
        let mut entries = self.take_entries();
        let mut buf = match entries.remove(&ino) {
            Some(e) => e.0,
            None => Vec::new(),
        };
        let ghost base = buf@;
        buf.resize(len, 0u8);
        assert(buf@ =~= resized(base, len as nat));
        entries.insert(ino, (buf, true));
        self.entries = entries;
        assert(final(self)@.0 =~= old(self)@.0.insert(ino, (resized(base, len as nat), true)));
    }

    /// At most `size` bytes of the buffer of `ino` from `offset`: nothing
    /// where it has no buffer or the offset is at or past its end.
    pub fn read_range(&self, ino: u64, offset: usize, size: usize) -> (out: Vec<u8>)
        ensures
            out@ == read_window(buffer_of(self@.0, ino), offset as nat, size as nat),
    {
        let mut out: Vec<u8> = Vec::new();
        match self.entries.get(&ino) {
            Some(e) => {
                let data = &e.0;
                assert(data@ == buffer_of(self@.0, ino));
                if offset < data.len() {
                    let end = if size < data.len() - offset {
                        offset + size
                    } else {
                        data.len()
                    };
                    let mut i: usize = offset;
                    while i < end
                        invariant
                            offset <= i <= end <= data@.len(),
                            out@ == data@.subrange(offset as int, i as int),
                        decreases end - i,
                    {
                        out.push(data[i]);
                        i = i + 1;
                        assert(out@ =~= data@.subrange(offset as int, i as int));
                    }
                    assert(out@ =~= read_window(data@, offset as nat, size as nat));
                }
            },
            None => {},
        }
        out
    }

    /// A copy of the buffer of `ino` where it is dirty.
    pub fn dirty_data(&self, ino: u64) -> (r: Option<Vec<u8>>)
        ensures
            match r {
                Some(b) => self@.0.contains_key(ino) && self@.0[ino] == (b@, true),
                None => !(self@.0.contains_key(ino) && self@.0[ino].1),
            },
    {
        match self.entries.get(&ino) {
            Some(e) => {
                if e.1 {
                    let b = e.0.clone();
                    Some(b)
                } else {
                    None
                }
            },
            None => None,
        }
    }

    /// Drops the buffer of `ino`, leaving the recency order as it is.
    pub fn remove(&mut self, ino: u64)
        ensures
            final(self)@.0 == old(self)@.0.remove(ino),
            final(self)@.1 == old(self)@.1,
    {
        proof {
            use_type_invariant(&*self);
        }
        let mut entries = self.take_entries();
        entries.remove(&ino);
        self.entries = entries;
        assert(final(self)@.0 =~= old(self)@.0.remove(ino));
    }

    /// Drops the buffer of `ino` and takes it out of the recency order.
    pub fn evict_inode(&mut self, ino: u64)
        ensures
            final(self)@.0 == old(self)@.0.remove(ino),
            final(self)@.1 == without(old(self)@.1, ino),
    {
        proof {
            use_type_invariant(&*self);
            lemma_without_facts(self.lru@, ino);
        }
        proof {
            use_type_invariant(&*self);
        }
        let mut entries = self.take_entries();
        entries.remove(&ino);
        self.entries = entries;
        assert(self@.0 =~= old(self)@.0.remove(ino));
        let order = Self::order_without(&self.lru, ino);
        self.lru = order;
    }

    /// The next buffer to drop while the cache holds more buffers than its
    /// capacity: the least recently used inode that still has one. The
    /// inodes ahead of it in the order, and it, leave the order; `None`
    /// when the cache is within capacity, or when no inode in the order
    /// has a buffer (the order is then empty).
    pub fn next_victim(&mut self) -> (r: Option<u64>)
        ensures
            final(self)@.0 == old(self)@.0,
            final(self).spec_capacity() == old(self).spec_capacity(),
            old(self)@.0.len() <= old(self).spec_capacity() ==> r is None && final(self)@.1 == old(self)@.1,
            old(self)@.0.len() > old(self).spec_capacity() ==> match first_cached(old(self)@.1, old(self)@.0, 0) {
                Some(k) => r == Some(old(self)@.1[k]) && final(self)@.1 == old(self)@.1.skip(k + 1),
                None => r is None && final(self)@.1 == Seq::<u64>::empty(),
            },
    {
        proof {
            use_type_invariant(&*self);
            lemma_first_cached(self@.1, self@.0, 0);
        }
        if self.len() <= self.capacity {
            return None;
        }
        let ghost m = self@.0;
        let ghost order = self@.1;
        let ghost mut k: int = 0;
        loop
            invariant
                self@.0 == m,
                m == old(self)@.0,
                order == old(self)@.1,
                m.len() > old(self).spec_capacity(),
                0 <= k <= order.len(),
                self@.1 == order.skip(k),
                self.lru@.no_duplicates(),
                self.capacity == old(self).capacity,
                forall|j: int| 0 <= j < k ==> !m.contains_key(#[trigger] order[j]),
            decreases order.len() - k,
        {
            proof {
                assert(order.skip(k).no_duplicates()) by {
                    assert(self.lru@ == order.skip(k));
                }
            }
            let mut lru = VecDeque::new();
            std::mem::swap(&mut lru, &mut self.lru);
            let popped = lru.pop_front();
            self.lru = lru;
            match popped {
                Some(candidate) => {
                    proof {
                        assert(candidate == order[k]);
                        k = k + 1;
                        assert(self.lru@ =~= order.skip(k));
                    }
                    if self.entries.contains_key(&candidate) {
                        proof {
                            lemma_first_cached(order, m, 0);
                            assert(first_cached(order, m, 0) == Some(k - 1)) by {
                                match first_cached(order, m, 0) {
                                    Some(q) => {
                                        if q < k - 1 {
                                            assert(!m.contains_key(order[q]));
                                        }
                                        if q > k - 1 {
                                            assert(m.contains_key(order[k - 1]));
                                        }
                                    },
                                    None => {
                                        assert(m.contains_key(order[k - 1]));
                                    },
                                }
                            }
                        }
                        return Some(candidate);
                    }
                },
                None => {
                    proof {
                        assert(k == order.len());
                        lemma_first_cached(order, m, 0);
                        assert(self@.1 =~= Seq::<u64>::empty());
                    }
                    return None;
                },
            }
        }
    }

    /// Drops every buffer and empties the recency order.
    pub fn clear(&mut self)
        ensures
            final(self)@.0 == Map::<u64, (Seq<u8>, bool)>::empty(),
            final(self)@.1 == Seq::<u64>::empty(),
            final(self).spec_capacity() == old(self).spec_capacity(),
    {
        proof {
            use_type_invariant(&*self);
        }
        self.entries = HashMap::new();
        self.lru = VecDeque::new();
        assert(final(self)@.0 =~= Map::<u64, (Seq<u8>, bool)>::empty());
    }

    /// An empty cache of capacity `PAGE_CACHE_CAPACITY`.
    pub fn new() -> (c: Self)
        ensures
            c@.0 == Map::<u64, (Seq<u8>, bool)>::empty(),
            c@.1 == Seq::<u64>::empty(),
            c.spec_capacity() == PAGE_CACHE_CAPACITY,
    {
        let c = PageCache { entries: HashMap::new(), lru: VecDeque::new(), capacity: PAGE_CACHE_CAPACITY };
        assert(c@.0 =~= Map::<u64, (Seq<u8>, bool)>::empty());
        c
    }

    /// The inodes that have a buffer, each once, in no particular order.
    pub fn keys(&self) -> (ks: Vec<u64>)
        ensures
            ks@.to_set() == self@.0.dom(),
            ks@.no_duplicates(),
    {
        let mut ks: Vec<u64> = Vec::new();
        let ghost all = vstd::std_specs::iter::IteratorSpec::remaining(&vstd::std_specs::hash::spec_keys_iter(&self.entries)).unref();
        for k in it: self.entries.keys()
            invariant
                it.seq().unref() == all,
                ks@ == all.take(it.index() as int),
        {
            ks.push(*k);
            assert(ks@ =~= all.take(it.index() + 1));
        }
        assert(ks@ =~= all);
        assert(self@.0.dom() =~= self.entries@.dom());
        ks
    }
}

} // verus!
