//! Content-defined chunking with a gear rolling hash.
//!
//! Each byte shifts the rolling hash left by one bit and adds a pseudo-random
//! 64-bit value picked by the byte from a 256-entry gear table. A chunk ends
//! once it is at least `MIN_CHUNK_SIZE` long and the low bits of the hash are
//! all zero, or once it reaches `MAX_CHUNK_SIZE`.
use vstd::prelude::*;
use vstd::wrapping::u64_specs;

verus! {

pub const MIN_CHUNK_SIZE: usize = 2048;
pub const TARGET_CHUNK_SIZE: usize = 4096;
pub const MAX_CHUNK_SIZE: usize = 65536;
pub const MASK: u64 = 4095;

pub const GEAR_SEED: u64 = 0x1234_5678_9ABC_DEF0;
pub const GOLDEN_GAMMA: u64 = 0x9E3779B97F4A7C15;
pub const MIX_MUL_1: u64 = 0xBF58476D1CE4E5B9;
pub const MIX_MUL_2: u64 = 0x94D049BB133111EB;

/// The SplitMix64 finaliser.
pub open spec fn spec_splitmix64(x: u64) -> u64 {
    let x1 = u64_specs::wrapping_add(x, GOLDEN_GAMMA);
    let z1 = u64_specs::wrapping_mul(x1 ^ (x1 >> 30u64), MIX_MUL_1);
    let z2 = u64_specs::wrapping_mul(z1 ^ (z1 >> 27u64), MIX_MUL_2);
    z2 ^ (z2 >> 31u64)
}

/// The seed after step `n` of the gear table construction; it is also the
/// gear table's entry `n`.
pub open spec fn gear_entry(n: nat) -> u64
    decreases n,
{
    let prev = if n == 0 { GEAR_SEED } else { gear_entry((n - 1) as nat) };
    spec_splitmix64(prev ^ u64_specs::wrapping_mul(n as u64, GOLDEN_GAMMA))
}

/// The 256-entry gear table.
pub open spec fn gear_matrix() -> Seq<u64> {
    Seq::new(256, |i: int| gear_entry(i as nat))
}

/// One step of the rolling hash.
pub open spec fn spec_feed(hash: u64, byte: u8) -> u64 {
    u64_specs::wrapping_add(hash << 1u64, gear_entry(byte as nat))
}

/// Whether a chunk of `size` bytes whose rolling hash is `hash` ends here.
pub open spec fn spec_cut(hash: u64, size: nat) -> bool {
    if size < MIN_CHUNK_SIZE {
        false
    } else if size >= MAX_CHUNK_SIZE {
        true
    } else {
        hash & MASK == 0
    }
}

/// Scans `data` from the start: the lengths of the chunks closed so far,
/// the rolling hash of the open chunk and the open chunk's length.
pub open spec fn scan(data: Seq<u8>) -> (Seq<nat>, u64, nat)
    decreases data.len(),
{
    if data.len() == 0 {
        (Seq::empty(), 0u64, 0nat)
    } else {
        let (cuts, hash, cur) = scan(data.drop_last());
        let h = spec_feed(hash, data.last());
        let c = cur + 1;
        if spec_cut(h, c) {
            (cuts.push(c), 0u64, 0nat)
        } else {
            (cuts, h, c)
        }
    }
}

/// The lengths of the chunks that `data` is split into, in order.
pub open spec fn spec_chunk_lengths(data: Seq<u8>) -> Seq<nat> {
    let (cuts, _h, cur) = scan(data);
    if cur > 0 {
        cuts.push(cur)
    } else {
        cuts
    }
}

/// The sum of a sequence of lengths.
pub open spec fn total(s: Seq<nat>) -> nat
    decreases s.len(),
{
    if s.len() == 0 {
        0
    } else {
        total(s.drop_last()) + s.last()
    }
}

/// Xor with a right shift of itself loses nothing.
proof fn lemma_xorshift_injective(a: u64, b: u64)
    ensures
        a ^ (a >> 30u64) == b ^ (b >> 30u64) ==> a == b,
        a ^ (a >> 27u64) == b ^ (b >> 27u64) ==> a == b,
        a ^ (a >> 31u64) == b ^ (b >> 31u64) ==> a == b,
{
    assert(a ^ (a >> 30u64) == b ^ (b >> 30u64) ==> a == b) by (bit_vector);
    assert(a ^ (a >> 27u64) == b ^ (b >> 27u64) ==> a == b) by (bit_vector);
    assert(a ^ (a >> 31u64) == b ^ (b >> 31u64) ==> a == b) by (bit_vector);
}

/// Multiplying by an odd constant, wrapping, loses nothing: each of the
/// two mixing constants has an inverse.
proof fn lemma_mix_mul_injective(a: u64, b: u64)
    ensures
        u64_specs::wrapping_mul(a, MIX_MUL_1) == u64_specs::wrapping_mul(b, MIX_MUL_1) ==> a == b,
        u64_specs::wrapping_mul(a, MIX_MUL_2) == u64_specs::wrapping_mul(b, MIX_MUL_2) ==> a == b,
{
    assert(((a * 0xBF58476D1CE4E5B9u64) as u64 * 0x96de1b173f119089u64) as u64 == a) by (bit_vector);
    assert(((b * 0xBF58476D1CE4E5B9u64) as u64 * 0x96de1b173f119089u64) as u64 == b) by (bit_vector);
    assert(((a * 0x94D049BB133111EBu64) as u64 * 0x319642b2d24d8ec3u64) as u64 == a) by (bit_vector);
    assert(((b * 0x94D049BB133111EBu64) as u64 * 0x319642b2d24d8ec3u64) as u64 == b) by (bit_vector);
    assert(u64_specs::wrapping_mul(a, MIX_MUL_1) == (a * 0xBF58476D1CE4E5B9u64) as u64) by (bit_vector);
    assert(u64_specs::wrapping_mul(b, MIX_MUL_1) == (b * 0xBF58476D1CE4E5B9u64) as u64) by (bit_vector);
    assert(u64_specs::wrapping_mul(a, MIX_MUL_2) == (a * 0x94D049BB133111EBu64) as u64) by (bit_vector);
    assert(u64_specs::wrapping_mul(b, MIX_MUL_2) == (b * 0x94D049BB133111EBu64) as u64) by (bit_vector);
}

/// SplitMix64 is one-to-one: different inputs give different outputs.
pub proof fn lemma_splitmix64_injective(x: u64, y: u64)
    ensures
        x != y ==> spec_splitmix64(x) != spec_splitmix64(y),
{
    let x1 = u64_specs::wrapping_add(x, GOLDEN_GAMMA);
    let y1 = u64_specs::wrapping_add(y, GOLDEN_GAMMA);
    assert(x != y ==> x1 != y1) by {
        assert(x != y ==> u64_specs::wrapping_add(x, 0x9E3779B97F4A7C15u64) != u64_specs::wrapping_add(
            y,
            0x9E3779B97F4A7C15u64,
        )) by (bit_vector);
    }
    let x2 = x1 ^ (x1 >> 30u64);
    let y2 = y1 ^ (y1 >> 30u64);
    lemma_xorshift_injective(x1, y1);
    let x3 = u64_specs::wrapping_mul(x2, MIX_MUL_1);
    let y3 = u64_specs::wrapping_mul(y2, MIX_MUL_1);
    lemma_mix_mul_injective(x2, y2);
    let x4 = x3 ^ (x3 >> 27u64);
    let y4 = y3 ^ (y3 >> 27u64);
    lemma_xorshift_injective(x3, y3);
    let x5 = u64_specs::wrapping_mul(x4, MIX_MUL_2);
    let y5 = u64_specs::wrapping_mul(y4, MIX_MUL_2);
    lemma_mix_mul_injective(x4, y4);
    lemma_xorshift_injective(x5, y5);
}

/// SplitMix64: a bijective 64-bit mixing function.
pub fn splitmix64(x: u64) -> (r: u64)
    ensures
        r == spec_splitmix64(x),
{
    let x1 = x.wrapping_add(GOLDEN_GAMMA);
    let z1 = (x1 ^ (x1 >> 30)).wrapping_mul(MIX_MUL_1);
    let z2 = (z1 ^ (z1 >> 27)).wrapping_mul(MIX_MUL_2);
    z2 ^ (z2 >> 31)
}

/// Builds the gear table: entry `i` is the SplitMix64 chain seeded with
/// `GEAR_SEED`, each step mixing in `i * GOLDEN_GAMMA`.
pub fn build_gear_matrix() -> (out: Vec<u64>)
    ensures
        out@ == gear_matrix(),
{
    let mut out: Vec<u64> = Vec::new();
    let mut seed: u64 = GEAR_SEED;
    let mut i: u64 = 0;
    while i < 256
        invariant
            i <= 256,
            out@.len() == i,
            forall|j: int| 0 <= j < i ==> out@[j] == gear_entry(j as nat),
            i == 0 ==> seed == GEAR_SEED,
            i > 0 ==> seed == gear_entry((i - 1) as nat),
        decreases 256 - i,
    {
        seed = splitmix64(seed ^ i.wrapping_mul(GOLDEN_GAMMA));
        proof {
            assert(seed == gear_entry(i as nat));
        }
        out.push(seed);
        i = i + 1;
    }
    assert(out@ =~= gear_matrix());
    out
}

/// The rolling-hash state of the chunker.
pub struct Chunker {
    hash: u64,
    gear: Vec<u64>,
}

impl View for Chunker {
    type V = u64;

    /// The current rolling hash.
    closed spec fn view(&self) -> u64 {
        self.hash
    }
}

impl Chunker {
    #[verifier::type_invariant]
    closed spec fn inv(self) -> bool {
        self.gear@ == gear_matrix()
    }

    /// A chunker whose rolling hash is zero.
    pub fn new() -> (c: Self)
        ensures
            c@ == 0,
    {
        Chunker { hash: 0, gear: build_gear_matrix() }
    }

    /// Feeds one byte into the rolling hash.
    pub fn feed_byte(&mut self, new_byte: u8)
        ensures
            final(self)@ == spec_feed(old(self)@, new_byte),
    {
        proof {
            use_type_invariant(&*self);
        }
        let g = self.gear[new_byte as usize];
        self.hash = (self.hash << 1).wrapping_add(g);
    }

    /// Whether the chunk of `current_chunk_size` bytes fed so far ends here.
    pub fn should_cut(&self, current_chunk_size: usize) -> (b: bool)
        ensures
            b == spec_cut(self@, current_chunk_size as nat),
    {
        if current_chunk_size < MIN_CHUNK_SIZE {
            return false;
        }
        if current_chunk_size >= MAX_CHUNK_SIZE {
            return true;
        }
        (self.hash & MASK) == 0
    }

    /// Clears the rolling hash for the next chunk.
    pub fn reset(&mut self)
        ensures
            final(self)@ == 0,
    {
        proof {
            use_type_invariant(&*self);
        }
        self.hash = 0;
    }
}

/// A scan never leaves an open chunk of `MAX_CHUNK_SIZE` bytes or more.
pub proof fn lemma_scan_open_bound(data: Seq<u8>)
    ensures
        scan(data).2 < MAX_CHUNK_SIZE,
    decreases data.len(),
{
    if data.len() > 0 {
        lemma_scan_open_bound(data.drop_last());
    }
}

/// What a scan keeps: the closed chunks and the open one cover the data,
/// and every closed chunk has between `MIN_CHUNK_SIZE` and `MAX_CHUNK_SIZE`
/// bytes.
proof fn lemma_scan_props(data: Seq<u8>)
    ensures
        total(scan(data).0) + scan(data).2 == data.len(),
        forall|i: int|
            0 <= i < scan(data).0.len() ==> MIN_CHUNK_SIZE <= #[trigger] scan(data).0[i]
                <= MAX_CHUNK_SIZE,
        scan(data).2 < MAX_CHUNK_SIZE,
    decreases data.len(),
{
    if data.len() > 0 {
        lemma_scan_props(data.drop_last());
        let (cuts, hash, cur) = scan(data.drop_last());
        let h = spec_feed(hash, data.last());
        let c = cur + 1;
        if spec_cut(h, c) {
            assert(cuts.push(c).drop_last() =~= cuts);
        }
    }
}

/// Chunking partitions the data: the chunk lengths add up to the length of
/// the data, no chunk is empty or longer than `MAX_CHUNK_SIZE`, and every
/// chunk but the last has at least `MIN_CHUNK_SIZE` bytes.
pub proof fn lemma_chunk_lengths_partition(data: Seq<u8>)
    ensures
        total(spec_chunk_lengths(data)) == data.len(),
        forall|i: int|
            0 <= i < spec_chunk_lengths(data).len() ==> 0 < #[trigger] spec_chunk_lengths(data)[i]
                <= MAX_CHUNK_SIZE,
        forall|i: int|
            0 <= i < spec_chunk_lengths(data).len() - 1 ==> MIN_CHUNK_SIZE
                <= #[trigger] spec_chunk_lengths(data)[i],
{
    lemma_scan_props(data);
    let (cuts, _h, cur) = scan(data);
    if cur > 0 {
        assert(cuts.push(cur).drop_last() =~= cuts);
    }
}

/// `data` ends on a chunk boundary: no chunk is left open after it.
pub open spec fn ends_on_boundary(data: Seq<u8>) -> bool {
    scan(data).2 == 0
}

/// With no chunk open, the rolling hash is back at zero.
proof fn lemma_closed_hash_zero(data: Seq<u8>)
    ensures
        scan(data).2 == 0 ==> scan(data).1 == 0,
{
}

/// Scanning on from a chunk boundary is scanning afresh: the chunks closed
/// after it, and the open chunk, are those of what follows alone.
proof fn lemma_scan_from_boundary(a: Seq<u8>, b: Seq<u8>)
    requires
        scan(a).2 == 0,
    ensures
        scan(a + b) == (scan(a).0 + scan(b).0, scan(b).1, scan(b).2),
    decreases b.len(),
{
    lemma_closed_hash_zero(a);
    if b.len() == 0 {
        assert(a + b =~= a);
        assert(scan(a).0 + scan(b).0 =~= scan(a).0);
    } else {
        lemma_scan_from_boundary(a, b.drop_last());
        assert((a + b).drop_last() =~= a + b.drop_last());
        assert((a + b).last() == b.last());
        let (cuts, hash, cur) = scan(b.drop_last());
        let h = spec_feed(hash, b.last());
        let c = cur + 1;
        if spec_cut(h, c) {
            assert(scan(a).0 + cuts.push(c) =~= (scan(a).0 + cuts).push(c));
        }
    }
}

/// Content-defined chunking resynchronises at every chunk boundary: where
/// the data before a point ends on a boundary, the chunks after that point
/// are those of what follows it, alone. An edit confined to the part before
/// a boundary (both versions ending on one) therefore leaves every chunk
/// after it as it was.
pub proof fn lemma_chunks_from_boundary(a: Seq<u8>, b: Seq<u8>)
    requires
        ends_on_boundary(a),
    ensures
        spec_chunk_lengths(a + b) == spec_chunk_lengths(a) + spec_chunk_lengths(b),
{
    lemma_scan_from_boundary(a, b);
    let (cuts, _h, cur) = scan(b);
    if cur > 0 {
        assert(scan(a).0 + cuts.push(cur) =~= (scan(a).0 + cuts).push(cur));
    }
}

/// The rolling hash after feeding the bytes `w`, one by one, from `hash`.
pub open spec fn feed_all(hash: u64, w: Seq<u8>) -> u64
    decreases w.len(),
{
    if w.len() == 0 {
        hash
    } else {
        spec_feed(feed_all(hash, w.drop_last()), w.last())
    }
}

/// The low `j` bits.
pub open spec fn low_bits(x: u64, j: u64) -> u64 {
    x & (((1u64 << j) - 1) as u64)
}

/// One step keeps two hashes that agree on their low `j` bits agreeing on
/// their low `j + 1` bits: the shift moves the agreement up a bit, and the
/// added gear value carries only upwards.
proof fn lemma_feed_keeps_low_bits(a: u64, b: u64, g: u64, j: u64)
    requires
        j < 63,
        low_bits(a, j) == low_bits(b, j),
    ensures
        low_bits(u64_specs::wrapping_add(a << 1u64, g), (j + 1) as u64) == low_bits(
            u64_specs::wrapping_add(b << 1u64, g),
            (j + 1) as u64,
        ),
{
    assert(((a & (((1u64 << j) - 1) as u64)) == (b & (((1u64 << j) - 1) as u64))) ==> (((if (a << 1u64) + g
        > u64::MAX {
        ((a << 1u64) + g - 0x1_0000_0000_0000_0000) as u64
    } else {
        ((a << 1u64) + g) as u64
    }) & (((1u64 << ((j + 1) as u64)) - 1) as u64)) == ((if (b << 1u64) + g > u64::MAX {
        ((b << 1u64) + g - 0x1_0000_0000_0000_0000) as u64
    } else {
        ((b << 1u64) + g) as u64
    }) & (((1u64 << ((j + 1) as u64)) - 1) as u64)))) by (bit_vector)
        requires
            j < 63,
    ;
}

/// Feeding the same `j` bytes into any two hashes leaves them agreeing on
/// their low `j` bits.
proof fn lemma_window_low_bits(h1: u64, h2: u64, w: Seq<u8>)
    requires
        w.len() < 63,
    ensures
        low_bits(feed_all(h1, w), w.len() as u64) == low_bits(feed_all(h2, w), w.len() as u64),
    decreases w.len(),
{
    if w.len() == 0 {
        assert(low_bits(h1, 0) == 0 && low_bits(h2, 0) == 0) by (bit_vector);
    } else {
        lemma_window_low_bits(h1, h2, w.drop_last());
        lemma_feed_keeps_low_bits(
            feed_all(h1, w.drop_last()),
            feed_all(h2, w.drop_last()),
            gear_entry(w.last() as nat),
            w.drop_last().len() as u64,
        );
    }
}

/// Feeding `u` then `v` is feeding `u + v`.
proof fn lemma_feed_all_append(h: u64, u: Seq<u8>, v: Seq<u8>)
    ensures
        feed_all(h, u + v) == feed_all(feed_all(h, u), v),
    decreases v.len(),
{
    if v.len() == 0 {
        assert(u + v =~= u);
    } else {
        lemma_feed_all_append(h, u, v.drop_last());
        assert((u + v).drop_last() =~= u + v.drop_last());
        assert((u + v).last() == v.last());
    }
}

/// The rolling hash is a window over the last twelve bytes: whatever the
/// hash was before, once the same twelve (or more) bytes have been fed,
/// its low twelve bits — all that decides a cut — agree, and so does the
/// decision to cut at every chunk size.
pub proof fn lemma_rolling_window(h1: u64, h2: u64, w: Seq<u8>, size: nat)
    requires
        w.len() >= 12,
    ensures
        feed_all(h1, w) & MASK == feed_all(h2, w) & MASK,
        spec_cut(feed_all(h1, w), size) == spec_cut(feed_all(h2, w), size),
{
    let k = (w.len() - 12) as int;
    let head = w.take(k);
    let tail = w.skip(k);
    assert(head + tail =~= w);
    lemma_feed_all_append(h1, head, tail);
    lemma_feed_all_append(h2, head, tail);
    lemma_window_low_bits(feed_all(h1, head), feed_all(h2, head), tail);
    let a = feed_all(h1, w);
    let b = feed_all(h2, w);
    assert(low_bits(a, 12) == low_bits(b, 12));
    assert(low_bits(a, 12) == a & 4095 && low_bits(b, 12) == b & 4095) by (bit_vector);
}

/// A prefix of lengths adds up to no more than all of them.
proof fn lemma_total_take(s: Seq<nat>, k: int)
    requires
        0 <= k <= s.len(),
    ensures
        total(s.take(k)) <= total(s),
    decreases s.len(),
{
    if k < s.len() {
        lemma_total_take(s.drop_last(), k);
        assert(s.drop_last().take(k) =~= s.take(k));
    } else {
        assert(s.take(k) =~= s);
    }
}

/// The data up to the end of its `k`-th closed chunk scans to exactly
/// those `k` chunks, with none left open.
proof fn lemma_scan_prefix_at_cut(data: Seq<u8>, k: int)
    requires
        0 <= k <= scan(data).0.len(),
    ensures
        total(scan(data).0.take(k)) <= data.len(),
        scan(data.take(total(scan(data).0.take(k)) as int)) == (scan(data).0.take(k), 0u64, 0nat),
    decreases data.len(),
{
    lemma_scan_props(data);
    let cuts = scan(data).0;
    lemma_total_take(cuts, k);
    if data.len() == 0 {
        assert(cuts.take(k) =~= Seq::<nat>::empty());
        assert(data.take(0) =~= data);
    } else {
        let d = data.drop_last();
        let (c0, hash, cur) = scan(d);
        let h = spec_feed(hash, data.last());
        let c = cur + 1;
        lemma_scan_props(d);
        if spec_cut(h, c) && k == cuts.len() {
            assert(cuts.take(k) =~= cuts);
            assert(data.take(data.len() as int) =~= data);
        } else {
            assert(k <= c0.len());
            assert(cuts.take(k) =~= c0.take(k));
            lemma_scan_prefix_at_cut(d, k);
            let p = total(c0.take(k)) as int;
            assert(d.take(p) =~= data.take(p));
        }
    }
}

/// Splitting the data where a chunk ends and chunking the two pieces
/// gives the same chunks: the first `k` chunks are those of the data up
/// to their end, and the rest are those of what follows.
pub proof fn lemma_chunks_split_at_boundary(data: Seq<u8>, k: int)
    requires
        0 <= k <= spec_chunk_lengths(data).len(),
    ensures
        total(spec_chunk_lengths(data).take(k)) <= data.len(),
        spec_chunk_lengths(data.take(total(spec_chunk_lengths(data).take(k)) as int)) == spec_chunk_lengths(data).take(k),
        spec_chunk_lengths(data.skip(total(spec_chunk_lengths(data).take(k)) as int)) == spec_chunk_lengths(data).skip(k),
{
    let r = spec_chunk_lengths(data);
    let (cuts, _h, cur) = scan(data);
    lemma_chunk_lengths_partition(data);
    lemma_total_take(r, k);
    let p = total(r.take(k)) as int;
    if k <= cuts.len() {
        assert(r.take(k) =~= cuts.take(k));
        lemma_scan_prefix_at_cut(data, k);
        assert(ends_on_boundary(data.take(p)));
        assert(spec_chunk_lengths(data.take(p)) == cuts.take(k));
        assert(data.take(p) + data.skip(p) =~= data);
        lemma_chunks_from_boundary(data.take(p), data.skip(p));
        assert(r =~= r.take(k) + r.skip(k));
        assert(spec_chunk_lengths(data.skip(p)) =~= r.skip(k));
    } else {
        assert(r.take(k) =~= r);
        assert(data.take(p) =~= data);
        assert(data.skip(p) =~= Seq::<u8>::empty());
        assert(r.skip(k) =~= Seq::<nat>::empty());
        assert(spec_chunk_lengths(Seq::<u8>::empty()) =~= Seq::<nat>::empty());
    }
}

/// The chunks closed in a prefix of the data are the first chunks closed
/// in all of it.
proof fn lemma_scan_prefix_cuts(w: Seq<u8>, n: int)
    requires
        0 <= n <= w.len(),
    ensures
        scan(w.take(n)).0.len() <= scan(w).0.len(),
        scan(w.take(n)).0 == scan(w).0.take(scan(w.take(n)).0.len() as int),
    decreases w.len() - n,
{
    if n == w.len() {
        assert(w.take(n) =~= w);
        assert(scan(w).0.take(scan(w).0.len() as int) =~= scan(w).0);
    } else {
        lemma_scan_prefix_cuts(w, n + 1);
        let a = w.take(n + 1);
        assert(a.drop_last() =~= w.take(n));
        let (cuts, hash, cur) = scan(w.take(n));
        let h = spec_feed(hash, a.last());
        if spec_cut(h, cur + 1) {
            assert(scan(a).0 == cuts.push(cur + 1));
            assert(cuts =~= scan(a).0.take(cuts.len() as int));
            assert(scan(w).0.take(cuts.len() as int) =~= scan(w).0.take(scan(a).0.len() as int).take(cuts.len() as int));
        }
    }
}

/// Before the first cut, a scan holds the hash of what it has fed from
/// zero and counts every byte.
proof fn lemma_scan_open_prefix(w: Seq<u8>, n: int)
    requires
        0 <= n <= w.len(),
        scan(w.take(n)).0.len() == 0,
    ensures
        scan(w.take(n)).1 == feed_all(0, w.take(n)),
        scan(w.take(n)).2 == n,
    decreases n,
{
    if n > 0 {
        let a = w.take(n);
        assert(a.drop_last() =~= w.take(n - 1));
        let (cuts, hash, cur) = scan(w.take(n - 1));
        let h = spec_feed(hash, a.last());
        if !spec_cut(h, cur + 1) {
            lemma_scan_open_prefix(w, n - 1);
        } else {
            assert(scan(a).0.len() > 0);
        }
    } else {
        assert(w.take(0) =~= Seq::<u8>::empty());
    }
}

/// The first of a sequence of lengths is no more than their sum.
proof fn lemma_total_first(s: Seq<nat>)
    requires
        s.len() > 0,
    ensures
        s[0] <= total(s),
{
    lemma_total_take(s, 1);
    assert(s.take(1) =~= seq![s[0]]);
    assert(seq![s[0]].drop_last() =~= Seq::<nat>::empty());
}

/// No chunk closes before the first chunk's length.
proof fn lemma_no_cut_before_first(w: Seq<u8>, m: int)
    requires
        spec_chunk_lengths(w).len() > 0,
        0 <= m < spec_chunk_lengths(w)[0],
        m <= w.len(),
    ensures
        scan(w.take(m)).0.len() == 0,
{
    let cuts = scan(w).0;
    lemma_scan_prefix_cuts(w, m);
    let pc = scan(w.take(m)).0;
    if pc.len() > 0 {
        assert(pc[0] == cuts[0]);
        assert(spec_chunk_lengths(w)[0] == cuts[0]);
        lemma_scan_props(w.take(m));
        lemma_total_first(pc);
        assert(w.take(m).len() == m);
    }
}

/// With no cut in the first `n - 1` bytes, byte `n` closes a chunk
/// exactly when a fresh chunker fed the first `n` bytes cuts.
proof fn lemma_cut_step(w: Seq<u8>, n: int)
    requires
        1 <= n <= w.len(),
        scan(w.take(n - 1)).0.len() == 0,
    ensures
        (scan(w.take(n)).0.len() == 0) == !spec_cut(feed_all(0, w.take(n)), n as nat),
{
    lemma_scan_open_prefix(w, n - 1);
    let t = w.take(n);
    assert(t.drop_last() =~= w.take(n - 1));
    let prev = scan(t.drop_last());
    assert(prev.1 == feed_all(0, t.drop_last()));
    assert(prev.2 == n - 1);
    assert(feed_all(0, t) == spec_feed(prev.1, t.last()));
}

/// The first chunk of `w` ends at the first cut of a fresh chunker fed
/// its bytes.
proof fn lemma_first_chunk_cut(w: Seq<u8>, n: nat)
    requires
        spec_chunk_lengths(w).len() > 0,
        1 <= n <= spec_chunk_lengths(w)[0],
    ensures
        n <= w.len(),
        n < spec_chunk_lengths(w)[0] ==> !spec_cut(feed_all(0, w.take(n as int)), n),
        n == spec_chunk_lengths(w)[0] && spec_chunk_lengths(w).len() > 1 ==> spec_cut(feed_all(0, w.take(n as int)), n),
{
    let r = spec_chunk_lengths(w);
    lemma_chunk_lengths_partition(w);
    lemma_total_first(r);
    lemma_no_cut_before_first(w, n as int - 1);
    lemma_cut_step(w, n as int);
    if n < r[0] {
        lemma_no_cut_before_first(w, n as int);
    } else if r.len() > 1 {
        let cuts = scan(w).0;
        assert(cuts.len() > 0) by {
            if cuts.len() == 0 {
                assert(r.len() <= 1);
            }
        }
        assert(r[0] == cuts[0]);
        lemma_scan_prefix_at_cut(w, 1);
        let one = cuts.take(1);
        assert(one.drop_last() =~= Seq::<nat>::empty());
        assert(total(one.drop_last()) == 0);
        assert(one.last() == cuts[0]);
        assert(total(one) == total(one.drop_last()) + one.last());
        assert(total(one) == cuts[0]);
        assert(scan(w.take(n as int)).0 == cuts.take(1));
    }
}

/// Each chunk ends at the first cut of a fresh chunker fed its bytes: no
/// shorter stretch of them is cut, and (for every chunk but the last) the
/// whole chunk is.
pub proof fn lemma_chunk_ends_at_first_cut(data: Seq<u8>, i: int, n: nat)
    requires
        0 <= i < spec_chunk_lengths(data).len(),
        1 <= n <= spec_chunk_lengths(data)[i],
    ensures
        total(spec_chunk_lengths(data).take(i)) + spec_chunk_lengths(data)[i] <= data.len(),
        n < spec_chunk_lengths(data)[i] ==> !spec_cut(
            feed_all(0, data.skip(total(spec_chunk_lengths(data).take(i)) as int).take(n as int)),
            n,
        ),
        n == spec_chunk_lengths(data)[i] && i < spec_chunk_lengths(data).len() - 1 ==> spec_cut(
            feed_all(0, data.skip(total(spec_chunk_lengths(data).take(i)) as int).take(n as int)),
            n,
        ),
{
    let r = spec_chunk_lengths(data);
    lemma_chunks_split_at_boundary(data, i);
    let start = total(r.take(i)) as int;
    let w = data.skip(start);
    assert(spec_chunk_lengths(w) == r.skip(i));
    assert(r.skip(i)[0] == r[i]);
    lemma_first_chunk_cut(w, n);
    lemma_first_chunk_cut(w, r[i]);
}

/// Splits `data` into content-defined chunks and returns their lengths.
pub fn chunk_lengths(data: &[u8]) -> (sizes: Vec<usize>)
    ensures
        sizes@.len() == spec_chunk_lengths(data@).len(),
        forall|i: int|
            0 <= i < sizes@.len() ==> sizes@[i] as nat == #[trigger] spec_chunk_lengths(data@)[i],
{
    let mut chunker = Chunker::new();
    let mut sizes: Vec<usize> = Vec::new();
    let mut current_size: usize = 0;
    let mut k: usize = 0;
    while k < data.len()
        invariant
            k <= data@.len(),
            ({
                let (cuts, h, cur) = scan(data@.take(k as int));
                &&& sizes@.len() == cuts.len()
                &&& forall|i: int| 0 <= i < sizes@.len() ==> sizes@[i] as nat == #[trigger] cuts[i]
                &&& chunker@ == h
                &&& current_size as nat == cur
            }),
        decreases data@.len() - k,
    {
        let byte = data[k];
        proof {
            assert(data@.take(k + 1).drop_last() =~= data@.take(k as int));
            lemma_scan_open_bound(data@.take(k as int));
        }
        chunker.feed_byte(byte);
        current_size = current_size + 1;
        if chunker.should_cut(current_size) {
            sizes.push(current_size);
            chunker.reset();
            current_size = 0;
        }
        k = k + 1;
    }
    assert(data@.take(data@.len() as int) =~= data@);
    if current_size > 0 {
        sizes.push(current_size);
    }
    sizes
}

} // verus!
