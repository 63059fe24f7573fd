//! Share pool management, Merkle trees, and synchronization

use crate::crypto::{sha256, sha256_digest};
use crate::encoding::push_all;
use crate::clock::unix_time_now;
use crate::constants::MAX_SHARES_PER_MINER_PER_EPOCH;
use crate::error::Error;
use crate::share::{
    entries_view, find_miner, has_miner, keys_distinct, lemma_share_total_update,
    lemma_shares_of_index, lemma_shares_updated, miner_keys, miner_list, push_share, share_total,
    shares_of, within_share_limit, MinerShares, SharePacket,
};
use crate::types::{
    bytes32_eq, bytes32_le, hash_le, hash_order, lemma_hash_le_total_ordering, Hash32, MinerId,
};
use std::collections::HashMap;
use vstd::prelude::*;
use vstd::relations::sorted_by;

verus! {

/// The 32 zero bytes.
pub open spec fn zero_hash() -> Seq<u8> {
    Seq::new(32, |i: int| 0u8)
}

/// The hashes as byte strings.
pub open spec fn hash_views(hs: Seq<Hash32>) -> Seq<Seq<u8>> {
    hs.map_values(|h: Hash32| h@)
}

/// One level up the tree: each pair hashed with SHA-256, an odd last hash carried up.
pub open spec fn merkle_next_level(hs: Seq<Seq<u8>>) -> Seq<Seq<u8>> {
    Seq::new(
        ((hs.len() + 1) / 2) as nat,
        |i: int|
            if 2 * i + 1 < hs.len() {
                sha256_digest(hs[2 * i] + hs[2 * i + 1])
            } else {
                hs[2 * i]
            },
    )
}

/// The Merkle root: zeros for no hashes, the hash itself for one, else the
/// root of the next level up.
pub open spec fn spec_merkle_root(hs: Seq<Seq<u8>>) -> Seq<u8>
    decreases hs.len(),
{
    if hs.len() == 0 {
        zero_hash()
    } else if hs.len() == 1 {
        hs[0]
    } else {
        spec_merkle_root(merkle_next_level(hs))
    }
}

/// The Merkle root is built level by level: no hashes give 32 zero bytes, one
/// hash is its own root, and more are replaced by the next level up, where each
/// adjacent pair is hashed together with SHA-256 and an odd last hash is
/// carried up unchanged.
pub proof fn lemma_merkle_root_levels(hs: Seq<Seq<u8>>)
    ensures
        hs.len() == 0 ==> spec_merkle_root(hs) == Seq::new(32, |i: int| 0u8),
        hs.len() == 1 ==> spec_merkle_root(hs) == hs[0],
        hs.len() >= 2 ==> spec_merkle_root(hs) == spec_merkle_root(
            Seq::new(
                ((hs.len() + 1) / 2) as nat,
                |i: int|
                    if 2 * i + 1 < hs.len() {
                        sha256_digest(hs[2 * i] + hs[2 * i + 1])
                    } else {
                        hs[2 * i]
                    },
            ),
        ),
{
    if hs.len() == 0 {
        assert(zero_hash() =~= Seq::new(32, |i: int| 0u8));
    }
    if hs.len() >= 2 {
        let next = Seq::new(
            ((hs.len() + 1) / 2) as nat,
            |i: int|
                if 2 * i + 1 < hs.len() {
                    sha256_digest(hs[2 * i] + hs[2 * i + 1])
                } else {
                    hs[2 * i]
                },
        );
        assert(merkle_next_level(hs) =~= next);
    }
}

/// The roots of two, three and four hashes: pairs are hashed first, then the
/// pair hashes; an odd third hash is paired with the hash of the first two.
pub proof fn lemma_merkle_root_small(a: Seq<u8>, b: Seq<u8>, c: Seq<u8>, d: Seq<u8>)
    ensures
        spec_merkle_root(seq![a, b]) == sha256_digest(a + b),
        spec_merkle_root(seq![a, b, c]) == sha256_digest(sha256_digest(a + b) + c),
        spec_merkle_root(seq![a, b, c, d]) == sha256_digest(
            sha256_digest(a + b) + sha256_digest(c + d),
        ),
{
    let l2 = merkle_next_level(seq![a, b]);
    assert(l2 =~= seq![sha256_digest(a + b)]);
    assert(spec_merkle_root(seq![a, b]) == spec_merkle_root(l2));
    assert(spec_merkle_root(l2) == l2[0]);
    let l3 = merkle_next_level(seq![a, b, c]);
    assert(l3 =~= seq![sha256_digest(a + b), c]);
    assert(spec_merkle_root(seq![a, b, c]) == spec_merkle_root(l3));
    let l3b = merkle_next_level(l3);
    assert(l3b =~= seq![sha256_digest(sha256_digest(a + b) + c)]);
    assert(spec_merkle_root(l3) == spec_merkle_root(l3b));
    assert(spec_merkle_root(l3b) == l3b[0]);
    let l4 = merkle_next_level(seq![a, b, c, d]);
    assert(l4 =~= seq![sha256_digest(a + b), sha256_digest(c + d)]);
    assert(spec_merkle_root(seq![a, b, c, d]) == spec_merkle_root(l4));
    let l4b = merkle_next_level(l4);
    assert(l4b =~= seq![sha256_digest(sha256_digest(a + b) + sha256_digest(c + d))]);
    assert(spec_merkle_root(l4) == spec_merkle_root(l4b));
    assert(spec_merkle_root(l4b) == l4b[0]);
}

/// Computes one level up the tree.
fn merkle_level(level: &Vec<Hash32>) -> (r: Vec<Hash32>)
    ensures
        hash_views(r@) == merkle_next_level(hash_views(level@)),
{
    let ghost hv = hash_views(level@);
    let ghost next = merkle_next_level(hv);
    let mut out: Vec<Hash32> = Vec::new();
    let len = level.len();
    let n: usize = len / 2 + len % 2;
    let mut p: usize = 0;
    while p < n
        invariant
            n == (level@.len() + 1) / 2,
            len == level@.len(),
            p <= n,
            hv == hash_views(level@),
            next == merkle_next_level(hv),
            out@.len() == p,
            forall|j: int| 0 <= j < out@.len() ==> #[trigger] out@[j]@ == next[j],
        decreases n - p,
    {
        assert(2 * p < level@.len() + 1);
        let i = 2 * p;
        if i + 1 < level.len() {
            let mut combined: Vec<u8> = Vec::new();
            push_all(&mut combined, level[i].as_slice());
            push_all(&mut combined, level[i + 1].as_slice());
            let h = sha256(combined.as_slice());
            out.push(h);
        } else {
            out.push(level[i]);
        }
        p = p + 1;
    }
    assert(hash_views(out@) =~= next);
    out
}

/// Merkle tree root calculation
pub fn merkle_root(hashes: &[Hash32]) -> (r: Hash32)
    ensures
        r@ == spec_merkle_root(hash_views(hashes@)),
{
    if hashes.len() == 0 {
        let zero: [u8; 32] = [0u8; 32];
        assert(zero@ =~= zero_hash());
        return zero;
    }
    let mut level: Vec<Hash32> = Vec::new();
    let mut i: usize = 0;
    while i < hashes.len()
        invariant
            i <= hashes@.len(),
            level@ =~= hashes@.take(i as int),
        decreases hashes@.len() - i,
    {
        level.push(hashes[i]);
        i = i + 1;
    }
    assert(level@ =~= hashes@);
    while level.len() > 1
        invariant
            level@.len() >= 1,
            spec_merkle_root(hash_views(level@)) == spec_merkle_root(hash_views(hashes@)),
        decreases level@.len(),
    {
        let next = merkle_level(&level);
        proof {
            let hv = hash_views(level@);
            assert(hv.len() == level@.len());
            assert(hash_views(next@).len() == next@.len());
            assert(spec_merkle_root(hv) == spec_merkle_root(merkle_next_level(hv)));
        }
        level = next;
    }
    level[0]
}

/// All share hashes of per-miner lists, miner by miner, each list in order.
pub open spec fn pool_hashes(e: MinerShares) -> Seq<Hash32>
    decreases e.len(),
{
    if e.len() == 0 {
        Seq::empty()
    } else {
        pool_hashes(e.drop_last()) + e.last().1.map_values(|s: SharePacket| s.hash)
    }
}

/// The root of a set of share hashes: the Merkle root of the hashes in
/// ascending order.
pub open spec fn spec_pool_root(hs: Seq<Hash32>) -> Seq<u8> {
    spec_merkle_root(hash_views(hs.sort_by(hash_order())))
}

/// The root of shares does not depend on the order they were added in: equal
/// collections of share hashes have equal roots.
pub proof fn lemma_pool_root_order_independent(a: Seq<Hash32>, b: Seq<Hash32>)
    requires
        a.to_multiset() == b.to_multiset(),
    ensures
        spec_pool_root(a) == spec_pool_root(b),
{
    lemma_hash_le_total_ordering();
    a.lemma_sort_by_ensures(hash_order());
    b.lemma_sort_by_ensures(hash_order());
    vstd::seq_lib::lemma_sorted_unique(a.sort_by(hash_order()), b.sort_by(hash_order()), hash_order());
}

/// Collects all share hashes.
fn collect_hashes(v: &Vec<(MinerId, Vec<SharePacket>)>) -> (r: Vec<Hash32>)
    ensures
        r@ == pool_hashes(entries_view(v@)),
{
    let ghost e = entries_view(v@);
    let mut out: Vec<Hash32> = Vec::new();
    let mut i: usize = 0;
    while i < v.len()
        invariant
            i <= v@.len(),
            e == entries_view(v@),
            out@ == pool_hashes(e.take(i as int)),
        decreases v@.len() - i,
    {
        let list = &v[i].1;
        let ghost before = out@;
        let mut j: usize = 0;
        while j < list.len()
            invariant
                j <= list@.len(),
                out@ == before + list@.take(j as int).map_values(|s: SharePacket| s.hash),
            decreases list@.len() - j,
        {
            out.push(list[j].hash);
            assert(list@.take(j + 1).map_values(|s: SharePacket| s.hash) =~= list@.take(
                j as int,
            ).map_values(|s: SharePacket| s.hash).push(list@[j as int].hash));
            j = j + 1;
        }
        proof {
            assert(list@.take(list@.len() as int) =~= list@);
            assert(e.take(i + 1).drop_last() =~= e.take(i as int));
            assert(e.take(i + 1).last() == e[i as int]);
        }
        i = i + 1;
    }
    assert(e.take(v@.len() as int) =~= e);
    out
}

/// Hashes in ascending order.
pub open spec fn hashes_sorted(s: Seq<Hash32>) -> bool {
    forall|a: int, b: int| 0 <= a < b < s.len() ==> #[trigger] hash_le(s[a], s[b])
}

/// Sorts hashes in ascending order.
#[verifier::spinoff_prover]
#[verifier::rlimit(30)]
fn sort_hashes(v: &Vec<Hash32>) -> (r: Vec<Hash32>)
    ensures
        r@ == v@.sort_by(hash_order()),
{
    broadcast use vstd::seq_lib::group_to_multiset_ensures;

    let mut out: Vec<Hash32> = Vec::new();
    let mut i: usize = 0;
    assert(v@.take(0) =~= Seq::<Hash32>::empty());
    assert(out@ =~= Seq::<Hash32>::empty());
    while i < v.len()
        invariant
            i <= v@.len(),
            hashes_sorted(out@),
            out@.to_multiset() == v@.take(i as int).to_multiset(),
        decreases v@.len() - i,
    {
        let x = v[i];
        // the elements at most `x` form a prefix
        let mut p: usize = 0;
        while p < out.len() && bytes32_le(&out[p], &x)
            invariant
                p <= out@.len(),
                forall|j: int| 0 <= j < p ==> hash_le(#[trigger] out@[j], x),
            decreases out@.len() - p,
        {
            p = p + 1;
        }
        let ghost before = out@;
        proof {
            if p < before.len() {
                crate::types::lemma_bytes_le_total(before[p as int]@, x@);
            }
            assert forall|j: int| p <= j < before.len() implies hash_le(x, #[trigger] before[j]) by {
                if j > p {
                    assert(hash_le(before[p as int], before[j]));
                    crate::types::lemma_bytes_le_transitive(x@, before[p as int]@, before[j]@);
                }
            }
        }
        out.insert(p, x);
        proof {
            before.insert_ensures(p as int, x);
            assert(out@ == before.insert(p as int, x));
            assert forall|a: int, b: int| 0 <= a < b < out@.len() implies #[trigger] hash_le(
                out@[a],
                out@[b],
            ) by {
                if b < p {
                } else if a < p && b == p {
                } else if a < p && b > p {
                    assert(out@[b] == before[b - 1]);
                    crate::types::lemma_bytes_le_transitive(out@[a]@, x@, out@[b]@);
                } else if a == p {
                    assert(out@[b] == before[b - 1]);
                } else {
                    assert(out@[a] == before[a - 1]);
                    assert(out@[b] == before[b - 1]);
                }
            }
            assert(x == v@[i as int]);
            assert(v@.take(i as int + 1) =~= v@.take(i as int).push(x));
            vstd::seq_lib::to_multiset_insert(before, p as int, x);
            assert(out@.to_multiset() == before.to_multiset().insert(x));
            vstd::seq_lib::to_multiset_build(v@.take(i as int), x);
        }
        i = i + 1;
    }
    proof {
        assert(v@.take(v@.len() as int) =~= v@);
        lemma_hash_le_total_ordering();
        assert forall|a: int, b: int| 0 <= a < b < out@.len() implies #[trigger] (hash_order())(
            out@[a],
            out@[b],
        ) by {
            assert(hash_le(out@[a], out@[b]));
        }
        assert(sorted_by(out@, hash_order()));
        v@.lemma_sort_by_ensures(hash_order());
        vstd::seq_lib::lemma_sorted_unique(out@, v@.sort_by(hash_order()), hash_order());
    }
    out
}

/// Epoch commit message
#[derive(Debug, Clone, Copy)]
pub struct EpochCommit {
    pub epoch_index: u32,
    pub root: Hash32,
    pub timestamp: u64,
}

/// Request for missing shares
#[derive(Debug, Clone)]
pub struct GetSharesRequest {
    pub epoch_index: u32,
    pub miner_id_list: Vec<MinerId>,
    pub offset: u32,
}

/// Reply with shares batch
#[derive(Debug, Clone)]
pub struct SharesReply {
    pub shares_batch: Vec<SharePacket>,
}

/// Pool statistics
#[derive(Debug)]
pub struct PoolStats {
    pub current_epoch: u32,
    pub total_shares: usize,
    pub total_miners: usize,
    pub memory_usage_mb: usize,
}

/// A share with hash `h` is held.
pub open spec fn has_hash(e: MinerShares, h: Hash32) -> bool {
    exists|i: int, a: int| 0 <= i < e.len() && 0 <= a < e[i].1.len() && e[i].1[a].hash == h
}

/// No two shares held have the same hash.
pub open spec fn hashes_unique(e: MinerShares) -> bool {
    forall|i: int, a: int, j: int, b: int|
        0 <= i < e.len() && 0 <= a < e[i].1.len() && 0 <= j < e.len() && 0 <= b < e[j].1.len()
            && (i != j || a != b) ==> #[trigger] e[i].1[a].hash != #[trigger] e[j].1[b].hash
}

/// Every share held belongs to epoch `ep`.
pub open spec fn all_in_epoch(e: MinerShares, ep: u32) -> bool {
    forall|i: int, a: int|
        0 <= i < e.len() && 0 <= a < e[i].1.len() ==> #[trigger] e[i].1[a].header.epoch_index == ep
}

/// Share `a` of entry `k` comes before share `b` of entry `i` in the pool's order.
pub open spec fn pos_before(i: int, b: int, k: int, a: int) -> bool {
    i < k || (i == k && b < a)
}

/// Share `a` of entry `k` is the earliest by timestamp, the first such in the
/// pool's order.
pub open spec fn is_spill_pos(e: MinerShares, k: int, a: int) -> bool {
    &&& 0 <= k < e.len()
    &&& 0 <= a < e[k].1.len()
    &&& forall|i: int, b: int|
        0 <= i < e.len() && 0 <= b < e[i].1.len() ==> e[k].1[a].header.timestamp
            <= #[trigger] e[i].1[b].header.timestamp
    &&& forall|i: int, b: int|
        0 <= i < e.len() && 0 <= b < e[i].1.len() && pos_before(i, b, k, a) ==> e[k].1[a].header.timestamp
            < #[trigger] e[i].1[b].header.timestamp
}

/// Making room: the earliest share by timestamp (the first such) is dropped;
/// nothing changes when no shares are held.
pub open spec fn spill(e: MinerShares) -> MinerShares {
    if exists|k: int, a: int| is_spill_pos(e, k, a) {
        let (k, a) = choose|k: int, a: int| is_spill_pos(e, k, a);
        e.update(k, (e[k].0, e[k].1.remove(a)))
    } else {
        e
    }
}

/// The share size the pool accounts memory with.
pub open spec fn share_size() -> nat {
    vstd::layout::size_of::<SharePacket>()
}

/// Shares `offset .. offset + limit` of a list, cut to the list's end.
pub open spec fn batch_of(s: Seq<SharePacket>, offset: int, limit: int) -> Seq<SharePacket> {
    let start = if offset < s.len() {
        offset
    } else {
        s.len() as int
    };
    let end = if offset + limit < s.len() {
        offset + limit
    } else {
        s.len() as int
    };
    s.subrange(start, end)
}

/// The batch for a list of miners: each miner's shares `offset .. offset + limit`.
pub open spec fn spec_shares_batch(e: MinerShares, ids: Seq<MinerId>, offset: int, limit: int) -> Seq<
    SharePacket,
>
    decreases ids.len(),
{
    if ids.len() == 0 {
        Seq::empty()
    } else {
        spec_shares_batch(e, ids.drop_last(), offset, limit) + batch_of(
            shares_of(e, ids.last()),
            offset,
            limit,
        )
    }
}

proof fn lemma_spill_pos_unique(e: MinerShares, k1: int, a1: int, k2: int, a2: int)
    requires
        is_spill_pos(e, k1, a1),
        is_spill_pos(e, k2, a2),
    ensures
        k1 == k2 && a1 == a2,
{
    if pos_before(k1, a1, k2, a2) {
        assert(e[k2].1[a2].header.timestamp < e[k1].1[a1].header.timestamp);
    } else if pos_before(k2, a2, k1, a1) {
        assert(e[k1].1[a1].header.timestamp < e[k2].1[a2].header.timestamp);
    }
}

/// Dropping share `a` of entry `k` keeps the pool's invariants.
proof fn lemma_remove_preserves(e: MinerShares, k: int, a: int, ep: u32)
    requires
        0 <= k < e.len(),
        0 <= a < e[k].1.len(),
        keys_distinct(e),
        within_share_limit(e),
        hashes_unique(e),
        all_in_epoch(e, ep),
    ensures
        ({
            let f = e.update(k, (e[k].0, e[k].1.remove(a)));
            &&& keys_distinct(f)
            &&& within_share_limit(f)
            &&& hashes_unique(f)
            &&& all_in_epoch(f, ep)
            &&& share_total(f) == share_total(e) - 1
            &&& forall|h: Hash32| has_hash(f, h) ==> has_hash(e, h)
            &&& forall|m: MinerId| #[trigger] shares_of(f, m).len() <= shares_of(e, m).len()
        }),
{
    let f = e.update(k, (e[k].0, e[k].1.remove(a)));
    lemma_share_total_update(e, k, (e[k].0, e[k].1.remove(a)));
    lemma_shares_updated(e, k, (e[k].0, e[k].1.remove(a)));
    assert forall|i: int| 0 <= i < f.len() implies #[trigger] f[i].1.len() <= MAX_SHARES_PER_MINER_PER_EPOCH by {
        assert(e[i].1.len() <= MAX_SHARES_PER_MINER_PER_EPOCH);
    }
    assert forall|i: int, x: int, j: int, y: int|
        0 <= i < f.len() && 0 <= x < f[i].1.len() && 0 <= j < f.len() && 0 <= y < f[j].1.len() && (i
            != j || x != y) implies #[trigger] f[i].1[x].hash != #[trigger] f[j].1[y].hash by {
        let x0 = if i == k && x >= a {
            x + 1
        } else {
            x
        };
        let y0 = if j == k && y >= a {
            y + 1
        } else {
            y
        };
        assert(f[i].1[x] == e[i].1[x0]);
        assert(f[j].1[y] == e[j].1[y0]);
        assert(e[i].1[x0].hash != e[j].1[y0].hash);
    }
    assert forall|i: int, x: int| 0 <= i < f.len() && 0 <= x < f[i].1.len() implies #[trigger]
        f[i].1[x].header.epoch_index == ep by {
        if i == k && x >= a {
            assert(f[i].1[x] == e[i].1[x + 1]);
        } else {
            assert(f[i].1[x] == e[i].1[x]);
        }
    }
    assert forall|h: Hash32| has_hash(f, h) implies has_hash(e, h) by {
        let (i, x) = choose|i: int, x: int| 0 <= i < f.len() && 0 <= x < f[i].1.len() && f[i].1[x].hash == h;
        if i == k && x >= a {
            assert(e[i].1[x + 1].hash == h);
        } else {
            assert(e[i].1[x].hash == h);
        }
    }
}

/// Share pool with disk spill support
#[derive(Debug)]
pub struct PersistentSharePool {
    shares: Vec<(MinerId, Vec<SharePacket>)>,
    share_count: usize,
    memory_usage: usize,
    current_epoch: u32,
    epoch_commits: HashMap<u32, EpochCommit>,
    max_memory_bytes: usize,
}

impl PersistentSharePool {
    /// The per-miner share lists, in the order the miners first sent a share.
    pub closed spec fn entries(&self) -> MinerShares {
        entries_view(self.shares@)
    }

    /// The share count the pool reports.
    pub closed spec fn count(&self) -> nat {
        self.share_count as nat
    }

    /// The memory the held shares are accounted at, in bytes.
    pub closed spec fn memory(&self) -> nat {
        self.memory_usage as nat
    }

    /// The memory limit, in bytes.
    pub closed spec fn max_memory(&self) -> nat {
        self.max_memory_bytes as nat
    }

    /// The epoch whose shares the pool takes.
    pub closed spec fn epoch(&self) -> u32 {
        self.current_epoch
    }

    /// The epoch commits made, by epoch.
    pub closed spec fn commits(&self) -> Map<u32, EpochCommit> {
        self.epoch_commits@
    }

    /// Well-formedness: one entry per miner, the count is the number of shares
    /// held, the per-miner limit holds, no two shares share a hash, every share
    /// is of the current epoch, and memory is accounted per share and stays
    /// within the limit or a single share.
    pub closed spec fn wf(&self) -> bool {
        &&& keys_distinct(self.entries())
        &&& self.share_count == share_total(self.entries())
        &&& within_share_limit(self.entries())
        &&& hashes_unique(self.entries())
        &&& all_in_epoch(self.entries(), self.current_epoch)
        &&& self.memory_usage == self.share_count * share_size()
        &&& (self.memory_usage <= self.max_memory_bytes || self.memory_usage <= share_size())
    }

    /// What a well-formed pool guarantees: it counts exactly the shares it
    /// holds, accounts one share size for each, holds no share twice, holds
    /// only shares of its epoch and at most the per-epoch limit per miner.
    pub proof fn lemma_wf_properties(&self)
        requires
            self.wf(),
        ensures
            self.count() == share_total(self.entries()),
            self.memory() == self.count() * share_size(),
            keys_distinct(self.entries()),
            hashes_unique(self.entries()),
            all_in_epoch(self.entries(), self.epoch()),
            within_share_limit(self.entries()),
            forall|m: MinerId| #[trigger]
                shares_of(self.entries(), m).len() <= MAX_SHARES_PER_MINER_PER_EPOCH,
    {
        assert forall|m: MinerId| #[trigger]
            shares_of(self.entries(), m).len() <= MAX_SHARES_PER_MINER_PER_EPOCH by {
            if has_miner(self.entries(), m) {
                let i = choose|i: int| 0 <= i < self.entries().len() && self.entries()[i].0 == m;
                lemma_shares_of_index(self.entries(), i);
            }
        }
    }

    /// Create new persistent share pool
    pub fn new(max_memory_mb: usize) -> (r: Self)
        requires
            max_memory_mb * 1024 * 1024 <= usize::MAX,
        ensures
            r.wf(),
            r.entries() == Seq::<(MinerId, Seq<SharePacket>)>::empty(),
            r.count() == 0,
            r.memory() == 0,
            r.epoch() == 1,
            r.commits() == Map::<u32, EpochCommit>::empty(),
            r.max_memory() == max_memory_mb * 1024 * 1024,
    {
        let r = PersistentSharePool {
            shares: Vec::new(),
            share_count: 0,
            memory_usage: 0,
            current_epoch: 1,
            epoch_commits: HashMap::new(),
            max_memory_bytes: max_memory_mb * 1024 * 1024,
        };
        assert(r.entries() =~= Seq::<(MinerId, Seq<SharePacket>)>::empty());
        assert(0 * share_size() == 0) by (nonlinear_arith);
        r
    }

    /// Spill the earliest share by timestamp (to disk, in a full node)
    fn spill_oldest(&mut self)
        requires
            old(self).wf(),
        ensures
            final(self).wf(),
            final(self).entries() == spill(old(self).entries()),
            final(self).epoch() == old(self).epoch(),
            final(self).commits() == old(self).commits(),
            final(self).max_memory() == old(self).max_memory(),
            final(self).count() == share_total(final(self).entries()),
            final(self).memory() <= old(self).memory(),
            final(self).count() <= old(self).count(),
            old(self).count() > 0 ==> final(self).count() == old(self).count() - 1,
            forall|h: Hash32| has_hash(final(self).entries(), h) ==> has_hash(old(self).entries(), h),
            forall|m: MinerId| #[trigger] shares_of(final(self).entries(), m).len() <= shares_of(old(self).entries(), m).len(),
    {
        let ghost e = self.entries();
        // Find the earliest share by timestamp, the first such
        let mut target: Option<(usize, usize)> = None;
        let mut best: u64 = 0;
        let mut i: usize = 0;
        while i < self.shares.len()
            invariant
                i <= e.len(),
                e == entries_view(self.shares@),
                match target {
                    None => forall|i2: int| 0 <= i2 < i ==> #[trigger] e[i2].1.len() == 0,
                    Some((k, a)) => {
                        &&& k < i
                        &&& a < e[k as int].1.len()
                        &&& best == e[k as int].1[a as int].header.timestamp
                        &&& forall|i2: int, b: int|
                            0 <= i2 < i && 0 <= b < e[i2].1.len() ==> best
                                <= #[trigger] e[i2].1[b].header.timestamp
                        &&& forall|i2: int, b: int|
                            0 <= i2 < e.len() && 0 <= b < e[i2].1.len() && pos_before(i2, b, k as int, a as int)
                                ==> best < #[trigger] e[i2].1[b].header.timestamp
                    },
                },
            decreases e.len() - i,
        {
            let list = &self.shares[i].1;
            assert(list@ == e[i as int].1);
            let mut j: usize = 0;
            while j < list.len()
                invariant
                    i < e.len(),
                    j <= list@.len(),
                    list@ == e[i as int].1,
                    e == entries_view(self.shares@),
                    match target {
                        None => {
                            &&& j == 0
                            &&& forall|i2: int| 0 <= i2 < i ==> #[trigger] e[i2].1.len() == 0
                        },
                        Some((k, a)) => {
                            &&& k <= i
                            &&& (k == i ==> a < j)
                            &&& a < e[k as int].1.len()
                            &&& best == e[k as int].1[a as int].header.timestamp
                            &&& forall|i2: int, b: int|
                                0 <= i2 < e.len() && 0 <= b < e[i2].1.len() && pos_before(i2, b, i as int, j as int)
                                    ==> best <= #[trigger] e[i2].1[b].header.timestamp
                            &&& forall|i2: int, b: int|
                                0 <= i2 < e.len() && 0 <= b < e[i2].1.len() && pos_before(i2, b, k as int, a as int)
                                    ==> best < #[trigger] e[i2].1[b].header.timestamp
                        },
                    },
                decreases list@.len() - j,
            {
                let ts = list[j].header.timestamp;
                let better = match target {
                    None => true,
                    Some(_) => ts < best,
                };
                if better {
                    target = Some((i, j));
                    best = ts;
                }
                j = j + 1;
            }
            i = i + 1;
        }
        // Remove that share
        match target {
            Some((k, a)) => {
                proof {
                    assert(is_spill_pos(e, k as int, a as int));
                    assert forall|k2: int, a2: int| is_spill_pos(e, k2, a2) implies k2 == k && a2 == a by {
                        lemma_spill_pos_unique(e, k as int, a as int, k2, a2);
                    }
                    lemma_remove_preserves(e, k as int, a as int, self.current_epoch);
                    assert(self.share_count >= 1);
                    assert(self.memory_usage >= share_size()) by (nonlinear_arith)
                        requires
                            self.memory_usage == self.share_count * share_size(),
                            self.share_count >= 1,
                    ;
                    assert(self.memory_usage - share_size() == (self.share_count - 1) * share_size())
                        by (nonlinear_arith)
                        requires
                            self.memory_usage == self.share_count * share_size(),
                    ;
                }
                let (id, mut list) = self.shares.remove(k);
                list.remove(a);
                self.shares.insert(k, (id, list));
                self.share_count = self.share_count - 1;
                self.memory_usage = self.memory_usage - core::mem::size_of::<SharePacket>();
                proof {
                    assert(list@ =~= e[k as int].1.remove(a as int));
                    assert(self.entries() =~= e.update(k as int, (e[k as int].0, e[k as int].1.remove(a as int))));
                }
            },
            None => {
                proof {
                    assert forall|k2: int, a2: int| !is_spill_pos(e, k2, a2) by {
                        if 0 <= k2 < e.len() {
                            assert(e[k2].1.len() == 0);
                        }
                    }
                    lemma_all_empty_total(e);
                }
            },
        }
    }

    /// Add share to pool: refused, with the pool unchanged, when it is not of
    /// the pool's epoch, when a share with its hash is held, or when its miner
    /// holds the per-epoch limit; else room is made first when the memory limit
    /// would be passed, and the share is appended to the miner's list.
    pub fn add_share(&mut self, share: SharePacket) -> (r: Result<(), Error>)
        requires
            old(self).wf(),
            old(self).count() < usize::MAX,
        ensures
            final(self).wf(),
            final(self).epoch() == old(self).epoch(),
            final(self).commits() == old(self).commits(),
            final(self).max_memory() == old(self).max_memory(),
            ({
                let e = old(self).entries();
                let m = share.miner_id;
                let e1 = if old(self).memory() + share_size() > old(self).max_memory() {
                    spill(e)
                } else {
                    e
                };
                if share.header.epoch_index != old(self).epoch() || has_hash(e, share.hash)
                    || shares_of(e, m).len() >= MAX_SHARES_PER_MINER_PER_EPOCH {
                    &&& r == Err::<(), Error>(Error::InvalidShare)
                    &&& final(self).entries() == e
                    &&& final(self).count() == old(self).count()
                    &&& final(self).memory() == old(self).memory()
                } else {
                    &&& r == Ok::<(), Error>(())
                    &&& final(self).count() == share_total(e1) + 1
                    &&& forall|m2: MinerId| #[trigger]
                        shares_of(final(self).entries(), m2) == if m2 == m {
                            shares_of(e1, m).push(share)
                        } else {
                            shares_of(e1, m2)
                        }
                    &&& miner_keys(final(self).entries()) == if has_miner(e1, m) {
                        miner_keys(e1)
                    } else {
                        miner_keys(e1).push(m)
                    }
                }
            }),
    {
        // Check epoch
        if share.header.epoch_index != self.current_epoch {
            return Err(Error::InvalidShare);
        }
        // Check duplicate
        if contains_hash(&self.shares, &share.hash) {
            return Err(Error::InvalidShare);
        }
        // Check per-miner limit: shares over it are ignored
        let ghost e0 = self.entries();
        let found = find_miner(&self.shares, &share.miner_id);
        if let Some(k) = found {
            proof {
                lemma_shares_of_index(e0, k as int);
            }
            if self.shares[k].1.len() >= MAX_SHARES_PER_MINER_PER_EPOCH as usize {
                return Err(Error::InvalidShare);
            }
        }
        proof {
            if let Some(k0) = found {
                lemma_shares_of_index(e0, k0 as int);
            }
            assert(shares_of(e0, share.miner_id).len() < MAX_SHARES_PER_MINER_PER_EPOCH);
        }
        // Estimate memory usage (rough)
        let share_size = core::mem::size_of::<SharePacket>();
        let ghost old_memory = self.memory_usage;
        let ghost old_count = self.share_count;
        // Check total memory limit
        if share_size > self.max_memory_bytes || self.memory_usage > self.max_memory_bytes - share_size {
            // Spill the earliest share first
            self.spill_oldest();
        }
        let ghost e1 = self.entries();
        proof {
            assert(shares_of(e1, share.miner_id).len() < MAX_SHARES_PER_MINER_PER_EPOCH);
            // the memory after adding stays in bounds
            if old_memory + share_size > self.max_memory_bytes {
                if old_count > 0 {
                    assert(self.share_count == old_count - 1);
                    assert(self.memory_usage + share_size == old_memory) by (nonlinear_arith)
                        requires
                            self.memory_usage == self.share_count * share_size,
                            old_memory == old_count * share_size,
                            self.share_count == old_count - 1,
                    ;
                } else {
                    assert(old_memory == 0) by (nonlinear_arith)
                        requires
                            old_memory == old_count * share_size,
                            old_count == 0,
                    ;
                }
            }
            assert(self.memory_usage + share_size == (self.share_count + 1) * share_size) by (
            nonlinear_arith)
                requires
                    self.memory_usage == self.share_count * share_size,
            ;
        }
        let k = push_share(&mut self.shares, share);
        self.share_count = self.share_count + 1;
        self.memory_usage = self.memory_usage + share_size;
        proof {
            lemma_push_preserves(e1, self.entries(), k as int, share, self.current_epoch);
        }
        Ok(())
    }

    /// Get shares for a miner
    pub fn get_miner_shares(&self, miner_id: &MinerId) -> (r: Option<&Vec<SharePacket>>)
        requires
            self.wf(),
        ensures
            r is Some <==> has_miner(self.entries(), *miner_id),
            r matches Some(v) ==> v@ == shares_of(self.entries(), *miner_id),
    {
        match find_miner(&self.shares, miner_id) {
            Some(k) => {
                proof {
                    lemma_shares_of_index(self.entries(), k as int);
                }
                Some(&self.shares[k].1)
            },
            None => None,
        }
    }

    /// Get share count for miner
    pub fn miner_share_count(&self, miner_id: &MinerId) -> (r: usize)
        requires
            self.wf(),
        ensures
            r == shares_of(self.entries(), *miner_id).len(),
    {
        match find_miner(&self.shares, miner_id) {
            Some(k) => {
                proof {
                    lemma_shares_of_index(self.entries(), k as int);
                }
                self.shares[k].1.len()
            },
            None => 0,
        }
    }

    /// Get total shares
    pub fn total_shares(&self) -> (r: usize)
        ensures
            r == self.count(),
    {
        self.share_count
    }

    /// Get all miner IDs
    pub fn miners(&self) -> (r: Vec<MinerId>)
        ensures
            r@ == miner_keys(self.entries()),
    {
        miner_list(&self.shares)
    }

    /// Compute Merkle root for current epoch: the root of all share hashes
    /// in ascending order.
    pub fn compute_merkle_root(&self) -> (r: Hash32)
        ensures
            r@ == spec_pool_root(pool_hashes(self.entries())),
    {
        // Collect all share hashes
        let hashes = collect_hashes(&self.shares);
        // Sort for determinism
        let sorted = sort_hashes(&hashes);
        merkle_root(sorted.as_slice())
    }

    /// Create the commit of the current epoch at time `now`.
    pub fn create_epoch_commit_at(&mut self, now: u64) -> (r: EpochCommit)
        requires
            old(self).wf(),
        ensures
            final(self).wf(),
            r.epoch_index == old(self).epoch(),
            r.root@ == spec_pool_root(pool_hashes(old(self).entries())),
            r.timestamp == now,
            final(self).commits() == old(self).commits().insert(old(self).epoch(), r),
            final(self).entries() == old(self).entries(),
            final(self).count() == old(self).count(),
            final(self).memory() == old(self).memory(),
            final(self).epoch() == old(self).epoch(),
            final(self).max_memory() == old(self).max_memory(),
    {
        broadcast use vstd::std_specs::hash::group_hash_axioms;

        let commit = EpochCommit {
            epoch_index: self.current_epoch,
            root: self.compute_merkle_root(),
            timestamp: now,
        };
        self.epoch_commits.insert(self.current_epoch, commit);
        commit
    }

    /// Create epoch commit for current epoch
    pub fn create_epoch_commit(&mut self) -> (r: EpochCommit)
        requires
            old(self).wf(),
        ensures
            final(self).wf(),
            r.epoch_index == old(self).epoch(),
            r.root@ == spec_pool_root(pool_hashes(old(self).entries())),
            final(self).commits() == old(self).commits().insert(old(self).epoch(), r),
            final(self).entries() == old(self).entries(),
            final(self).count() == old(self).count(),
            final(self).memory() == old(self).memory(),
            final(self).epoch() == old(self).epoch(),
            final(self).max_memory() == old(self).max_memory(),
    {
        let now = unix_time_now();
        self.create_epoch_commit_at(now)
    }

    /// Clear for new epoch
    pub fn new_epoch(&mut self)
        requires
            old(self).epoch() < u32::MAX,
        ensures
            final(self).wf(),
            final(self).entries() == Seq::<(MinerId, Seq<SharePacket>)>::empty(),
            final(self).count() == 0,
            final(self).memory() == 0,
            final(self).epoch() == old(self).epoch() + 1,
            final(self).commits() == old(self).commits(),
            final(self).max_memory() == old(self).max_memory(),
    {
        self.shares.clear();
        self.share_count = 0;
        self.memory_usage = 0;
        self.current_epoch = self.current_epoch + 1;
        assert(self.entries() =~= Seq::<(MinerId, Seq<SharePacket>)>::empty());
    }

    /// Get epoch commit
    pub fn get_epoch_commit(&self, epoch: u32) -> (r: Option<&EpochCommit>)
        ensures
            r is Some <==> self.commits().contains_key(epoch),
            r matches Some(c) ==> *c == self.commits()[epoch],
    {
        broadcast use vstd::std_specs::hash::group_hash_axioms;

        self.epoch_commits.get(&epoch)
    }

    /// Check if local root matches peer's
    pub fn check_consistency(&self, peer_root: &Hash32) -> (r: bool)
        ensures
            r == (spec_pool_root(pool_hashes(self.entries())) == peer_root@),
    {
        let local_root = self.compute_merkle_root();
        bytes32_eq(&local_root, peer_root)
    }

    /// Get shares batch for resync
    pub fn get_shares_batch(&self, miner_ids: &[MinerId], offset: usize, limit: usize) -> (r: Vec<
        SharePacket,
    >)
        requires
            self.wf(),
        ensures
            r@ == spec_shares_batch(self.entries(), miner_ids@, offset as int, limit as int),
    {
        let ghost e = self.entries();
        let mut result: Vec<SharePacket> = Vec::new();
        let mut i: usize = 0;
        while i < miner_ids.len()
            invariant
                i <= miner_ids@.len(),
                e == self.entries(),
                self.wf(),
                result@ == spec_shares_batch(e, miner_ids@.take(i as int), offset as int, limit as int),
            decreases miner_ids@.len() - i,
        {
            let ghost before = result@;
            let ghost ids = miner_ids@.take(i as int + 1);
            proof {
                assert(ids.drop_last() =~= miner_ids@.take(i as int));
                assert(ids.last() == miner_ids@[i as int]);
            }
            if let Some(k) = find_miner(&self.shares, &miner_ids[i]) {
                proof {
                    lemma_shares_of_index(e, k as int);
                }
                let shares = &self.shares[k].1;
                let start = if offset < shares.len() {
                    offset
                } else {
                    shares.len()
                };
                // the end of the batch, held at the list's end without overflow
                let end = if offset < shares.len() && limit < shares.len() - offset {
                    offset + limit
                } else {
                    shares.len()
                };
                let mut j = start;
                while j < end
                    invariant
                        start <= j <= end,
                        end <= shares@.len(),
                        result@ == before + shares@.subrange(start as int, j as int),
                    decreases end - j,
                {
                    result.push(shares[j]);
                    assert(shares@.subrange(start as int, j + 1) =~= shares@.subrange(
                        start as int,
                        j as int,
                    ).push(shares@[j as int]));
                    j = j + 1;
                }
                proof {
                    assert(result@ =~= before + batch_of(shares_of(e, ids.last()), offset as int, limit as int));
                }
            } else {
                proof {
                    assert(shares_of(e, ids.last()) == Seq::<SharePacket>::empty());
                    assert(result@ =~= before + batch_of(shares_of(e, ids.last()), offset as int, limit as int));
                }
            }
            i = i + 1;
        }
        assert(miner_ids@.take(miner_ids@.len() as int) =~= miner_ids@);
        result
    }

    /// Statistics
    pub fn stats(&self) -> (r: PoolStats)
        ensures
            r.current_epoch == self.epoch(),
            r.total_shares == self.count(),
            r.total_miners == self.entries().len(),
            r.memory_usage_mb == self.memory() / (1024 * 1024),
    {
        PoolStats {
            current_epoch: self.current_epoch,
            total_shares: self.share_count,
            total_miners: self.shares.len(),
            memory_usage_mb: self.memory_usage / (1024 * 1024),
        }
    }
}

/// Per-miner lists that are all empty hold no shares.
proof fn lemma_all_empty_total(e: MinerShares)
    requires
        forall|j: int| 0 <= j < e.len() ==> #[trigger] e[j].1.len() == 0,
    ensures
        share_total(e) == 0,
    decreases e.len(),
{
    if e.len() > 0 {
        assert(e.last().1.len() == 0);
        assert forall|j: int| 0 <= j < e.drop_last().len() implies #[trigger] e.drop_last()[j].1.len()
            == 0 by {
            assert(e.drop_last()[j] == e[j]);
        }
        lemma_all_empty_total(e.drop_last());
    }
}

/// Appending a share with a new hash of epoch `ep` keeps the pool's invariants.
proof fn lemma_push_preserves(e: MinerShares, f: MinerShares, k: int, share: SharePacket, ep: u32)
    requires
        keys_distinct(e),
        within_share_limit(e),
        hashes_unique(e),
        all_in_epoch(e, ep),
        !has_hash(e, share.hash),
        share.header.epoch_index == ep,
        shares_of(e, share.miner_id).len() < MAX_SHARES_PER_MINER_PER_EPOCH,
        0 <= k < f.len(),
        f[k] == (share.miner_id, shares_of(e, share.miner_id).push(share)),
        has_miner(e, share.miner_id) ==> k < e.len() && e[k].0 == share.miner_id && f == e.update(k, f[k]),
        !has_miner(e, share.miner_id) ==> f == e.push(f[k]) && k == e.len(),
    ensures
        within_share_limit(f),
        hashes_unique(f),
        all_in_epoch(f, ep),
{
    if has_miner(e, share.miner_id) {
        lemma_shares_of_index(e, k);
    }
    let old_len = if k < e.len() {
        e[k].1.len() as int
    } else {
        0
    };
    assert forall|i: int| 0 <= i < f.len() && i != k implies f[i] == e[i] by {}
    assert forall|a: int| 0 <= a < old_len implies f[k].1[a] == e[k].1[a] by {}
    assert(f[k].1.len() == old_len + 1);
    assert(f[k].1[old_len] == share);
    assert forall|i: int| 0 <= i < f.len() implies #[trigger] f[i].1.len() <= MAX_SHARES_PER_MINER_PER_EPOCH by {
        if i != k {
            assert(e[i].1.len() <= MAX_SHARES_PER_MINER_PER_EPOCH);
        }
    }
    assert forall|i: int, a: int, j: int, b: int|
        0 <= i < f.len() && 0 <= a < f[i].1.len() && 0 <= j < f.len() && 0 <= b < f[j].1.len() && (i
            != j || a != b) implies #[trigger] f[i].1[a].hash != #[trigger] f[j].1[b].hash by {
        let new_i = i == k && a == old_len;
        let new_j = j == k && b == old_len;
        if new_i && !new_j {
            assert(f[j].1[b] == e[j].1[b]);
            assert(!has_hash(e, share.hash));
        } else if new_j && !new_i {
            assert(f[i].1[a] == e[i].1[a]);
        } else if !new_i && !new_j {
            assert(f[i].1[a] == e[i].1[a]);
            assert(f[j].1[b] == e[j].1[b]);
        }
    }
    assert forall|i: int, a: int| 0 <= i < f.len() && 0 <= a < f[i].1.len() implies #[trigger]
        f[i].1[a].header.epoch_index == ep by {
        if !(i == k && a == old_len) {
            assert(f[i].1[a] == e[i].1[a]);
        }
    }
}

/// Looks for a held share with hash `h`.
fn contains_hash(v: &Vec<(MinerId, Vec<SharePacket>)>, h: &Hash32) -> (r: bool)
    ensures
        r == has_hash(entries_view(v@), *h),
{
    let ghost e = entries_view(v@);
    let mut i: usize = 0;
    while i < v.len()
        invariant
            i <= v@.len(),
            e == entries_view(v@),
            forall|i2: int, a: int| 0 <= i2 < i && 0 <= a < e[i2].1.len() ==> e[i2].1[a].hash != *h,
        decreases v@.len() - i,
    {
        let list = &v[i].1;
        let mut j: usize = 0;
        while j < list.len()
            invariant
                i < e.len(),
                e == entries_view(v@),
                j <= list@.len(),
                list@ == e[i as int].1,
                forall|a: int| 0 <= a < j ==> list@[a].hash != *h,
            decreases list@.len() - j,
        {
            if bytes32_eq(&list[j].hash, h) {
                assert(e[i as int].1[j as int].hash == *h);
                assert(has_hash(e, *h));
                return true;
            }
            j = j + 1;
        }
        i = i + 1;
    }
    false
}

} // verus!
