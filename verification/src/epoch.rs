//! Epoch state and the epoch rules on block timestamps and the next target

use crate::block::BlockHeader;
use crate::clock::unix_time_now;
use crate::constants::EPOCH_BLOCKS;
use crate::difficulty::{adjust_difficulty, spec_adjust_difficulty};
use crate::error::Error;
use crate::pool::{EpochCommit, PersistentSharePool};
use crate::share::{miner_keys, spec_target_share, target_share_from_block, MinerShares};
use crate::types::{EpochIndex, MinerId, Target};
use vstd::prelude::*;
use vstd::relations::{sorted_by, total_ordering};

verus! {

/// Epoch state
#[derive(Debug, Clone, Copy)]
pub struct Epoch {
    pub index: EpochIndex,
    pub start_block: u64,
    pub end_block: u64,
    pub start_time: u64,
    pub end_time: Option<u64>,
    pub target_block: Target,
    pub target_share: Target,
    pub total_shares: u64,
    pub active_miners: usize,
}

/// A new epoch `index` that starts at block `start_block` at time `start_time`
/// under the block target `target`: it spans `EPOCH_BLOCKS` blocks, has not
/// ended, takes shares at the share target of `target` and has no stats yet.
pub open spec fn is_fresh_epoch(e: Epoch, index: EpochIndex, start_block: u64, start_time: u64, target: Seq<u8>) -> bool {
    &&& e.index == index
    &&& e.start_block == start_block
    &&& e.end_block == start_block + EPOCH_BLOCKS - 1
    &&& e.start_time == start_time
    &&& e.end_time is None
    &&& e.target_block.0@ == target
    &&& e.target_share.0@ == spec_target_share(target)
    &&& e.total_shares == 0
    &&& e.active_miners == 0
}

impl Epoch {
    /// Create new epoch: it spans 1440 blocks from `start_block`.
    pub fn new(index: EpochIndex, start_block: u64, start_time: u64, target_block: Target) -> (r: Self)
        requires
            start_block + EPOCH_BLOCKS <= u64::MAX,
        ensures
            r.index == index,
            r.start_block == start_block,
            r.end_block == start_block + EPOCH_BLOCKS - 1,
            r.start_time == start_time,
            r.end_time == None::<u64>,
            r.target_block == target_block,
            r.target_share.0@ == spec_target_share(target_block.0@),
            r.total_shares == 0,
            r.active_miners == 0,
            is_fresh_epoch(r, index, start_block, start_time, target_block.0@),
    {
        let target_share = target_share_from_block(&target_block);
        Epoch {
            index,
            start_block,
            end_block: start_block + EPOCH_BLOCKS - 1,
            start_time,
            end_time: None,
            target_block,
            target_share,
            total_shares: 0,
            active_miners: 0,
        }
    }

    /// Check if block belongs to this epoch
    pub fn contains_block(&self, height: u64) -> (r: bool)
        ensures
            r == (self.start_block <= height <= self.end_block),
    {
        height >= self.start_block && height <= self.end_block
    }

    /// Mark epoch as ended
    pub fn end(&mut self, end_time: u64)
        ensures
            *final(self) == (Epoch { end_time: Some(end_time), ..*old(self) }),
    {
        self.end_time = Some(end_time);
    }

    /// Update stats
    pub fn update_stats(&mut self, total_shares: u64, active_miners: usize)
        ensures
            *final(self) == (Epoch { total_shares, active_miners, ..*old(self) }),
    {
        self.total_shares = total_shares;
        self.active_miners = active_miners;
    }
}

/// The numeric order of timestamps.
pub open spec fn time_order() -> spec_fn(u64, u64) -> bool {
    |a: u64, b: u64| a <= b
}

/// The median of the last 11 timestamps: the sixth smallest of them.
pub open spec fn median_of_last_11(ts: Seq<u64>) -> u64 {
    ts.subrange(ts.len() - 11, ts.len() as int).sort_by(time_order())[5]
}

/// A new block's timestamp is accepted when fewer than 11 blocks are known,
/// or when it is later than the median of the last 11.
pub open spec fn spec_verify_timestamp(ts: Seq<u64>, timestamp: u64) -> bool {
    ts.len() < 11 || timestamp > median_of_last_11(ts)
}

/// How many of the timestamps are below `t`.
pub open spec fn count_below(s: Seq<u64>, t: u64) -> nat
    decreases s.len(),
{
    if s.len() == 0 {
        0
    } else {
        count_below(s.drop_last(), t) + if s.last() < t {
            1nat
        } else {
            0nat
        }
    }
}

/// Taking one timestamp out of a list takes it out of the count.
proof fn lemma_count_below_remove(s: Seq<u64>, j: int, t: u64)
    requires
        0 <= j < s.len(),
    ensures
        count_below(s, t) == count_below(s.remove(j), t) + if s[j] < t {
            1nat
        } else {
            0nat
        },
    decreases s.len(),
{
    if j == s.len() - 1 {
        assert(s.remove(j) =~= s.drop_last());
    } else {
        assert(s.remove(j).drop_last() =~= s.drop_last().remove(j));
        assert(s.remove(j).last() == s.last());
        lemma_count_below_remove(s.drop_last(), j, t);
    }
}

/// The count does not depend on the order of the timestamps.
proof fn lemma_count_below_permutation(s: Seq<u64>, u: Seq<u64>, t: u64)
    requires
        s.to_multiset() == u.to_multiset(),
    ensures
        count_below(s, t) == count_below(u, t),
    decreases s.len(),
{
    broadcast use vstd::seq_lib::group_to_multiset_ensures;

    if s.len() == 0 {
        vstd::seq_lib::to_multiset_len(u);
        vstd::seq_lib::to_multiset_len(s);
        assert(u.len() == 0);
    } else {
        let x = s.last();
        let s1 = s.drop_last();
        assert(s =~= s1.push(x));
        vstd::seq_lib::to_multiset_build(s1, x);
        assert(s.to_multiset().count(x) > 0);
        assert(u.to_multiset().count(x) > 0);
        assert(u.contains(x));
        let j = choose|j: int| 0 <= j < u.len() && u[j] == x;
        vstd::seq_lib::to_multiset_remove(u, j);
        assert(s1.to_multiset() =~= u.remove(j).to_multiset());
        lemma_count_below_permutation(s1, u.remove(j), t);
        lemma_count_below_remove(u, j, t);
    }
}

/// When the first `k` timestamps are below `t`, at least `k` are.
proof fn lemma_count_below_at_least(s: Seq<u64>, t: u64, k: int)
    requires
        0 <= k <= s.len(),
        forall|i: int| 0 <= i < k ==> s[i] < t,
    ensures
        count_below(s, t) >= k,
    decreases s.len(),
{
    if s.len() > 0 {
        if k == s.len() {
            lemma_count_below_at_least(s.drop_last(), t, k - 1);
        } else {
            lemma_count_below_at_least(s.drop_last(), t, k);
        }
    }
}

/// When the timestamps from index `k` on are not below `t`, at most `k` are.
proof fn lemma_count_below_at_most(s: Seq<u64>, t: u64, k: int)
    requires
        0 <= k,
        forall|i: int| k <= i < s.len() ==> s[i] >= t,
    ensures
        count_below(s, t) <= k,
    decreases s.len(),
{
    if s.len() > 0 {
        if s.len() - 1 >= k {
            lemma_count_below_at_most(s.drop_last(), t, k);
        } else {
            lemma_count_below_at_most(s.drop_last(), t, k - 1);
            assert(count_below(s.drop_last(), t) <= s.drop_last().len()) by {
                lemma_count_below_at_most(s.drop_last(), t, s.drop_last().len() as int);
            }
        }
    }
}

/// The timestamp check looks at the last 11 blocks only: with fewer than 11
/// blocks known every timestamp is accepted; else a timestamp is accepted
/// exactly when more than 5 of the last 11 timestamps are below it, whatever
/// came before them.
pub proof fn lemma_verify_timestamp_last_11(ts: Seq<u64>, t: u64)
    ensures
        ts.len() < 11 ==> spec_verify_timestamp(ts, t),
        ts.len() >= 11 ==> (spec_verify_timestamp(ts, t) <==> count_below(
            ts.subrange(ts.len() - 11, ts.len() as int),
            t,
        ) > 5),
        ts.len() >= 11 ==> spec_verify_timestamp(ts, t) == spec_verify_timestamp(
            ts.subrange(ts.len() - 11, ts.len() as int),
            t,
        ),
{
    if ts.len() >= 11 {
        let last = ts.subrange(ts.len() - 11, ts.len() as int);
        let sorted = last.sort_by(time_order());
        assert(total_ordering(time_order()));
        last.lemma_sort_by_ensures(time_order());
        vstd::seq_lib::to_multiset_len(last);
        vstd::seq_lib::to_multiset_len(sorted);
        assert(sorted.len() == 11);
        lemma_count_below_permutation(sorted, last, t);
        if t > sorted[5] {
            assert forall|i: int| 0 <= i < 6 implies sorted[i] < t by {
                if i < 5 {
                    assert((time_order())(sorted[i], sorted[5]));
                }
            }
            lemma_count_below_at_least(sorted, t, 6);
        } else {
            assert forall|i: int| 5 <= i < sorted.len() implies sorted[i] >= t by {
                if i > 5 {
                    assert((time_order())(sorted[5], sorted[i]));
                }
            }
            lemma_count_below_at_most(sorted, t, 5);
        }
        assert(last.subrange(last.len() - 11, last.len() as int) =~= last);
    }
}

/// Sorts timestamps in ascending order.
fn sort_times(v: &Vec<u64>) -> (r: Vec<u64>)
    ensures
        r@ == v@.sort_by(time_order()),
{
    broadcast use vstd::seq_lib::group_to_multiset_ensures;

    let mut out: Vec<u64> = Vec::new();
    let mut i: usize = 0;
    assert(v@.take(0) =~= Seq::<u64>::empty());
    assert(out@ =~= Seq::<u64>::empty());
    while i < v.len()
        invariant
            i <= v@.len(),
            forall|a: int, b: int| 0 <= a < b < out@.len() ==> out@[a] <= out@[b],
            out@.to_multiset() == v@.take(i as int).to_multiset(),
        decreases v@.len() - i,
    {
        let x = v[i];
        let mut p: usize = 0;
        while p < out.len() && out[p] <= x
            invariant
                p <= out@.len(),
                forall|j: int| 0 <= j < p ==> out@[j] <= x,
            decreases out@.len() - p,
        {
            p = p + 1;
        }
        let ghost before = out@;
        out.insert(p, x);
        proof {
            before.insert_ensures(p as int, x);
            assert forall|a: int, b: int| 0 <= a < b < out@.len() implies out@[a] <= out@[b] by {
                if b < p {
                } else if a < p && b == p {
                } else if a < p && b > p {
                    assert(out@[b] == before[b - 1]);
                } else if a == p {
                    assert(out@[b] == before[b - 1]);
                } else {
                    assert(out@[a] == before[a - 1]);
                    assert(out@[b] == before[b - 1]);
                }
            }
            assert(x == v@[i as int]);
            assert(v@.take(i as int + 1) =~= v@.take(i as int).push(x));
            vstd::seq_lib::to_multiset_insert(before, p as int, x);
            vstd::seq_lib::to_multiset_build(v@.take(i as int), x);
        }
        i = i + 1;
    }
    proof {
        assert(v@.take(v@.len() as int) =~= v@);
        assert(total_ordering(time_order()));
        assert forall|a: int, b: int| 0 <= a < b < out@.len() implies #[trigger] (time_order())(
            out@[a],
            out@[b],
        ) by {}
        assert(sorted_by(out@, time_order()));
        v@.lemma_sort_by_ensures(time_order());
        vstd::seq_lib::lemma_sorted_unique(out@, v@.sort_by(time_order()), time_order());
    }
    out
}

/// Whether `timestamp` is accepted after the blocks of `block_timestamps`.
fn timestamp_after_median(block_timestamps: &Vec<u64>, timestamp: u64) -> (r: bool)
    ensures
        r == spec_verify_timestamp(block_timestamps@, timestamp),
{
    if block_timestamps.len() < 11 {
        return true;
    }
    let mut last_11: Vec<u64> = Vec::new();
    let start = block_timestamps.len() - 11;
    let mut i = start;
    while i < block_timestamps.len()
        invariant
            start == block_timestamps@.len() - 11,
            start <= i <= block_timestamps@.len(),
            last_11@ =~= block_timestamps@.subrange(start as int, i as int),
        decreases block_timestamps@.len() - i,
    {
        last_11.push(block_timestamps[i]);
        i = i + 1;
    }
    let sorted = sort_times(&last_11);
    proof {
        assert(last_11@.len() == 11);
        assert(total_ordering(time_order()));
        last_11@.lemma_sort_by_ensures(time_order());
        vstd::seq_lib::to_multiset_len(last_11@);
        vstd::seq_lib::to_multiset_len(sorted@);
    }
    let median = sorted[5];
    timestamp > median
}

/// The target for the next epoch: the current one when fewer than 120 block
/// timestamps are known, else the current one adjusted by the time the last
/// 120 blocks took.
pub open spec fn spec_next_target(ts: Seq<u64>, current: Seq<u8>) -> Seq<u8> {
    if ts.len() < 120 {
        current
    } else {
        spec_adjust_difficulty(current, (ts[ts.len() - 1] - ts[ts.len() - 120]) as u64)
    }
}

/// The next target looks at the last 120 blocks only: with fewer known it is
/// the current target; else it is the current target adjusted by the time
/// from the block 120 before the last to the last, and blocks before those
/// 120 change nothing.
pub proof fn lemma_next_target_last_120(earlier: Seq<u64>, ts: Seq<u64>, current: Seq<u8>)
    ensures
        ts.len() < 120 ==> spec_next_target(ts, current) == current,
        ts.len() >= 120 && ts[ts.len() - 120] <= ts[ts.len() - 1] ==> spec_next_target(ts, current)
            == spec_adjust_difficulty(current, (ts[ts.len() - 1] - ts[ts.len() - 120]) as u64),
        ts.len() >= 120 ==> spec_next_target(earlier + ts, current) == spec_next_target(ts, current),
{
    let all = earlier + ts;
    if ts.len() >= 120 {
        assert(all[all.len() - 1] == ts[ts.len() - 1]);
        assert(all[all.len() - 120] == ts[ts.len() - 120]);
    }
}

/// Calculate next epoch target based on last 120 blocks
pub fn calculate_next_target(block_timestamps: &Vec<u64>, current_target: Target) -> (r: Target)
    requires
        block_timestamps@.len() >= 120 ==> block_timestamps@[block_timestamps@.len() - 120]
            <= block_timestamps@[block_timestamps@.len() - 1],
    ensures
        r.0@ == spec_next_target(block_timestamps@, current_target.0@),
{
    if block_timestamps.len() < 120 {
        // Not enough blocks, use current target
        return current_target;
    }
    let start = block_timestamps[block_timestamps.len() - 120];
    let end = block_timestamps[block_timestamps.len() - 1];
    let time_span = end - start;
    adjust_difficulty(&current_target, time_span)
}

/// The height a block is recorded at: its epoch's first height counted in
/// whole epochs, plus its nonce.
pub open spec fn spec_block_height(h: BlockHeader) -> int {
    h.epoch_index * EPOCH_BLOCKS + h.nonce
}

/// The checks a block passes before it is recorded: it is of the current epoch
/// and its timestamp is later than the median of the last 11 blocks.
pub open spec fn spec_check_block(current: EpochIndex, ts: Seq<u64>, h: BlockHeader) -> Result<(), Error> {
    if h.epoch_index != current {
        Err(Error::InvalidEpoch)
    } else if !spec_verify_timestamp(ts, h.timestamp) {
        Err(Error::InvalidTimestamp)
    } else {
        Ok(())
    }
}

/// Whether recording a block after `n` known blocks ends the epoch: every
/// epoch ends with its 1440th block.
pub open spec fn ends_epoch(n: nat) -> bool {
    (n + 1) % (EPOCH_BLOCKS as nat) == 0
}

/// The epoch `e` once it ended at `now` with the given stats.
pub open spec fn ended_epoch(e: Epoch, now: u64, total_shares: u64, active_miners: usize) -> Epoch {
    Epoch { end_time: Some(now), total_shares, active_miners, ..e }
}

/// What adding the block `h` at time `now` with outcome `r` makes of the
/// manager `old`: a refused block changes nothing; an accepted one is recorded
/// with its timestamp and height; when it fills the epoch, the epoch ends at
/// `now` with the pool's share and miner counts, the next epoch starts after
/// the block at the target the last 120 blocks call for, and the pool moves to
/// the next epoch, emptied.
pub open spec fn block_added(old: EpochManager, new: EpochManager, h: BlockHeader, now: u64, r: Result<(), Error>) -> bool {
    &&& r is Err ==> new == old
    &&& r is Ok ==> new.timestamps() == old.timestamps().push(h.timestamp)
    &&& r is Ok ==> new.heights() == old.heights().push(spec_block_height(h) as u64)
    &&& r is Ok && !ends_epoch(old.timestamps().len()) ==> {
        &&& new.current_index() == old.current_index()
        &&& new.epochs() == old.epochs()
        &&& new.pool() == old.pool()
    }
    &&& r is Ok && ends_epoch(old.timestamps().len()) ==> {
        let cur = old.current_index();
        let last = old.epochs()[cur - 1];
        &&& new.current_index() == cur + 1
        &&& new.epochs().len() == cur + 1
        &&& new.epochs().take(cur - 1) == old.epochs().take(cur - 1)
        &&& new.epochs()[cur - 1] == ended_epoch(
            last,
            now,
            old.pool().count() as u64,
            miner_keys(old.pool().entries()).len() as usize,
        )
        &&& is_fresh_epoch(
            new.epochs()[cur as int],
            (cur + 1) as u32,
            (spec_block_height(h) + 1) as u64,
            now,
            spec_next_target(new.timestamps(), last.target_block.0@),
        )
        &&& new.pool().entries() == Seq::<(MinerId, Seq<crate::share::SharePacket>)>::empty()
        &&& new.pool().count() == 0
        &&& new.pool().memory() == 0
        &&& new.pool().epoch() == old.pool().epoch() + 1
        &&& new.pool().commits() == old.pool().commits()
        &&& new.pool().max_memory() == old.pool().max_memory()
    }
}

/// Epoch manager: the epochs so far, the timestamps and heights of the blocks
/// recorded, and the share pool of the current epoch.
#[derive(Debug)]
pub struct EpochManager {
    epochs: Vec<Epoch>,
    current_epoch: EpochIndex,
    block_timestamps: Vec<u64>,
    block_heights: Vec<u64>,
    share_pool: PersistentSharePool,
}

impl EpochManager {
    /// The epochs so far; the epoch with index `i` is at position `i - 1`.
    pub closed spec fn epochs(&self) -> Seq<Epoch> {
        self.epochs@
    }

    /// The index of the current epoch.
    pub closed spec fn current_index(&self) -> EpochIndex {
        self.current_epoch
    }

    /// The timestamps of the blocks recorded, in order.
    pub closed spec fn timestamps(&self) -> Seq<u64> {
        self.block_timestamps@
    }

    /// The heights of the blocks recorded, in order.
    pub closed spec fn heights(&self) -> Seq<u64> {
        self.block_heights@
    }

    /// The share pool.
    pub closed spec fn pool(&self) -> PersistentSharePool {
        self.share_pool
    }

    /// Well-formedness: epochs `1..=current` are held in order, the current one
    /// last, one epoch for each 1440 blocks recorded (and the one under way),
    /// and the share pool is well formed.
    pub closed spec fn wf(&self) -> bool {
        &&& self.epochs_wf()
        &&& self.current_epoch == 1 + self.block_timestamps@.len() / (EPOCH_BLOCKS as nat)
    }

    /// The epochs `1..=current` held in order and the pool well formed.
    closed spec fn epochs_wf(&self) -> bool {
        &&& self.current_epoch >= 1
        &&& self.epochs@.len() == self.current_epoch
        &&& forall|k: int| 0 <= k < self.epochs@.len() ==> #[trigger] self.epochs@[k].index == k + 1
        &&& self.share_pool.wf()
    }

    /// The epoch advances once per 1440 blocks: after `n` blocks recorded
    /// the current epoch is `1 + n / 1440`.
    pub proof fn lemma_epoch_count(&self)
        requires
            self.wf(),
        ensures
            self.current_index() == 1 + self.timestamps().len() / (EPOCH_BLOCKS as nat),
            self.epochs().len() == self.current_index(),
    {
    }

    /// Create new epoch manager
    pub fn new(initial_target: Target) -> (r: Self)
        ensures
            r.wf(),
            r.current_index() == 1,
            r.epochs().len() == 1,
            is_fresh_epoch(r.epochs()[0], 1, 0, 1741353600, initial_target.0@),
            r.epochs()[0].target_block == initial_target,
            r.timestamps() == Seq::<u64>::empty(),
            r.heights() == Seq::<u64>::empty(),
            r.pool().wf(),
            r.pool().entries() == Seq::<(MinerId, Seq<crate::share::SharePacket>)>::empty(),
            r.pool().count() == 0,
            r.pool().epoch() == 1,
            r.pool().commits() == Map::<u32, EpochCommit>::empty(),
            r.pool().max_memory() == 500 * 1024 * 1024,
    {
        // Create genesis epoch
        let genesis_epoch = Epoch::new(1, 0, 1741353600, initial_target);
        let mut epochs: Vec<Epoch> = Vec::new();
        epochs.push(genesis_epoch);
        EpochManager {
            epochs,
            current_epoch: 1,
            block_timestamps: Vec::new(),
            block_heights: Vec::new(),
            share_pool: PersistentSharePool::new(500),
        }
    }

    /// Get current epoch
    pub fn current(&self) -> (r: Option<&Epoch>)
        requires
            self.wf(),
        ensures
            r == Some(&self.epochs()[self.current_index() - 1]),
    {
        Some(&self.epochs[(self.current_epoch - 1) as usize])
    }

    /// Get current epoch mutably
    pub fn current_mut(&mut self) -> (r: Option<&mut Epoch>)
        requires
            old(self).wf(),
        ensures
            r is Some,
            *r->0 == old(self).epochs()[old(self).current_index() - 1],
            final(self).epochs() == old(self).epochs().update(old(self).current_index() - 1, *final(r->0)),
            final(r->0).index == old(self).current_index() ==> final(self).wf(),
            final(self).current_index() == old(self).current_index(),
            final(self).timestamps() == old(self).timestamps(),
            final(self).heights() == old(self).heights(),
            final(self).pool() == old(self).pool(),
    {
        let i = (self.current_epoch - 1) as usize;
        Some(&mut self.epochs[i])
    }

    /// Get epoch by index
    pub fn get_epoch(&self, index: EpochIndex) -> (r: Option<&Epoch>)
        requires
            self.wf(),
        ensures
            r == (if 1 <= index <= self.current_index() {
                Some(&self.epochs()[index - 1])
            } else {
                None
            }),
    {
        if index >= 1 && index <= self.current_epoch {
            Some(&self.epochs[(index - 1) as usize])
        } else {
            None
        }
    }

    /// Get share pool
    pub fn share_pool(&self) -> (r: &PersistentSharePool)
        ensures
            *r == self.pool(),
    {
        &self.share_pool
    }

    /// Get share pool mutably
    pub fn share_pool_mut(&mut self) -> (r: &mut PersistentSharePool)
        ensures
            *r == old(self).pool(),
            final(self).pool() == *final(r),
            final(self).epochs() == old(self).epochs(),
            final(self).current_index() == old(self).current_index(),
            final(self).timestamps() == old(self).timestamps(),
            final(self).heights() == old(self).heights(),
            old(self).wf() && final(r).wf() ==> final(self).wf(),
    {
        &mut self.share_pool
    }

    /// Verify timestamp against median of last 11 blocks
    pub fn verify_timestamp(&self, timestamp: u64) -> (r: bool)
        ensures
            r == spec_verify_timestamp(self.timestamps(), timestamp),
    {
        timestamp_after_median(&self.block_timestamps, timestamp)
    }

    /// Whether adding `h` stays within the integer ranges: its height, and when
    /// it ends the epoch, the next epoch's blocks and index, the pool's epoch,
    /// and the span of the last 120 blocks, which must not run backwards.
    pub open spec fn add_block_in_range(&self, h: BlockHeader) -> bool {
        let ts = self.timestamps().push(h.timestamp);
        &&& spec_block_height(h) <= u64::MAX
        &&& (spec_check_block(self.current_index(), self.timestamps(), h) is Ok && ends_epoch(
            self.timestamps().len(),
        )) ==> {
            &&& spec_block_height(h) + 1 + EPOCH_BLOCKS <= u64::MAX
            &&& self.current_index() < u32::MAX
            &&& self.pool().epoch() < u32::MAX
            &&& ts.len() >= 120 ==> ts[ts.len() - 120] <= h.timestamp
        }
    }

    /// Whether adding `header` stays within the integer ranges.
    pub fn can_add_block(&self, header: &BlockHeader) -> (r: bool)
        requires
            self.wf(),
        ensures
            r == self.add_block_in_range(*header),
    {
        let height_ok = (header.epoch_index as u64) <= (u64::MAX - header.nonce) / EPOCH_BLOCKS;
        if !height_ok {
            proof {
                assert(spec_block_height(*header) > u64::MAX) by (nonlinear_arith)
                    requires
                        header.epoch_index > ((u64::MAX - header.nonce) as u64) / EPOCH_BLOCKS,
                        EPOCH_BLOCKS == 1440;
            }
            return false;
        }
        proof {
            assert(spec_block_height(*header) <= u64::MAX) by (nonlinear_arith)
                requires
                    header.epoch_index <= ((u64::MAX - header.nonce) as u64) / EPOCH_BLOCKS,
                    EPOCH_BLOCKS == 1440;
        }
        let height = header.epoch_index as u64 * EPOCH_BLOCKS + header.nonce;
        let accepted = header.epoch_index == self.current_epoch && self.verify_timestamp(
            header.timestamp,
        );
        let n = self.block_timestamps.len();
        if !(accepted && n as u64 % EPOCH_BLOCKS == EPOCH_BLOCKS - 1) {
            return true;
        }
        if height > u64::MAX - 1 - EPOCH_BLOCKS || self.current_epoch == u32::MAX
            || self.share_pool.stats().current_epoch == u32::MAX {
            return false;
        }
        if n >= 119 {
            self.block_timestamps[n - 119] <= header.timestamp
        } else {
            true
        }
    }

    /// Add a new block, ending the epoch at time `now` when it is full: the
    /// ended epoch records `now` and the pool's stats, the next epoch starts
    /// after the block at the target the last 120 blocks call for, and the
    /// pool moves to the next epoch.
    pub fn add_block_at(&mut self, header: &BlockHeader, now: u64) -> (r: Result<(), Error>)
        requires
            old(self).wf(),
            old(self).add_block_in_range(*header),
        ensures
            final(self).wf(),
            r == spec_check_block(old(self).current_index(), old(self).timestamps(), *header),
            block_added(*old(self), *final(self), *header, now, r),
    {
        let height = header.epoch_index as u64 * EPOCH_BLOCKS + header.nonce;
        // Verify epoch
        if header.epoch_index != self.current_epoch {
            return Err(Error::InvalidEpoch);
        }
        // Verify timestamp
        if !self.verify_timestamp(header.timestamp) {
            return Err(Error::InvalidTimestamp);
        }
        // Store timestamp
        self.block_timestamps.push(header.timestamp);
        self.block_heights.push(height);
        // Check if epoch ended
        if self.block_timestamps.len() as u64 % EPOCH_BLOCKS == 0 {
            self.end_current_epoch(height, now);
        }
        Ok(())
    }

    /// Add a new block, an ended epoch taking the wall clock's time.
    pub fn add_block(&mut self, header: &BlockHeader) -> (r: Result<(), Error>)
        requires
            old(self).wf(),
            old(self).add_block_in_range(*header),
        ensures
            final(self).wf(),
            r == spec_check_block(old(self).current_index(), old(self).timestamps(), *header),
            exists|now: u64| block_added(*old(self), *final(self), *header, now, r),
    {
        let now = unix_time_now();
        self.add_block_at(header, now)
    }

    /// End current epoch at time `now` and start the next, whose first block
    /// follows the last one recorded at `last_height`.
    fn end_current_epoch(&mut self, last_height: u64, now: u64)
        requires
            old(self).epochs_wf(),
            old(self).timestamps().len() % (EPOCH_BLOCKS as nat) == 0,
            old(self).current_index() == old(self).timestamps().len() / (EPOCH_BLOCKS as nat),
            old(self).heights().len() > 0,
            old(self).heights().last() == last_height,
            last_height + 1 + EPOCH_BLOCKS <= u64::MAX,
            old(self).current_index() < u32::MAX,
            old(self).pool().epoch() < u32::MAX,
            old(self).timestamps().len() >= 120 ==> old(self).timestamps()[old(self).timestamps().len()
                - 120] <= old(self).timestamps()[old(self).timestamps().len() - 1],
        ensures
            final(self).wf(),
            final(self).timestamps() == old(self).timestamps(),
            final(self).heights() == old(self).heights(),
            ({
                let cur = old(self).current_index();
                let last = old(self).epochs()[cur - 1];
                &&& final(self).current_index() == cur + 1
                &&& final(self).epochs().len() == cur + 1
                &&& final(self).epochs().take(cur - 1) == old(self).epochs().take(cur - 1)
                &&& final(self).epochs()[cur - 1] == ended_epoch(
                    last,
                    now,
                    old(self).pool().count() as u64,
                    miner_keys(old(self).pool().entries()).len() as usize,
                )
                &&& is_fresh_epoch(
                    final(self).epochs()[cur as int],
                    (cur + 1) as u32,
                    (last_height + 1) as u64,
                    now,
                    spec_next_target(old(self).timestamps(), last.target_block.0@),
                )
                &&& final(self).pool().entries() == Seq::<(MinerId, Seq<crate::share::SharePacket>)>::empty()
                &&& final(self).pool().count() == 0
                &&& final(self).pool().memory() == 0
                &&& final(self).pool().epoch() == old(self).pool().epoch() + 1
                &&& final(self).pool().commits() == old(self).pool().commits()
                &&& final(self).pool().max_memory() == old(self).pool().max_memory()
            }),
    {
        // Mark current epoch as ended, with the stats of the share pool
        let mut epoch = self.epochs.pop().unwrap();
        epoch.end(now);
        let total_shares = self.share_pool.total_shares() as u64;
        let active_miners = self.share_pool.miners().len();
        epoch.update_stats(total_shares, active_miners);
        let current_target = epoch.target_block;
        self.epochs.push(epoch);
        // Adjust difficulty for next epoch
        let new_target = calculate_next_target(&self.block_timestamps, current_target);
        // Create next epoch
        let next_epoch = self.current_epoch + 1;
        let next_start_block = last_height + 1;
        let next_epoch_obj = Epoch::new(next_epoch, next_start_block, now, new_target);
        self.epochs.push(next_epoch_obj);
        // Clear share pool for next epoch
        self.share_pool.new_epoch();
        self.current_epoch = next_epoch;
    }
}

} // verus!
