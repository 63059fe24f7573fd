//! Share structures and validation

use crate::block::{header_bytes, header_hash, BlockHeader};
use crate::constants::MAX_SHARES_PER_MINER_PER_EPOCH;
use crate::crypto::{argon2id_hash, prefilter_value, quick_prefilter};
use crate::error::Error;
use crate::types::{bytes32_eq, bytes_lt, Hash32, MinerId, Target};
use vstd::prelude::*;

verus! {

/// Share packet (180 bytes, little-endian)
#[derive(Debug, Clone, Copy)]
pub struct SharePacket {
    pub miner_id: MinerId,
    pub header: BlockHeader,
    pub nonce: u64,
    pub hash: Hash32,
}

/// Outcome of validating a share against a share target: the pre-filter must
/// pass with target 0, the carried hash must be the header's proof-of-work
/// hash, and that hash must be below the target.
pub open spec fn spec_validate_share(s: SharePacket, target_share: Target) -> Result<(), Error> {
    if prefilter_value(header_bytes(s.header), s.nonce) > 0 {
        Err(Error::InvalidShare)
    } else if header_hash(s.header) != s.hash@ {
        Err(Error::InvalidShare)
    } else if !bytes_lt(s.hash@, target_share.0@) {
        Err(Error::InvalidShare)
    } else {
        Ok(())
    }
}

impl SharePacket {
    /// Create new share packet
    pub fn new(miner_id: MinerId, header: BlockHeader, nonce: u64) -> (r: Self)
        ensures
            r.miner_id == miner_id,
            r.header == (BlockHeader { nonce, ..header }),
            r.nonce == nonce,
            r.hash@ == header_hash(r.header),
    {
        let mut share_header = header;
        share_header.nonce = nonce;
        let bytes = share_header.as_bytes();
        let hash = argon2id_hash(bytes.as_slice());
        SharePacket { miner_id, header: share_header, nonce, hash }
    }

    /// Validate share against target
    pub fn validate(&self, target_share: &Target) -> (r: Result<(), Error>)
        ensures
            r == spec_validate_share(*self, *target_share),
    {
        // Quick pre-filter
        let header_bytes = self.header.as_bytes();
        if !quick_prefilter(header_bytes.as_slice(), self.nonce, 0) {
            return Err(Error::InvalidShare);
        }
        // Verify hash
        let computed = argon2id_hash(header_bytes.as_slice());
        if !bytes32_eq(&computed, &self.hash) {
            return Err(Error::InvalidShare);
        }
        // Check against target
        if target_share.is_met_by(&self.hash) {
            Ok(())
        } else {
            Err(Error::InvalidShare)
        }
    }
}

/// True when the two miner ids are equal.
pub fn miner_id_eq(a: &MinerId, b: &MinerId) -> (r: bool)
    ensures
        r == (*a == *b),
{
    let mut i: usize = 0;
    while i < 20
        invariant
            0 <= i <= 20,
            forall|j: int| 0 <= j < i ==> a@[j] == b@[j],
        decreases 20 - i,
    {
        if a[i] != b[i] {
            return false;
        }
        i = i + 1;
    }
    assert(*a =~= *b);
    true
}

/// Per-miner lists of shares, in the order the miners first appeared.
pub type MinerShares = Seq<(MinerId, Seq<SharePacket>)>;

/// The abstract view of per-miner share vectors.
pub open spec fn entries_view(v: Seq<(MinerId, Vec<SharePacket>)>) -> MinerShares {
    v.map_values(|x: (MinerId, Vec<SharePacket>)| (x.0, x.1@))
}

/// No miner has two entries.
pub open spec fn keys_distinct(e: MinerShares) -> bool {
    forall|i: int, j: int| 0 <= i < j < e.len() ==> e[i].0 != e[j].0
}

/// The miners, in order.
pub open spec fn miner_keys(e: MinerShares) -> Seq<MinerId> {
    e.map_values(|x: (MinerId, Seq<SharePacket>)| x.0)
}

pub open spec fn has_miner(e: MinerShares, m: MinerId) -> bool {
    exists|i: int| 0 <= i < e.len() && e[i].0 == m
}

/// The shares held for a miner (none when the miner has no entry).
pub open spec fn shares_of(e: MinerShares, m: MinerId) -> Seq<SharePacket> {
    if has_miner(e, m) {
        e[choose|i: int| 0 <= i < e.len() && e[i].0 == m].1
    } else {
        Seq::empty()
    }
}

/// The number of shares held over all miners.
pub open spec fn share_total(e: MinerShares) -> nat
    decreases e.len(),
{
    if e.len() == 0 {
        0
    } else {
        share_total(e.drop_last()) + e.last().1.len()
    }
}

/// Every miner holds at most the per-epoch share limit.
pub open spec fn within_share_limit(e: MinerShares) -> bool {
    forall|i: int| 0 <= i < e.len() ==> #[trigger] e[i].1.len() <= MAX_SHARES_PER_MINER_PER_EPOCH
}

pub proof fn lemma_shares_of_index(e: MinerShares, k: int)
    requires
        keys_distinct(e),
        0 <= k < e.len(),
    ensures
        has_miner(e, e[k].0),
        shares_of(e, e[k].0) == e[k].1,
{
    let m = e[k].0;
    assert(has_miner(e, m));
    let i = choose|i: int| 0 <= i < e.len() && e[i].0 == m;
    assert(i == k);
}

pub proof fn lemma_share_total_update(e: MinerShares, k: int, v: (MinerId, Seq<SharePacket>))
    requires
        0 <= k < e.len(),
    ensures
        share_total(e.update(k, v)) == share_total(e) - e[k].1.len() + v.1.len(),
    decreases e.len(),
{
    let u = e.update(k, v);
    if k == e.len() - 1 {
        assert(u.drop_last() =~= e.drop_last());
    } else {
        assert(u.drop_last() =~= e.drop_last().update(k, v));
        lemma_share_total_update(e.drop_last(), k, v);
    }
}

pub proof fn lemma_share_total_push(e: MinerShares, v: (MinerId, Seq<SharePacket>))
    ensures
        share_total(e.push(v)) == share_total(e) + v.1.len(),
{
    assert(e.push(v).drop_last() =~= e);
}

/// Finds the entry of a miner.
pub fn find_miner(v: &Vec<(MinerId, Vec<SharePacket>)>, m: &MinerId) -> (r: Option<usize>)
    ensures
        match r {
            Some(k) => k < v@.len() && v@[k as int].0 == *m,
            None => !has_miner(entries_view(v@), *m),
        },
{
    let mut i: usize = 0;
    while i < v.len()
        invariant
            i <= v@.len(),
            forall|j: int| 0 <= j < i ==> v@[j].0 != *m,
        decreases v@.len() - i,
    {
        if miner_id_eq(&v[i].0, m) {
            return Some(i);
        }
        i = i + 1;
    }
    None
}

/// Appends a share to the list of its miner, creating the list when the miner
/// has none; returns the entry's index.
pub fn push_share(v: &mut Vec<(MinerId, Vec<SharePacket>)>, share: SharePacket) -> (k: usize)
    requires
        keys_distinct(entries_view(old(v)@)),
    ensures
        ({
            let e = entries_view(old(v)@);
            let f = entries_view(final(v)@);
            let m = share.miner_id;
            &&& keys_distinct(f)
            &&& k < f.len()
            &&& f[k as int] == (m, shares_of(e, m).push(share))
            &&& has_miner(e, m) ==> k < e.len() && e[k as int].0 == m && f == e.update(k as int, f[k as int])
            &&& !has_miner(e, m) ==> f == e.push(f[k as int]) && k == e.len()
            &&& share_total(f) == share_total(e) + 1
            &&& forall|m2: MinerId| #[trigger]
                shares_of(f, m2) == if m2 == m {
                    shares_of(e, m).push(share)
                } else {
                    shares_of(e, m2)
                }
            &&& miner_keys(f) == if has_miner(e, m) {
                miner_keys(e)
            } else {
                miner_keys(e).push(m)
            }
        }),
{
    let ghost e = entries_view(v@);
    match find_miner(v, &share.miner_id) {
        Some(k) => {
            proof {
                lemma_shares_of_index(e, k as int);
            }
            let (id, mut list) = v.remove(k);
            list.push(share);
            v.insert(k, (id, list));
            proof {
                let f = entries_view(v@);
                let n = (id, list@);
                assert(f =~= e.update(k as int, n));
                lemma_share_total_update(e, k as int, n);
                lemma_shares_of_index(f, k as int);
                lemma_shares_updated(e, k as int, n);
                assert(miner_keys(f) =~= miner_keys(e));
            }
            k
        },
        None => {
            let mut list: Vec<SharePacket> = Vec::new();
            list.push(share);
            let k = v.len();
            v.push((share.miner_id, list));
            proof {
                let f = entries_view(v@);
                let n = (share.miner_id, list@);
                assert(f =~= e.push(n));
                lemma_share_total_push(e, n);
                lemma_shares_of_index(f, k as int);
                assert(list@ =~= Seq::<SharePacket>::empty().push(share));
                lemma_shares_pushed(e, n);
                assert(miner_keys(f) =~= miner_keys(e).push(share.miner_id));
            }
            k
        },
    }
}

/// Replacing the list of entry `k` changes only that miner's shares.
pub proof fn lemma_shares_updated(e: MinerShares, k: int, n: (MinerId, Seq<SharePacket>))
    requires
        keys_distinct(e),
        0 <= k < e.len(),
        n.0 == e[k].0,
    ensures
        keys_distinct(e.update(k, n)),
        forall|m: MinerId| #[trigger]
            shares_of(e.update(k, n), m) == if m == n.0 {
                n.1
            } else {
                shares_of(e, m)
            },
{
    let f = e.update(k, n);
    assert forall|m: MinerId| #[trigger]
        shares_of(f, m) == if m == n.0 {
            n.1
        } else {
            shares_of(e, m)
        } by {
        if m == n.0 {
            lemma_shares_of_index(f, k);
        } else if has_miner(e, m) {
            let i = choose|i: int| 0 <= i < e.len() && e[i].0 == m;
            lemma_shares_of_index(e, i);
            lemma_shares_of_index(f, i);
        } else {
            assert(!has_miner(f, m));
        }
    }
}

/// Appending an entry for a new miner changes only that miner's shares.
pub proof fn lemma_shares_pushed(e: MinerShares, n: (MinerId, Seq<SharePacket>))
    requires
        keys_distinct(e),
        !has_miner(e, n.0),
    ensures
        keys_distinct(e.push(n)),
        forall|m: MinerId| #[trigger]
            shares_of(e.push(n), m) == if m == n.0 {
                n.1
            } else {
                shares_of(e, m)
            },
{
    let f = e.push(n);
    assert forall|m: MinerId| #[trigger]
        shares_of(f, m) == if m == n.0 {
            n.1
        } else {
            shares_of(e, m)
        } by {
        if m == n.0 {
            lemma_shares_of_index(f, e.len() as int);
        } else if has_miner(e, m) {
            let i = choose|i: int| 0 <= i < e.len() && e[i].0 == m;
            lemma_shares_of_index(e, i);
            lemma_shares_of_index(f, i);
        } else {
            assert(!has_miner(f, m));
        }
    }
}

/// Counts of (invalid, total) shares tracked per miner.
pub type ShareCounts = Seq<(MinerId, (u32, u32))>;

pub open spec fn counts_of(t: ShareCounts, m: MinerId) -> (u32, u32) {
    if exists|i: int| 0 <= i < t.len() && t[i].0 == m {
        t[choose|i: int| 0 <= i < t.len() && t[i].0 == m].1
    } else {
        (0, 0)
    }
}

pub open spec fn counts_distinct(t: ShareCounts) -> bool {
    forall|i: int, j: int| 0 <= i < j < t.len() ==> t[i].0 != t[j].0
}

proof fn lemma_counts_of_index(t: ShareCounts, k: int)
    requires
        counts_distinct(t),
        0 <= k < t.len(),
    ensures
        counts_of(t, t[k].0) == t[k].1,
{
    let m = t[k].0;
    let i = choose|i: int| 0 <= i < t.len() && t[i].0 == m;
    assert(i == k);
}

/// The decision to ban a miner: more than 30% of its tracked shares invalid.
pub open spec fn spec_ban_ratio_exceeded(invalid: u32, total: u32) -> bool {
    total > 0 && 10 * invalid > 3 * total
}

/// Share pool for current epoch
pub struct SharePool {
    shares: Vec<(MinerId, Vec<SharePacket>)>,
    share_count: usize,
    invalid_counts: Vec<(MinerId, (u32, u32))>,
}

impl SharePool {
    /// The per-miner share lists, in the order the miners first sent a share.
    pub closed spec fn entries(&self) -> MinerShares {
        entries_view(self.shares@)
    }

    /// The tracked (invalid, total) counts, per miner.
    pub closed spec fn counts(&self) -> ShareCounts {
        self.invalid_counts@
    }

    /// The share count the pool reports.
    pub closed spec fn count(&self) -> nat {
        self.share_count as nat
    }

    /// Well-formedness: one entry per miner, the count is the number of
    /// shares held, the per-miner limit holds, one counter pair per miner and
    /// no invalid count above its total.
    pub closed spec fn wf(&self) -> bool {
        &&& keys_distinct(self.entries())
        &&& self.share_count == share_total(self.entries())
        &&& within_share_limit(self.entries())
        &&& counts_distinct(self.invalid_counts@)
        &&& forall|i: int|
            0 <= i < self.invalid_counts@.len() ==> #[trigger] self.invalid_counts@[i].1.0
                <= self.invalid_counts@[i].1.1
    }

    /// A well-formed pool counts exactly the shares it holds and holds at most
    /// the per-epoch limit for each miner.
    pub proof fn lemma_wf_properties(&self)
        requires
            self.wf(),
        ensures
            self.count() == share_total(self.entries()),
            keys_distinct(self.entries()),
            within_share_limit(self.entries()),
            forall|m: MinerId| #[trigger]
                shares_of(self.entries(), m).len() <= MAX_SHARES_PER_MINER_PER_EPOCH,
            forall|m: MinerId| #[trigger] counts_of(self.counts(), m).0 <= counts_of(self.counts(), m).1,
    {
        assert forall|m: MinerId| #[trigger]
            shares_of(self.entries(), m).len() <= MAX_SHARES_PER_MINER_PER_EPOCH by {
            if has_miner(self.entries(), m) {
                let i = choose|i: int| 0 <= i < self.entries().len() && self.entries()[i].0 == m;
                lemma_shares_of_index(self.entries(), i);
            }
        }
        assert forall|m: MinerId| #[trigger] counts_of(self.counts(), m).0 <= counts_of(
            self.counts(),
            m,
        ).1 by {
            let t = self.counts();
            if exists|i: int| 0 <= i < t.len() && t[i].0 == m {
                let i = choose|i: int| 0 <= i < t.len() && t[i].0 == m;
                lemma_counts_of_index(t, i);
            }
        }
    }

    /// Create new empty share pool
    pub fn new() -> (r: Self)
        ensures
            r.wf(),
            r.entries() == Seq::<(MinerId, Seq<SharePacket>)>::empty(),
            r.counts() == Seq::<(MinerId, (u32, u32))>::empty(),
            r.count() == 0,
    {
        SharePool { shares: Vec::new(), share_count: 0, invalid_counts: Vec::new() }
    }

    /// Add share to pool: refused when its miner already holds the per-epoch
    /// limit, else appended to the miner's list.
    pub fn add_share(&mut self, share: SharePacket) -> (r: Result<(), Error>)
        requires
            old(self).wf(),
            old(self).count() < usize::MAX,
        ensures
            final(self).wf(),
            final(self).counts() == old(self).counts(),
            shares_of(old(self).entries(), share.miner_id).len() >= MAX_SHARES_PER_MINER_PER_EPOCH
                ==> r == Err::<(), Error>(Error::InvalidShare) && final(self).entries()
                == old(self).entries() && final(self).count() == old(self).count(),
            shares_of(old(self).entries(), share.miner_id).len() < MAX_SHARES_PER_MINER_PER_EPOCH
                ==> r == Ok::<(), Error>(()) && final(self).count() == old(self).count() + 1
                && (forall|m: MinerId| #[trigger]
                shares_of(final(self).entries(), m) == if m == share.miner_id {
                    shares_of(old(self).entries(), share.miner_id).push(share)
                } else {
                    shares_of(old(self).entries(), m)
                }) && miner_keys(final(self).entries()) == if has_miner(
                old(self).entries(),
                share.miner_id,
            ) {
                miner_keys(old(self).entries())
            } else {
                miner_keys(old(self).entries()).push(share.miner_id)
            },
    {
        let ghost e = self.entries();
        let found = find_miner(&self.shares, &share.miner_id);
        if let Some(k) = found {
            proof {
                lemma_shares_of_index(e, k as int);
            }
            // Check per-miner limit
            if self.shares[k].1.len() >= MAX_SHARES_PER_MINER_PER_EPOCH as usize {
                return Err(Error::InvalidShare);
            }
        }
        proof {
            if let Some(k0) = found {
                lemma_shares_of_index(e, k0 as int);
            }
            assert(shares_of(e, share.miner_id).len() < MAX_SHARES_PER_MINER_PER_EPOCH);
        }
        let k = push_share(&mut self.shares, share);
        proof {
            assert forall|i: int| 0 <= i < self.entries().len() implies #[trigger]
                self.entries()[i].1.len() <= MAX_SHARES_PER_MINER_PER_EPOCH by {
                let f = self.entries();
                if i != k {
                    if has_miner(e, share.miner_id) {
                        assert(f == e.update(k as int, f[k as int]));
                        assert(f[i] == e[i]);
                    } else {
                        assert(f == e.push(f[k as int]));
                        assert(f[i] == e[i]);
                    }
                }
            }
        }
        self.share_count = self.share_count + 1;
        Ok(())
    }

    /// Finds the counter pair of a miner.
    fn find_counts(&self, m: &MinerId) -> (r: Option<usize>)
        ensures
            match r {
                Some(k) => k < self.invalid_counts@.len() && self.invalid_counts@[k as int].0 == *m,
                None => forall|i: int|
                    0 <= i < self.invalid_counts@.len() ==> self.invalid_counts@[i].0 != *m,
            },
    {
        let mut i: usize = 0;
        while i < self.invalid_counts.len()
            invariant
                i <= self.invalid_counts@.len(),
                forall|j: int| 0 <= j < i ==> self.invalid_counts@[j].0 != *m,
            decreases self.invalid_counts@.len() - i,
        {
            if miner_id_eq(&self.invalid_counts[i].0, m) {
                return Some(i);
            }
            i = i + 1;
        }
        None
    }

    /// Adds `invalid` and one to the counter pair of a miner.
    fn bump_counts(&mut self, miner_id: MinerId, invalid: u32)
        requires
            old(self).wf(),
            invalid <= 1,
            counts_of(old(self).counts(), miner_id).1 < u32::MAX,
        ensures
            final(self).wf(),
            final(self).entries() == old(self).entries(),
            final(self).count() == old(self).count(),
            forall|m: MinerId| #[trigger]
                counts_of(final(self).counts(), m) == if m == miner_id {
                    (
                        (counts_of(old(self).counts(), m).0 + invalid) as u32,
                        (counts_of(old(self).counts(), m).1 + 1) as u32,
                    )
                } else {
                    counts_of(old(self).counts(), m)
                },
    {
        let ghost t = self.invalid_counts@;
        match self.find_counts(&miner_id) {
            Some(k) => {
                proof {
                    lemma_counts_of_index(t, k as int);
                }
                let (id, (inv, tot)) = self.invalid_counts[k];
                self.invalid_counts.set(k, (id, (inv + invalid, tot + 1)));
                proof {
                    let t2 = self.invalid_counts@;
                    assert forall|m: MinerId| #[trigger]
                        counts_of(t2, m) == if m == miner_id {
                            ((counts_of(t, m).0 + invalid) as u32, (counts_of(t, m).1 + 1) as u32)
                        } else {
                            counts_of(t, m)
                        } by {
                        if m == miner_id {
                            lemma_counts_of_index(t2, k as int);
                        } else if exists|i: int| 0 <= i < t.len() && t[i].0 == m {
                            let i = choose|i: int| 0 <= i < t.len() && t[i].0 == m;
                            lemma_counts_of_index(t, i);
                            lemma_counts_of_index(t2, i);
                        } else {
                            assert(!exists|i: int| 0 <= i < t2.len() && t2[i].0 == m);
                        }
                    }
                }
            },
            None => {
                self.invalid_counts.push((miner_id, (invalid, 1)));
                proof {
                    let t2 = self.invalid_counts@;
                    lemma_counts_of_index(t2, t.len() as int);
                    assert forall|m: MinerId| #[trigger]
                        counts_of(t2, m) == if m == miner_id {
                            ((counts_of(t, m).0 + invalid) as u32, (counts_of(t, m).1 + 1) as u32)
                        } else {
                            counts_of(t, m)
                        } by {
                        if m != miner_id && exists|i: int| 0 <= i < t.len() && t[i].0 == m {
                            let i = choose|i: int| 0 <= i < t.len() && t[i].0 == m;
                            lemma_counts_of_index(t, i);
                            lemma_counts_of_index(t2, i);
                        } else if m != miner_id {
                            assert(!exists|i: int| 0 <= i < t2.len() && t2[i].0 == m);
                        }
                    }
                }
            },
        }
    }

    /// Track invalid share
    pub fn track_invalid(&mut self, miner_id: MinerId)
        requires
            old(self).wf(),
            counts_of(old(self).counts(), miner_id).1 < u32::MAX,
        ensures
            final(self).wf(),
            final(self).entries() == old(self).entries(),
            final(self).count() == old(self).count(),
            forall|m: MinerId| #[trigger]
                counts_of(final(self).counts(), m) == if m == miner_id {
                    (
                        (counts_of(old(self).counts(), m).0 + 1) as u32,
                        (counts_of(old(self).counts(), m).1 + 1) as u32,
                    )
                } else {
                    counts_of(old(self).counts(), m)
                },
    {
        self.bump_counts(miner_id, 1);
    }

    /// Track valid share
    pub fn track_valid(&mut self, miner_id: MinerId)
        requires
            old(self).wf(),
            counts_of(old(self).counts(), miner_id).1 < u32::MAX,
        ensures
            final(self).wf(),
            final(self).entries() == old(self).entries(),
            final(self).count() == old(self).count(),
            forall|m: MinerId| #[trigger]
                counts_of(final(self).counts(), m) == if m == miner_id {
                    (counts_of(old(self).counts(), m).0, (counts_of(old(self).counts(), m).1
                        + 1) as u32)
                } else {
                    counts_of(old(self).counts(), m)
                },
    {
        self.bump_counts(miner_id, 0);
    }

    /// Check if miner should be banned (>30% invalid)
    pub fn should_ban(&self, miner_id: MinerId) -> (r: bool)
        requires
            self.wf(),
        ensures
            r == spec_ban_ratio_exceeded(
                counts_of(self.counts(), miner_id).0,
                counts_of(self.counts(), miner_id).1,
            ),
    {
        match self.find_counts(&miner_id) {
            Some(k) => {
                proof {
                    lemma_counts_of_index(self.invalid_counts@, k as int);
                }
                let (_, (invalid, total)) = self.invalid_counts[k];
                total > 0 && 10 * (invalid as u64) > 3 * (total as u64)
            },
            None => false,
        }
    }

    /// Get shares for a miner
    pub fn get_miner_shares(&self, miner_id: &MinerId) -> (r: Option<&Vec<SharePacket>>)
        requires
            self.wf(),
        ensures
            r is Some <==> has_miner(self.entries(), *miner_id),
            r matches Some(v) ==> v@ == shares_of(self.entries(), *miner_id),
    {
        match find_miner(&self.shares, miner_id) {
            Some(k) => {
                proof {
                    lemma_shares_of_index(self.entries(), k as int);
                }
                Some(&self.shares[k].1)
            },
            None => None,
        }
    }

    /// Get share count for miner
    pub fn miner_share_count(&self, miner_id: &MinerId) -> (r: usize)
        requires
            self.wf(),
        ensures
            r == shares_of(self.entries(), *miner_id).len(),
    {
        match find_miner(&self.shares, miner_id) {
            Some(k) => {
                proof {
                    lemma_shares_of_index(self.entries(), k as int);
                }
                self.shares[k].1.len()
            },
            None => 0,
        }
    }

    /// Get total shares in pool
    pub fn total_shares(&self) -> (r: usize)
        ensures
            r == self.count(),
    {
        self.share_count
    }

    /// Get all miner IDs
    pub fn miners(&self) -> (r: Vec<MinerId>)
        ensures
            r@ == miner_keys(self.entries()),
    {
        miner_list(&self.shares)
    }

    /// Clear pool for new epoch
    pub fn clear(&mut self)
        ensures
            final(self).wf(),
            final(self).entries() == Seq::<(MinerId, Seq<SharePacket>)>::empty(),
            final(self).counts() == Seq::<(MinerId, (u32, u32))>::empty(),
            final(self).count() == 0,
    {
        self.shares.clear();
        self.share_count = 0;
        self.invalid_counts.clear();
    }
}

/// The miners of per-miner share lists, in order.
pub fn miner_list(v: &Vec<(MinerId, Vec<SharePacket>)>) -> (r: Vec<MinerId>)
    ensures
        r@ == miner_keys(entries_view(v@)),
{
    let mut out: Vec<MinerId> = Vec::new();
    let mut i: usize = 0;
    while i < v.len()
        invariant
            i <= v@.len(),
            out@ =~= miner_keys(entries_view(v@)).take(i as int),
        decreases v@.len() - i,
    {
        out.push(v[i].0);
        i = i + 1;
    }
    assert(miner_keys(entries_view(v@)).take(v@.len() as int) =~= miner_keys(entries_view(v@)));
    out
}

/// The share target: the block target shifted left by 8 bits (one byte), so
/// that about 256 shares are found for each block.
pub open spec fn spec_target_share(target_block: Seq<u8>) -> Seq<u8> {
    Seq::new(32, |i: int| if i < 31 { target_block[i + 1] } else { 0u8 })
}

/// Calculate target_share from target_block
pub fn target_share_from_block(target_block: &Target) -> (r: Target)
    ensures
        r.0@ == spec_target_share(target_block.0@),
{
    let mut result: [u8; 32] = [0u8; 32];
    let mut i: usize = 0;
    while i < 31
        invariant
            0 <= i <= 31,
            forall|j: int| 0 <= j < 32 ==> #[trigger] result@[j] == if j < i {
                target_block.0@[j + 1]
            } else {
                0u8
            },
        decreases 31 - i,
    {
        result[i] = target_block.0[i + 1];
        i = i + 1;
    }
    assert(result@ =~= spec_target_share(target_block.0@));
    Target(result)
}

} // verus!
