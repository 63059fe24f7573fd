//! Miner bonds, the registry's integer rules, and equivocation proofs

use crate::block::{header_hash, BlockHeader};
use crate::constants::{BOND_LOCKUP_BLOCKS, MINIMUM_BOND_LYT};
use crate::error::Error;
use crate::share::spec_ban_ratio_exceeded;
use crate::types::{bytes32_eq, bytes32_lt, bytes_lt, Amount, Height, MinerId};
use vstd::prelude::*;

verus! {

/// Bond entry for a miner
#[derive(Debug, Clone, Copy)]
pub struct BondEntry {
    pub amount: Amount,
    pub locked_until: Height,
    pub created_at: Height,
}

/// The bond a miner places at `height`: locked for `BOND_LOCKUP_BLOCKS` blocks.
pub open spec fn spec_new_bond(amount: Amount, height: Height) -> BondEntry {
    BondEntry { amount, locked_until: (height + BOND_LOCKUP_BLOCKS) as u64, created_at: height }
}

/// A bond is kept while its lock has not run out at `height`.
pub open spec fn locked_at(height: Height) -> spec_fn(BondEntry) -> bool {
    |b: BondEntry| b.locked_until > height
}

/// The total amount of a list of bonds.
pub open spec fn bond_sum(s: Seq<BondEntry>) -> nat
    decreases s.len(),
{
    if s.len() == 0 {
        0
    } else {
        bond_sum(s.drop_last()) + s.last().amount as nat
    }
}

proof fn lemma_bond_sum_prefix(s: Seq<BondEntry>, i: int)
    requires
        0 <= i <= s.len(),
    ensures
        bond_sum(s.take(i)) <= bond_sum(s),
    decreases s.len(),
{
    if i < s.len() {
        assert(s.drop_last().take(i) =~= s.take(i));
        lemma_bond_sum_prefix(s.drop_last(), i);
    } else {
        assert(s.take(i) =~= s);
    }
}

/// Dropping the bonds whose lock has run out never raises a miner's bond total.
pub proof fn lemma_bond_sum_filter(s: Seq<BondEntry>, height: Height)
    ensures
        bond_sum(s.filter(locked_at(height))) <= bond_sum(s),
    decreases s.len(),
{
    reveal(Seq::filter);
    if s.len() > 0 {
        lemma_bond_sum_filter(s.drop_last(), height);
        let sub = s.drop_last().filter(locked_at(height));
        if (locked_at(height))(s.last()) {
            assert(s.filter(locked_at(height)) == sub.push(s.last()));
            assert(sub.push(s.last()).drop_last() =~= sub);
        } else {
            assert(s.filter(locked_at(height)) == sub);
        }
    }
}

/// Creates the bond that a miner places at `current_height`; a bond below the
/// minimum is refused.
pub fn new_bond(amount: Amount, current_height: Height) -> (r: Result<BondEntry, Error>)
    requires
        amount >= MINIMUM_BOND_LYT ==> current_height + BOND_LOCKUP_BLOCKS <= u64::MAX,
    ensures
        amount < MINIMUM_BOND_LYT ==> r == Err::<BondEntry, Error>(Error::InsufficientInput),
        amount >= MINIMUM_BOND_LYT ==> r == Ok::<BondEntry, Error>(spec_new_bond(amount, current_height)),
{
    if amount < MINIMUM_BOND_LYT {
        return Err(Error::InsufficientInput);
    }
    let lock_until = current_height + BOND_LOCKUP_BLOCKS;
    Ok(BondEntry { amount, locked_until: lock_until, created_at: current_height })
}

/// The total amount of a miner's bonds.
pub fn bonds_total(bonds: &Vec<BondEntry>) -> (r: Amount)
    requires
        bond_sum(bonds@) <= u64::MAX,
    ensures
        r == bond_sum(bonds@),
{
    let mut total: u64 = 0;
    let mut i: usize = 0;
    while i < bonds.len()
        invariant
            i <= bonds@.len(),
            bond_sum(bonds@) <= u64::MAX,
            total == bond_sum(bonds@.take(i as int)),
        decreases bonds@.len() - i,
    {
        proof {
            assert(bonds@.take(i as int + 1).drop_last() =~= bonds@.take(i as int));
            lemma_bond_sum_prefix(bonds@, i as int + 1);
        }
        total = total + bonds[i].amount;
        i = i + 1;
    }
    proof {
        assert(bonds@.take(bonds@.len() as int) =~= bonds@);
    }
    total
}

/// Drops the bonds whose lock has run out at `current_height`, keeping the
/// others in order, and returns the miner's bond total to record: the new sum
/// when the sum changed, else `recorded_total` as it was.
pub fn cleanup_bond_list(bonds: &mut Vec<BondEntry>, current_height: Height, recorded_total: Amount) -> (r: Amount)
    requires
        bond_sum(old(bonds)@) <= u64::MAX,
    ensures
        final(bonds)@ == old(bonds)@.filter(locked_at(current_height)),
        r == (if bond_sum(final(bonds)@) != bond_sum(old(bonds)@) {
            bond_sum(final(bonds)@)
        } else {
            recorded_total as nat
        }),
{
    let before = bonds_total(bonds);
    let mut kept: Vec<BondEntry> = Vec::new();
    let mut i: usize = 0;
    while i < bonds.len()
        invariant
            i <= bonds@.len(),
            kept@ == bonds@.take(i as int).filter(locked_at(current_height)),
        decreases bonds@.len() - i,
    {
        let b = bonds[i];
        proof {
            assert(bonds@.take(i as int + 1).drop_last() =~= bonds@.take(i as int));
            assert(bonds@.take(i as int + 1).last() == b);
        }
        let ghost prefix = bonds@.take(i as int + 1);
        proof {
            reveal(Seq::filter);
        }
        if b.locked_until > current_height {
            kept.push(b);
            proof {
                assert(prefix.filter(locked_at(current_height)) == prefix.drop_last().filter(
                    locked_at(current_height),
                ).push(b));
            }
        } else {
            proof {
                assert(prefix.filter(locked_at(current_height)) == prefix.drop_last().filter(
                    locked_at(current_height),
                ));
            }
        }
        i = i + 1;
    }
    proof {
        assert(bonds@.take(bonds@.len() as int) =~= bonds@);
        lemma_bond_sum_filter(bonds@, current_height);
    }
    *bonds = kept;
    let after = bonds_total(bonds);
    if before != after {
        after
    } else {
        recorded_total
    }
}

/// Whether a miner with `invalid_shares` invalid shares among `total_shares`
/// has more than 30% invalid shares, and so is to be banned.
pub fn invalid_ratio_exceeded(invalid_shares: u32, total_shares: u32) -> (r: bool)
    ensures
        r == spec_ban_ratio_exceeded(invalid_shares, total_shares),
{
    total_shares > 0 && 10 * (invalid_shares as u64) > 3 * (total_shares as u64)
}

/// Equivocation proof for slashing
#[derive(Debug, Clone, Copy)]
pub struct EquivocationProof {
    pub miner_id: MinerId,
    pub block_header_a: BlockHeader,
    pub block_header_b: BlockHeader,
}

impl EquivocationProof {
    /// Verify that this is a valid equivocation: the two headers hash to
    /// different blocks, and each hash is below its header's target.
    pub fn verify(&self) -> (r: bool)
        ensures
            r == (header_hash(self.block_header_a) != header_hash(self.block_header_b) && bytes_lt(
                header_hash(self.block_header_a),
                self.block_header_a.difficulty.0@,
            ) && bytes_lt(header_hash(self.block_header_b), self.block_header_b.difficulty.0@)),
    {
        let a = &self.block_header_a;
        let b = &self.block_header_b;
        // The same header hashes the same: no need to run the hash twice.
        if a.version == b.version && bytes32_eq(&a.prev_hash, &b.prev_hash) && bytes32_eq(
            &a.merkle_root,
            &b.merkle_root,
        ) && a.timestamp == b.timestamp && bytes32_eq(&a.difficulty.0, &b.difficulty.0)
            && a.nonce == b.nonce && a.epoch_index == b.epoch_index {
            assert(*a == *b);
            return false;
        }
        let hash_a = self.block_header_a.hash();
        if !bytes32_lt(&hash_a, &a.difficulty.0) {
            return false;
        }
        let hash_b = self.block_header_b.hash();
        !bytes32_eq(&hash_a, &hash_b) && bytes32_lt(&hash_b, &b.difficulty.0)
    }
}

} // verus!
