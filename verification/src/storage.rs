//! The storage layout: column families and the keys records are stored under

use crate::types::{Hash32, Height, MinerId};
use vstd::prelude::*;

verus! {

/// Storage column families (separate data spaces)
#[derive(Debug, Clone, Copy, PartialEq, Eq, Structural)]
pub enum Column {
    Blocks,
    Shares,
    Miners,
    Bonds,
    Peers,
    Epochs,
    State,
}

/// The name of each column family.
pub open spec fn column_name(c: Column) -> Seq<char> {
    match c {
        Column::Blocks => "blocks"@,
        Column::Shares => "shares"@,
        Column::Miners => "miners"@,
        Column::Bonds => "bonds"@,
        Column::Peers => "peers"@,
        Column::Epochs => "epochs"@,
        Column::State => "state"@,
    }
}

impl Column {
    /// Get column family name
    pub fn name(&self) -> (r: &'static str)
        ensures
            r@ == column_name(*self),
    {
        match self {
            Column::Blocks => "blocks",
            Column::Shares => "shares",
            Column::Miners => "miners",
            Column::Bonds => "bonds",
            Column::Peers => "peers",
            Column::Epochs => "epochs",
            Column::State => "state",
        }
    }
}

/// The ASCII decimal digits of `n`, most significant first, without leading zeros.
pub open spec fn decimal(n: nat) -> Seq<u8>
    decreases n,
{
    if n < 10 {
        seq![(48 + n) as u8]
    } else {
        decimal(n / 10).push((48 + n % 10) as u8)
    }
}

/// The bytes of a list in debug notation: `[1, 2, 3]` without the brackets.
pub open spec fn decimal_list(s: Seq<u8>) -> Seq<u8>
    decreases s.len(),
{
    if s.len() == 0 {
        Seq::empty()
    } else if s.len() == 1 {
        decimal(s[0] as nat)
    } else {
        decimal_list(s.drop_last()) + seq![44u8, 32u8] + decimal(s.last() as nat)
    }
}

/// A byte array in debug notation, such as `[1, 2, 3]`.
pub open spec fn debug_bytes(s: Seq<u8>) -> Seq<u8> {
    seq![91u8] + decimal_list(s) + seq![93u8]
}

/// The lowercase hexadecimal digit of a value below 16.
pub open spec fn hex_digit(d: nat) -> u8 {
    if d < 10 {
        (48 + d) as u8
    } else {
        (87 + d) as u8
    }
}

/// Lowercase hexadecimal text of a byte string, two digits per byte.
pub open spec fn lower_hex(s: Seq<u8>) -> Seq<u8>
    decreases s.len(),
{
    if s.len() == 0 {
        Seq::empty()
    } else {
        lower_hex(s.drop_last()) + seq![
            hex_digit((s.last() / 16) as nat),
            hex_digit((s.last() % 16) as nat),
        ]
    }
}

/// The key of the block at `height`: `b:` and the height in decimal.
pub open spec fn spec_block_key(height: Height) -> Seq<u8> {
    seq![98u8, 58u8] + decimal(height as nat)
}

/// The key of an archived share: `s:`, the epoch, the miner and the share hash in hex.
pub open spec fn spec_share_key(epoch: u32, miner_id: Seq<u8>, hash: Seq<u8>) -> Seq<u8> {
    seq![115u8, 58u8] + decimal(epoch as nat) + seq![58u8] + debug_bytes(miner_id) + seq![58u8]
        + lower_hex(hash)
}

/// The key of a miner's record: `m:` and the miner id.
pub open spec fn spec_miner_key(miner_id: Seq<u8>) -> Seq<u8> {
    seq![109u8, 58u8] + debug_bytes(miner_id)
}

/// The key of a bond: `bond:`, the miner id and the bonding transaction id.
pub open spec fn spec_bond_key(miner_id: Seq<u8>, txid: Seq<u8>) -> Seq<u8> {
    seq![98u8, 111u8, 110u8, 100u8, 58u8] + debug_bytes(miner_id) + seq![58u8] + debug_bytes(txid)
}

/// The key of an epoch commitment: `e:` and the epoch in decimal.
pub open spec fn spec_epoch_key(epoch: u32) -> Seq<u8> {
    seq![101u8, 58u8] + decimal(epoch as nat)
}

/// `hex::encode`: lowercase hexadecimal text, two digits for each byte, as its
/// documentation states; returned as the text's ASCII bytes.
#[verifier::external_body]
fn hex_encode(data: &[u8]) -> (r: Vec<u8>)
    ensures
        r@ == lower_hex(data@),
{
    hex::encode(data).into_bytes()
}

fn push_decimal(out: &mut Vec<u8>, n: u64)
    ensures
        final(out)@ == old(out)@ + decimal(n as nat),
    decreases n,
{
    let ghost start = out@;
    if n >= 10 {
        push_decimal(out, n / 10);
    }
    out.push((48 + n % 10) as u8);
    proof {
        if n >= 10 {
            assert(start + decimal(n as nat) =~= (start + decimal((n / 10) as nat)).push(
                (48 + n % 10) as u8,
            ));
        } else {
            assert(start + decimal(n as nat) =~= start.push((48 + n % 10) as u8));
        }
    }
}

fn push_bytes(out: &mut Vec<u8>, bytes: &[u8])
    ensures
        final(out)@ == old(out)@ + bytes@,
{
    let ghost start = out@;
    let mut i: usize = 0;
    while i < bytes.len()
        invariant
            i <= bytes@.len(),
            out@ == start + bytes@.take(i as int),
        decreases bytes@.len() - i,
    {
        out.push(bytes[i]);
        i = i + 1;
        proof {
            assert(start + bytes@.take(i as int) =~= (start + bytes@.take(i - 1)).push(
                bytes@[i - 1],
            ));
        }
    }
    proof {
        assert(bytes@.take(bytes@.len() as int) =~= bytes@);
    }
}

fn push_debug_bytes(out: &mut Vec<u8>, bytes: &[u8])
    ensures
        final(out)@ == old(out)@ + debug_bytes(bytes@),
{
    let ghost start = out@;
    out.push(91u8);
    let mut i: usize = 0;
    while i < bytes.len()
        invariant
            i <= bytes@.len(),
            out@ == start + seq![91u8] + decimal_list(bytes@.take(i as int)),
        decreases bytes@.len() - i,
    {
        let ghost before = out@;
        if i > 0 {
            out.push(44u8);
            out.push(32u8);
        }
        push_decimal(out, bytes[i] as u64);
        proof {
            let t = bytes@.take(i as int + 1);
            assert(t.drop_last() =~= bytes@.take(i as int));
            assert(t.last() == bytes@[i as int]);
            if i == 0 {
                assert(t.len() == 1);
                assert(out@ =~= start + seq![91u8] + decimal_list(t));
            } else {
                assert(out@ =~= start + seq![91u8] + decimal_list(t));
            }
        }
        i = i + 1;
    }
    out.push(93u8);
    proof {
        assert(bytes@.take(bytes@.len() as int) =~= bytes@);
        assert(out@ =~= start + debug_bytes(bytes@));
    }
}

/// Key of the block stored at `height`
pub fn block_key(height: Height) -> (r: Vec<u8>)
    ensures
        r@ == spec_block_key(height),
{
    let mut key: Vec<u8> = Vec::new();
    key.push(98u8);
    key.push(58u8);
    push_decimal(&mut key, height);
    proof {
        assert(key@ =~= spec_block_key(height));
    }
    key
}

/// Key of an archived share of `miner_id` in `epoch`
pub fn share_key(epoch: u32, miner_id: &MinerId, hash: &Hash32) -> (r: Vec<u8>)
    ensures
        r@ == spec_share_key(epoch, miner_id@, hash@),
{
    let mut key: Vec<u8> = Vec::new();
    key.push(115u8);
    key.push(58u8);
    push_decimal(&mut key, epoch as u64);
    key.push(58u8);
    push_debug_bytes(&mut key, miner_id);
    key.push(58u8);
    let hex = hex_encode(hash);
    push_bytes(&mut key, hex.as_slice());
    proof {
        assert(key@ =~= spec_share_key(epoch, miner_id@, hash@));
    }
    key
}

/// Key of the record of `miner_id`
pub fn miner_key(miner_id: &MinerId) -> (r: Vec<u8>)
    ensures
        r@ == spec_miner_key(miner_id@),
{
    let mut key: Vec<u8> = Vec::new();
    key.push(109u8);
    key.push(58u8);
    push_debug_bytes(&mut key, miner_id);
    proof {
        assert(key@ =~= spec_miner_key(miner_id@));
    }
    key
}

/// Key of the bond that `miner_id` placed in transaction `txid`
pub fn bond_key(miner_id: &MinerId, txid: &Hash32) -> (r: Vec<u8>)
    ensures
        r@ == spec_bond_key(miner_id@, txid@),
{
    let mut key: Vec<u8> = Vec::new();
    key.push(98u8);
    key.push(111u8);
    key.push(110u8);
    key.push(100u8);
    key.push(58u8);
    push_debug_bytes(&mut key, miner_id);
    key.push(58u8);
    push_debug_bytes(&mut key, txid);
    proof {
        assert(key@ =~= spec_bond_key(miner_id@, txid@));
    }
    key
}

/// Key of the commitment of `epoch`
pub fn epoch_key(epoch: u32) -> (r: Vec<u8>)
    ensures
        r@ == spec_epoch_key(epoch),
{
    let mut key: Vec<u8> = Vec::new();
    key.push(101u8);
    key.push(58u8);
    push_decimal(&mut key, epoch as u64);
    proof {
        assert(key@ =~= spec_epoch_key(epoch));
    }
    key
}

/// Whether a key of the miners' column holds a miner record: it starts with `m:`.
pub fn is_miner_key(key: &[u8]) -> (r: bool)
    ensures
        r == (key@.len() >= 2 && key@[0] == 109u8 && key@[1] == 58u8),
{
    key.len() >= 2 && key[0] == 109u8 && key[1] == 58u8
}

} // verus!
