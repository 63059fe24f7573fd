//! P2P protocol messages and handling

use crate::block::Block;
use crate::clock::unix_time_now;
use crate::error::Error;
use crate::share::SharePacket;
use crate::types::{Hash32, MinerId};
use vstd::prelude::*;

verus! {

/// Version handshake message
#[derive(Debug, Clone)]
pub struct VersionMessage {
    pub version: u32,
    pub capabilities: u64,
    pub timestamp: u64,
    pub user_agent: String,
    pub start_height: u64,
    pub nonce: u64,
}

/// Inventory type
#[derive(Debug, Clone, Copy, PartialEq, Eq, Structural, Hash)]
pub enum InvType {
    Block,
    Transaction,
    Share,
}

/// Inventory item
#[derive(Debug, Clone, Copy)]
pub struct InvItem {
    pub inv_type: InvType,
    pub hash: Hash32,
}

/// Inventory message
#[derive(Debug, Clone)]
pub struct InvMessage {
    pub items: Vec<InvItem>,
}

/// GetData message
#[derive(Debug, Clone)]
pub struct GetDataMessage {
    pub items: Vec<InvItem>,
}

/// Block message
#[derive(Debug, Clone)]
pub struct BlockMessage {
    pub block: Block,
}

/// Transaction message
#[derive(Debug, Clone)]
pub struct TxMessage {
    pub tx: Vec<u8>,
}

/// Share message
#[derive(Debug, Clone)]
pub struct ShareMessage {
    pub share: SharePacket,
}

/// Epoch commit message
#[derive(Debug, Clone)]
pub struct EpochCommitMessage {
    pub epoch_index: u32,
    pub root: Hash32,
    pub timestamp: u64,
}

/// GetShares request
#[derive(Debug, Clone)]
pub struct GetSharesMessage {
    pub epoch_index: u32,
    pub miner_id_list: Vec<MinerId>,
    pub offset: u32,
}

/// Shares reply
#[derive(Debug, Clone)]
pub struct SharesReplyMessage {
    pub shares_batch: Vec<SharePacket>,
}

/// Compact block (BIP152 style)
#[derive(Debug, Clone)]
pub struct CompactBlockMessage {
    pub header_hash: Hash32,
    pub nonce: u64,
    pub short_ids: Vec<u64>,
    pub prefilled_txs: Vec<usize>,
}

/// Ping message
#[derive(Debug, Clone)]
pub struct PingMessage {
    pub nonce: u64,
}

/// Pong message
#[derive(Debug, Clone)]
pub struct PongMessage {
    pub nonce: u64,
}

/// All possible P2P messages
#[derive(Debug, Clone)]
pub enum P2PMessage {
    Version(VersionMessage),
    Verack,
    Inv(InvMessage),
    GetData(GetDataMessage),
    Block(BlockMessage),
    Tx(TxMessage),
    Share(ShareMessage),
    EpochCommit(EpochCommitMessage),
    GetShares(GetSharesMessage),
    SharesReply(SharesReplyMessage),
    CompactBlock(CompactBlockMessage),
    Ping(PingMessage),
    Pong(PongMessage),
}

/// The latest time the peer rules work with: a ban of five minutes from it still fits in a u64.
pub open spec fn latest_time() -> u64 {
    (u64::MAX - 300) as u64
}

/// Peer connection state
#[derive(Debug, Clone)]
pub struct Peer {
    pub address: String,
    pub version: Option<VersionMessage>,
    pub connected_at: u64,
    pub last_seen: u64,
    pub share_count: u32,
    pub last_share_time: u64,
    pub share_window_start: u64,
    pub ban_until: u64,
    pub misbehavior_count: u32,
}

/// A peer first seen at time `now`.
pub open spec fn spec_new_peer(address: String, now: u64) -> Peer {
    Peer {
        address,
        version: None,
        connected_at: now,
        last_seen: now,
        share_count: 0,
        last_share_time: 0,
        share_window_start: 0,
        ban_until: 0,
        misbehavior_count: 0,
    }
}

/// Receiving a share at time `now`: shares are counted in windows of one
/// minute, a new window starting with the first share that comes a minute or
/// more after the current window began; at 100 shares within the window the
/// peer is banned for five minutes and the share refused; else it is counted.
pub open spec fn spec_record_share(p: Peer, now: u64) -> (Peer, Result<(), Error>) {
    let restart = now - p.share_window_start >= 60;
    let count = if restart {
        0
    } else {
        p.share_count
    };
    let start = if restart {
        now
    } else {
        p.share_window_start
    };
    if count >= 100 {
        (spec_ban(Peer { share_count: count, share_window_start: start, ..p }, 5, now), Err(Error::P2p))
    } else {
        (
            Peer {
                share_count: (count + 1) as u32,
                share_window_start: start,
                last_share_time: now,
                last_seen: now,
                ..p
            },
            Ok(()),
        )
    }
}

/// The peer banned for `minutes` minutes from time `now`.
pub open spec fn spec_ban(p: Peer, minutes: u64, now: u64) -> Peer {
    Peer { ban_until: (now + minutes * 60) as u64, ..p }
}

/// The peer is banned at time `now`.
pub open spec fn banned_at(p: Peer, now: u64) -> bool {
    p.ban_until > now
}

impl Peer {
    /// Create a new peer first seen at time `now`.
    pub fn new_at(address: String, now: u64) -> (r: Self)
        ensures
            r == spec_new_peer(address, now),
    {
        Peer {
            address,
            version: None,
            connected_at: now,
            last_seen: now,
            share_count: 0,
            last_share_time: 0,
            share_window_start: 0,
            ban_until: 0,
            misbehavior_count: 0,
        }
    }

    /// Create new peer
    pub fn new(address: String) -> (r: Self)
        ensures
            exists|now: u64| r == spec_new_peer(address, now),
    {
        let now = unix_time_now();
        Self::new_at(address, now)
    }

    /// Whether the peer is banned at time `now`.
    pub fn is_banned_at(&self, now: u64) -> (r: bool)
        ensures
            r == banned_at(*self, now),
    {
        self.ban_until > now
    }

    /// Check if peer is banned
    pub fn is_banned(&self) -> (r: bool)
        ensures
            exists|now: u64| r == #[trigger] banned_at(*self, now),
    {
        let now = unix_time_now();
        self.is_banned_at(now)
    }

    /// Ban the peer for `minutes` minutes from time `now`.
    pub fn ban_at(&mut self, minutes: u64, now: u64)
        requires
            now + minutes * 60 <= u64::MAX,
        ensures
            *final(self) == spec_ban(*old(self), minutes, now),
    {
        self.ban_until = now + minutes * 60;
    }

    /// Ban peer for minutes; a ban whose end does not fit in a u64 lasts until
    /// the largest time.
    pub fn ban(&mut self, minutes: u64)
        ensures
            (exists|now: u64|
                now + minutes * 60 <= u64::MAX && *final(self) == #[trigger] spec_ban(
                    *old(self),
                    minutes,
                    now,
                )) || *final(self) == (Peer { ban_until: u64::MAX, ..*old(self) }),
    {
        let now = unix_time_now();
        if minutes <= (u64::MAX - now) / 60 {
            self.ban_at(minutes, now);
        } else {
            self.ban_until = u64::MAX;
        }
    }

    /// Record the reception of a share at time `now`.
    pub fn record_share_at(&mut self, now: u64) -> (r: Result<(), Error>)
        requires
            old(self).share_window_start <= now,
            old(self).last_share_time <= now <= latest_time(),
        ensures
            (*final(self), r) == spec_record_share(*old(self), now),
    {
        // Start a new window when a minute has passed since this one began
        if now - self.share_window_start >= 60 {
            self.share_count = 0;
            self.share_window_start = now;
        }
        // Check rate limit
        if self.share_count >= 100 {
            self.ban_at(5, now);
            return Err(Error::P2p);
        }
        self.share_count = self.share_count + 1;
        self.last_share_time = now;
        self.last_seen = now;
        Ok(())
    }

    /// Record share reception; the clock reading is held between the last
    /// share's time and the latest time the rules work with.
    pub fn record_share(&mut self) -> (r: Result<(), Error>)
        requires
            old(self).share_window_start <= old(self).last_share_time <= latest_time(),
        ensures
            exists|now: u64|
                old(self).last_share_time <= now <= latest_time() && (*final(self), r)
                    == spec_record_share(*old(self), now),
    {
        let now = clamp_time(unix_time_now(), self.last_share_time);
        self.record_share_at(now)
    }
}

/// The rate limit: a peer's share count never passes 100; the shares it counts
/// all came within the minute its window began; a share is accepted only while
/// fewer than 100 shares were counted in that minute, so a peer is refused only
/// after 100 shares within one minute; and a refused share bans the peer for
/// the five minutes that follow.
pub proof fn lemma_rate_limit(p: Peer, now: u64)
    requires
        p.share_count <= 100,
        p.share_window_start <= p.last_share_time <= now <= latest_time(),
    ensures
        spec_record_share(p, now).0.share_count <= 100,
        spec_record_share(p, now).0.share_window_start <= now < spec_record_share(p, now).0.share_window_start + 60,
        spec_record_share(p, now).1 is Ok <==> (now - p.share_window_start >= 60 || p.share_count < 100),
        spec_record_share(p, now).1 is Err ==> p.share_count >= 100 && now - p.share_window_start < 60,
        spec_record_share(p, now).1 is Err ==> forall|t: u64|
            now <= t < now + 300 ==> #[trigger] banned_at(spec_record_share(p, now).0, t),
{
}

/// The count of a peer whose shares arrive at least 30 s apart: each counted
/// share came at least 30 s after the one before, from the window's start.
pub open spec fn spaced_count(p: Peer) -> bool {
    &&& p.share_window_start <= p.last_share_time
    &&& p.share_count * 30 <= p.last_share_time - p.share_window_start + 30
}

/// A peer that sends at most two shares a minute is never refused: a new peer
/// starts with a spaced count, and a share that comes at least 30 s after the
/// last one is accepted and keeps the count spaced.
pub proof fn lemma_spaced_shares_accepted(p: Peer, now: u64)
    requires
        spaced_count(p),
        p.last_share_time + 30 <= now <= latest_time(),
    ensures
        spec_record_share(p, now).1 is Ok,
        spaced_count(spec_record_share(p, now).0),
        spaced_count(spec_new_peer(p.address, now)),
{
}

/// A clock reading raised to at least `floor` and held at the latest time the
/// peer rules work with.
fn clamp_time(now: u64, floor: u64) -> (r: u64)
    requires
        floor <= latest_time(),
    ensures
        floor <= r <= latest_time(),
        floor <= now <= latest_time() ==> r == now,
{
    let latest: u64 = u64::MAX - 300;
    if now < floor {
        floor
    } else if now > latest {
        latest
    } else {
        now
    }
}

/// The peer with this address, if any.
pub open spec fn has_peer(ps: Seq<Peer>, address: Seq<char>) -> bool {
    exists|i: int| 0 <= i < ps.len() && ps[i].address@ == address
}

/// Entry `k` is the peer seen least recently (the first such), and it was seen
/// before the largest time.
pub open spec fn is_oldest_index(ps: Seq<Peer>, k: int) -> bool {
    &&& 0 <= k < ps.len()
    &&& ps[k].last_seen < u64::MAX
    &&& forall|i: int| 0 <= i < ps.len() ==> ps[k].last_seen <= #[trigger] ps[i].last_seen
    &&& forall|i: int| 0 <= i < k ==> ps[k].last_seen < #[trigger] ps[i].last_seen
}

/// The peers after the least recently seen one is dropped (none dropped when
/// there is none).
pub open spec fn evict_oldest(ps: Seq<Peer>) -> Seq<Peer> {
    if exists|k: int| is_oldest_index(ps, k) {
        ps.remove(choose|k: int| is_oldest_index(ps, k))
    } else {
        ps
    }
}

/// Among peers all seen before the largest time, one is the least recently seen.
proof fn lemma_oldest_exists(ps: Seq<Peer>)
    requires
        ps.len() > 0,
        forall|i: int| 0 <= i < ps.len() ==> #[trigger] ps[i].last_seen <= latest_time(),
    ensures
        exists|k: int| is_oldest_index(ps, k),
    decreases ps.len(),
{
    if ps.len() == 1 {
        assert(is_oldest_index(ps, 0));
    } else {
        let q = ps.drop_last();
        assert forall|i: int| 0 <= i < q.len() implies #[trigger] q[i].last_seen <= latest_time() by {
            assert(q[i] == ps[i]);
        }
        lemma_oldest_exists(q);
        let k = choose|k: int| is_oldest_index(q, k);
        let n = ps.len() - 1;
        assert(ps[n].last_seen <= latest_time());
        if ps[n].last_seen < ps[k].last_seen {
            assert forall|i: int| 0 <= i < ps.len() implies ps[n].last_seen <= #[trigger] ps[i].last_seen by {
                if i < n {
                    assert(q[i] == ps[i]);
                }
            }
            assert forall|i: int| 0 <= i < n implies ps[n].last_seen < #[trigger] ps[i].last_seen by {
                assert(q[i] == ps[i]);
            }
            assert(is_oldest_index(ps, n));
        } else {
            assert forall|i: int| 0 <= i < ps.len() implies ps[k].last_seen <= #[trigger] ps[i].last_seen by {
                if i < n {
                    assert(q[i] == ps[i]);
                }
            }
            assert forall|i: int| 0 <= i < k implies ps[k].last_seen < #[trigger] ps[i].last_seen by {
                assert(q[i] == ps[i]);
            }
            assert(is_oldest_index(ps, k));
        }
    }
}

/// The peers after adding `address` at time `now` with peer limit `limit`:
/// a peer already present is kept as it is and nothing else changes; a new
/// address is added, after the least recently seen peer is dropped when the
/// limit is reached.
pub open spec fn spec_add_peer(ps: Seq<Peer>, limit: nat, address: String, now: u64) -> Seq<Peer> {
    if has_peer(ps, address@) {
        ps
    } else {
        let ps1 = if ps.len() >= limit {
            evict_oldest(ps)
        } else {
            ps
        };
        ps1.push(spec_new_peer(address, now))
    }
}

/// Adding a peer: a known address changes nothing; a new one is appended,
/// and when the manager is full exactly one peer is dropped first, one seen no
/// later than any other, the rest kept in order.
pub proof fn lemma_add_peer_drops_least_recent(ps: Seq<Peer>, limit: nat, address: String, now: u64)
    requires
        forall|i: int| 0 <= i < ps.len() ==> #[trigger] ps[i].last_seen <= latest_time(),
    ensures
        has_peer(ps, address@) ==> spec_add_peer(ps, limit, address, now) == ps,
        !has_peer(ps, address@) && ps.len() < limit ==> spec_add_peer(ps, limit, address, now)
            == ps.push(spec_new_peer(address, now)),
        !has_peer(ps, address@) && ps.len() >= limit && ps.len() > 0 ==> exists|k: int|
            0 <= k < ps.len() && (forall|i: int|
                0 <= i < ps.len() ==> ps[k].last_seen <= #[trigger] ps[i].last_seen)
                && spec_add_peer(ps, limit, address, now) == #[trigger] ps.remove(k).push(
                spec_new_peer(address, now),
            ),
{
    if !has_peer(ps, address@) && ps.len() >= limit && ps.len() > 0 {
        lemma_oldest_exists(ps);
        let k = choose|k: int| is_oldest_index(ps, k);
        assert(forall|i: int| 0 <= i < ps.len() ==> ps[k].last_seen <= #[trigger] ps[i].last_seen);
        assert(spec_add_peer(ps, limit, address, now) == ps.remove(k).push(spec_new_peer(address, now)));
    }
}

/// The index of the peer with an address (meaningful when there is one).
pub open spec fn peer_index(ps: Seq<Peer>, address: Seq<char>) -> int {
    choose|i: int| 0 <= i < ps.len() && ps[i].address@ == address
}

/// Handling a message from `from` at time `now`: the peers afterwards and the
/// answer. A banned sender is refused with `P2p`. A version is recorded on its
/// sender, which is marked seen; a share counts against its sender's rate
/// limit, whose refusal is the answer; every other message leaves the peers
/// as they are, and is answered as `spec_reply` says.
pub open spec fn spec_process(ps: Seq<Peer>, from: Seq<char>, msg: P2PMessage, now: u64) -> (Seq<Peer>, Result<Option<P2PMessage>, Error>) {
    let known = has_peer(ps, from);
    let k = peer_index(ps, from);
    if known && banned_at(ps[k], now) {
        (ps, Err(Error::P2p))
    } else {
        match msg {
            P2PMessage::Version(v) => (
                if known {
                    ps.update(k, Peer { version: Some(v), last_seen: now, ..ps[k] })
                } else {
                    ps
                },
                Ok(Some(P2PMessage::Verack)),
            ),
            P2PMessage::Share(_) => if known {
                let (p, res) = spec_record_share(ps[k], now);
                (
                    ps.update(k, p),
                    match res {
                        Ok(_) => Ok(None),
                        Err(e) => Err(e),
                    },
                )
            } else {
                (ps, Ok(None))
            },
            _ => (ps, Ok(spec_reply(msg))),
        }
    }
}

/// The peers kept by a cleanup at time `now`: those seen within the last hour.
pub open spec fn retained_peers(ps: Seq<Peer>, now: u64) -> Seq<Peer>
    decreases ps.len(),
{
    if ps.len() == 0 {
        Seq::empty()
    } else {
        let rest = retained_peers(ps.drop_last(), now);
        if now - ps.last().last_seen < 3600 {
            rest.push(ps.last())
        } else {
            rest
        }
    }
}

/// The addresses of the peers banned at time `now`.
pub open spec fn banned_addresses(ps: Seq<Peer>, now: u64) -> Seq<Seq<char>>
    decreases ps.len(),
{
    if ps.len() == 0 {
        Seq::empty()
    } else {
        let rest = banned_addresses(ps.drop_last(), now);
        if ps.last().ban_until > now {
            rest.push(ps.last().address@)
        } else {
            rest
        }
    }
}

/// What a message asks of the node, given the peer it came from, when that
/// peer is not banned: a version is answered with a verack, a non-empty
/// inventory with a request for the same items, a ping with a pong of the same
/// nonce; a share is counted against the peer's rate limit.
pub open spec fn spec_reply(msg: P2PMessage) -> Option<P2PMessage> {
    match msg {
        P2PMessage::Version(_) => Some(P2PMessage::Verack),
        P2PMessage::Inv(inv) => if inv.items@.len() > 0 {
            Some(P2PMessage::GetData(GetDataMessage { items: inv.items }))
        } else {
            None
        },
        P2PMessage::Ping(ping) => Some(P2PMessage::Pong(PongMessage { nonce: ping.nonce })),
        _ => None,
    }
}

/// P2P network manager
pub struct P2PManager {
    peers: Vec<Peer>,
    max_peers: usize,
    message_history: Vec<(u64, String, P2PMessage)>,
    max_history: usize,
}

impl P2PManager {
    /// The peers, in the order they were added.
    pub closed spec fn peers(&self) -> Seq<Peer> {
        self.peers@
    }

    /// The number of peers the manager keeps at most (but one is always let in).
    pub closed spec fn peer_limit(&self) -> nat {
        self.max_peers as nat
    }

    /// The number of messages held in the history.
    pub closed spec fn history_len(&self) -> nat {
        self.message_history@.len()
    }

    /// Well-formedness: one peer per address; at most the peer limit (or one)
    /// of them; every time they hold is at most the latest time; the history
    /// holds at most 1000 messages.
    pub closed spec fn wf(&self) -> bool {
        &&& forall|i: int, j: int|
            0 <= i < j < self.peers@.len() ==> self.peers@[i].address@ != self.peers@[j].address@
        &&& (self.peers@.len() <= self.max_peers || self.peers@.len() <= 1)
        &&& forall|i: int|
            0 <= i < self.peers@.len() ==> #[trigger] self.peers@[i].last_seen <= latest_time()
                && self.peers@[i].last_share_time <= latest_time() && self.peers@[i].share_window_start <= self.peers@[i].last_share_time
        &&& self.max_history == 1000
        &&& self.message_history@.len() <= self.max_history
    }

    /// A well-formed manager never keeps more peers than its limit (or one when
    /// the limit is zero), never two peers with one address, and never more
    /// than 1000 messages.
    pub proof fn lemma_bounds(&self)
        requires
            self.wf(),
        ensures
            self.peers().len() <= self.peer_limit() || self.peers().len() <= 1,
            forall|i: int, j: int|
                0 <= i < j < self.peers().len() ==> self.peers()[i].address@ != self.peers()[j].address@,
            self.history_len() <= 1000,
    {
    }

    /// Create new P2P manager
    pub fn new(max_peers: usize) -> (r: Self)
        ensures
            r.wf(),
            r.peers() == Seq::<Peer>::empty(),
            r.peer_limit() == max_peers,
            r.history_len() == 0,
    {
        P2PManager {
            peers: Vec::new(),
            max_peers,
            message_history: Vec::new(),
            max_history: 1000,
        }
    }

    /// Finds the peer with an address.
    fn find_peer(&self, address: &String) -> (r: Option<usize>)
        ensures
            match r {
                Some(k) => k < self.peers@.len() && self.peers@[k as int].address@ == address@,
                None => !has_peer(self.peers@, address@),
            },
    {
        let mut i: usize = 0;
        while i < self.peers.len()
            invariant
                i <= self.peers@.len(),
                forall|j: int| 0 <= j < i ==> self.peers@[j].address@ != address@,
            decreases self.peers@.len() - i,
        {
            if self.peers[i].address == *address {
                return Some(i);
            }
            i = i + 1;
        }
        None
    }

    /// Find oldest peer by last_seen
    fn find_oldest_peer(&self) -> (r: Option<usize>)
        ensures
            match r {
                Some(k) => is_oldest_index(self.peers@, k as int),
                None => forall|k: int| !is_oldest_index(self.peers@, k),
            },
    {
        let ghost ps = self.peers@;
        let mut oldest: Option<usize> = None;
        let mut oldest_time: u64 = u64::MAX;
        let mut i: usize = 0;
        while i < self.peers.len()
            invariant
                i <= ps.len(),
                ps == self.peers@,
                match oldest {
                    None => oldest_time == u64::MAX && forall|j: int|
                        0 <= j < i ==> #[trigger] ps[j].last_seen == u64::MAX,
                    Some(k) => {
                        &&& k < i
                        &&& oldest_time == ps[k as int].last_seen
                        &&& oldest_time < u64::MAX
                        &&& forall|j: int| 0 <= j < i ==> oldest_time <= #[trigger] ps[j].last_seen
                        &&& forall|j: int| 0 <= j < k ==> oldest_time < #[trigger] ps[j].last_seen
                    },
                },
            decreases ps.len() - i,
        {
            if self.peers[i].last_seen < oldest_time {
                oldest_time = self.peers[i].last_seen;
                oldest = Some(i);
            }
            i = i + 1;
        }
        proof {
            if let Some(k) = oldest {
                assert(is_oldest_index(ps, k as int));
            } else {
                assert forall|k: int| !is_oldest_index(ps, k) by {
                    if 0 <= k < ps.len() {
                        assert(ps[k].last_seen == u64::MAX);
                    }
                }
            }
        }
        oldest
    }

    /// Add or update peer at time `now`: a peer already present is kept as it
    /// is; a peer with a new address is added, after the least recently seen
    /// peer is dropped when the limit is reached.
    pub fn add_peer_at(&mut self, address: String, now: u64)
        requires
            old(self).wf(),
            now <= latest_time(),
        ensures
            final(self).wf(),
            final(self).peer_limit() == old(self).peer_limit(),
            final(self).history_len() == old(self).history_len(),
            final(self).peers() == spec_add_peer(old(self).peers(), old(self).peer_limit(), address, now),
    {
        let ghost ps = self.peers@;
        if self.find_peer(&address).is_some() {
            return;
        }
        if self.peers.len() >= self.max_peers {
            // Remove oldest inactive peer
            if let Some(oldest) = self.find_oldest_peer() {
                proof {
                    assert forall|k2: int| is_oldest_index(ps, k2) implies k2 == oldest by {
                        if k2 < oldest {
                            assert(ps[oldest as int].last_seen < ps[k2].last_seen);
                        } else if k2 > oldest {
                            assert(ps[k2].last_seen < ps[oldest as int].last_seen);
                        }
                    }
                }
                self.peers.remove(oldest);
            }
        }
        let ghost ps1 = self.peers@;
        proof {
            assert forall|i: int, j: int|
                0 <= i < j < ps1.len() implies ps1[i].address@ != ps1[j].address@ by {
                if ps1.len() < ps.len() {
                    let k = choose|k: int| is_oldest_index(ps, k);
                    let i0 = if i < k {
                        i
                    } else {
                        i + 1
                    };
                    let j0 = if j < k {
                        j
                    } else {
                        j + 1
                    };
                    assert(ps1[i] == ps[i0]);
                    assert(ps1[j] == ps[j0]);
                }
            }
            assert forall|i: int| 0 <= i < ps1.len() implies #[trigger] ps1[i].last_seen <= latest_time()
                && ps1[i].last_share_time <= latest_time() && ps1[i].share_window_start <= ps1[i].last_share_time by {
                if ps1.len() < ps.len() {
                    let k = choose|k: int| is_oldest_index(ps, k);
                    if i < k {
                        assert(ps1[i] == ps[i]);
                    } else {
                        assert(ps1[i] == ps[i + 1]);
                    }
                } else {
                    assert(ps1[i] == ps[i]);
                }
            }
            if ps.len() >= self.max_peers && ps.len() > 0 {
                // a peer seen before the largest time is always there to drop
                lemma_oldest_exists(ps);
                assert(ps1.len() == ps.len() - 1);
            }
            // the peers kept are among those before, none of them at `address`
            assert forall|i: int| 0 <= i < ps1.len() implies ps1[i].address@ != address@ by {
                if ps1.len() < ps.len() {
                    let k = choose|k: int| is_oldest_index(ps, k);
                    if i < k {
                        assert(ps1[i] == ps[i]);
                    } else {
                        assert(ps1[i] == ps[i + 1]);
                    }
                } else {
                    assert(ps1[i] == ps[i]);
                }
            }
        }
        let peer = Peer::new_at(address, now);
        self.peers.push(peer);
    }

    /// Add or update peer
    pub fn add_peer(&mut self, address: String)
        requires
            old(self).wf(),
        ensures
            final(self).wf(),
            final(self).peer_limit() == old(self).peer_limit(),
            final(self).history_len() == old(self).history_len(),
            exists|now: u64|
                now <= latest_time() && final(self).peers() == #[trigger] spec_add_peer(
                    old(self).peers(),
                    old(self).peer_limit(),
                    address,
                    now,
                ),
    {
        let now = clamp_time(unix_time_now(), 0);
        self.add_peer_at(address, now)
    }

    /// Process an incoming message at time `now`: refused when its sender is
    /// banned, else recorded in the history (of at most 1000 messages, the
    /// oldest dropped) and handled.
    pub fn process_message_at(&mut self, from: String, msg: P2PMessage, now: u64) -> (r: Result<Option<P2PMessage>, Error>)
        requires
            old(self).wf(),
            now <= latest_time(),
            has_peer(old(self).peers(), from@) ==> old(self).peers()[peer_index(old(self).peers(), from@)].last_share_time <= now,
        ensures
            final(self).wf(),
            final(self).peer_limit() == old(self).peer_limit(),
            (final(self).peers(), r) == spec_process(old(self).peers(), from@, msg, now),
            r == Err::<Option<P2PMessage>, Error>(Error::P2p) && has_peer(old(self).peers(), from@) && banned_at(old(self).peers()[peer_index(old(self).peers(), from@)], now)
                ==> final(self).history_len() == old(self).history_len(),
            !(has_peer(old(self).peers(), from@) && banned_at(old(self).peers()[peer_index(old(self).peers(), from@)], now))
                ==> final(self).history_len() == if old(self).history_len() < 1000 {
                    old(self).history_len() + 1
                } else {
                    1000
                },
    {
        let ghost ps = self.peers@;
        let idx = self.find_peer(&from);
        proof {
            if let Some(k) = idx {
                assert(peer_index(ps, from@) == k);
            }
        }
        // Check if peer is banned
        if let Some(k) = idx {
            if self.peers[k].is_banned_at(now) {
                return Err(Error::P2p);
            }
        }
        // Record message
        self.message_history.push((now, from.clone(), msg.clone()));
        if self.message_history.len() > self.max_history {
            self.message_history.remove(0);
        }
        // Handle message
        match msg {
            P2PMessage::Version(version) => self.handle_version(idx, version, now),
            P2PMessage::Verack => Ok(None),
            P2PMessage::Inv(inv) => self.handle_inv(inv),
            P2PMessage::GetData(getdata) => self.handle_getdata(getdata),
            P2PMessage::Share(share) => self.handle_share(idx, share, now),
            P2PMessage::Ping(ping) => Ok(Some(P2PMessage::Pong(PongMessage { nonce: ping.nonce }))),
            P2PMessage::Pong(_) => Ok(None),
            // Other messages handled elsewhere
            _ => Ok(None),
        }
    }

    /// Process incoming message
    pub fn process_message(&mut self, from: String, msg: P2PMessage) -> (r: Result<Option<P2PMessage>, Error>)
        requires
            old(self).wf(),
        ensures
            final(self).wf(),
            final(self).peer_limit() == old(self).peer_limit(),
            exists|now: u64| now <= latest_time() && (final(self).peers(), r) == #[trigger] spec_process(old(self).peers(), from@, msg, now),
    {
        let floor = match self.find_peer(&from) {
            Some(k) => self.peers[k].last_share_time,
            None => 0,
        };
        proof {
            if has_peer(self.peers@, from@) {
                let k = peer_index(self.peers@, from@);
                assert(self.peers@[k].last_seen <= latest_time());
            }
        }
        let now = clamp_time(unix_time_now(), floor);
        self.process_message_at(from, msg, now)
    }

    /// Handle version message
    fn handle_version(&mut self, idx: Option<usize>, version: VersionMessage, now: u64) -> (r: Result<Option<P2PMessage>, Error>)
        requires
            old(self).wf(),
            now <= latest_time(),
            idx matches Some(k) ==> k < old(self).peers().len(),
        ensures
            final(self).wf(),
            final(self).peer_limit() == old(self).peer_limit(),
            final(self).history_len() == old(self).history_len(),
            final(self).peers() == match idx {
                Some(k) => old(self).peers().update(k as int, Peer { version: Some(version), last_seen: now, ..old(self).peers()[k as int] }),
                None => old(self).peers(),
            },
            r == Ok::<Option<P2PMessage>, Error>(Some(P2PMessage::Verack)),
    {
        if let Some(k) = idx {
            let mut peer = self.peers.remove(k);
            peer.version = Some(version);
            peer.last_seen = now;
            self.peers.insert(k, peer);
            proof {
                let ps = old(self).peers();
                assert(self.peers@ =~= ps.update(k as int, peer));
                assert forall|i: int, j: int|
                    0 <= i < j < self.peers@.len() implies self.peers@[i].address@ != self.peers@[j].address@ by {
                    assert(self.peers@[i].address == ps[i].address);
                    assert(self.peers@[j].address == ps[j].address);
                }
                assert forall|i: int| 0 <= i < self.peers@.len() implies #[trigger] self.peers@[i].last_seen <= latest_time()
                    && self.peers@[i].last_share_time <= latest_time() && self.peers@[i].share_window_start <= self.peers@[i].last_share_time by {
                    if i != k {
                        assert(self.peers@[i] == ps[i]);
                    }
                }
            }
        }
        Ok(Some(P2PMessage::Verack))
    }

    /// Handle inventory message: request the items announced
    fn handle_inv(&mut self, inv: InvMessage) -> (r: Result<Option<P2PMessage>, Error>)
        ensures
            *final(self) == *old(self),
            r == Ok::<Option<P2PMessage>, Error>(spec_reply(P2PMessage::Inv(inv))),
    {
        let to_request = inv.items;
        if to_request.len() > 0 {
            Ok(Some(P2PMessage::GetData(GetDataMessage { items: to_request })))
        } else {
            Ok(None)
        }
    }

    /// Handle getdata message
    fn handle_getdata(&mut self, getdata: GetDataMessage) -> (r: Result<Option<P2PMessage>, Error>)
        ensures
            *final(self) == *old(self),
            r == Ok::<Option<P2PMessage>, Error>(None),
    {
        Ok(None)
    }

    /// Handle share message: count it against the sender's rate limit
    fn handle_share(&mut self, idx: Option<usize>, share: ShareMessage, now: u64) -> (r: Result<Option<P2PMessage>, Error>)
        requires
            old(self).wf(),
            now <= latest_time(),
            idx matches Some(k) ==> k < old(self).peers().len() && old(self).peers()[k as int].last_share_time <= now,
        ensures
            final(self).wf(),
            final(self).peer_limit() == old(self).peer_limit(),
            final(self).history_len() == old(self).history_len(),
            match idx {
                Some(k) => {
                    let (p, res) = spec_record_share(old(self).peers()[k as int], now);
                    &&& final(self).peers() == old(self).peers().update(k as int, p)
                    &&& r == match res {
                        Ok(_) => Ok::<Option<P2PMessage>, Error>(None),
                        Err(e) => Err(e),
                    }
                },
                None => final(self).peers() == old(self).peers() && r == Ok::<Option<P2PMessage>, Error>(None),
            },
    {
        if let Some(k) = idx {
            let mut peer = self.peers.remove(k);
            let res = peer.record_share_at(now);
            self.peers.insert(k, peer);
            proof {
                let ps = old(self).peers();
                assert(self.peers@ =~= ps.update(k as int, peer));
                assert forall|i: int, j: int|
                    0 <= i < j < self.peers@.len() implies self.peers@[i].address@ != self.peers@[j].address@ by {
                    assert(self.peers@[i].address == ps[i].address);
                    assert(self.peers@[j].address == ps[j].address);
                }
                assert forall|i: int| 0 <= i < self.peers@.len() implies #[trigger] self.peers@[i].last_seen <= latest_time()
                    && self.peers@[i].last_share_time <= latest_time() && self.peers@[i].share_window_start <= self.peers@[i].last_share_time by {
                    if i != k {
                        assert(self.peers@[i] == ps[i]);
                    }
                }
            }
            match res {
                Ok(_) => {},
                Err(e) => {
                    return Err(e);
                },
            }
        }
        // Share validated elsewhere
        Ok(None)
    }

    /// The addresses of the peers banned at time `now`.
    pub fn banned_peers_at(&self, now: u64) -> (r: Vec<String>)
        ensures
            r@.map_values(|a: String| a@) == banned_addresses(self.peers(), now),
            self.wf() ==> r@.map_values(|a: String| a@).no_duplicates(),
    {
        let ghost ps = self.peers@;
        let ghost distinct = forall|i: int, j: int|
            0 <= i < j < ps.len() ==> ps[i].address@ != ps[j].address@;
        let mut out: Vec<String> = Vec::new();
        let mut i: usize = 0;
        while i < self.peers.len()
            invariant
                i <= ps.len(),
                ps == self.peers@,
                distinct == (forall|i: int, j: int|
                    0 <= i < j < ps.len() ==> ps[i].address@ != ps[j].address@),
                out@.map_values(|a: String| a@) == banned_addresses(ps.take(i as int), now),
                forall|a: int| 0 <= a < out@.len() ==> exists|j: int| 0 <= j < i && #[trigger] out@[a]@ == ps[j].address@,
                distinct ==> out@.map_values(|a: String| a@).no_duplicates(),
            decreases ps.len() - i,
        {
            let ghost before = out@;
            assert(ps.take(i as int + 1).drop_last() =~= ps.take(i as int));
            if self.peers[i].is_banned_at(now) {
                out.push(self.peers[i].address.clone());
                let ghost m = out@.map_values(|a: String| a@);
                assert(m =~= before.map_values(|a: String| a@).push(ps[i as int].address@));
                proof {
                    assert forall|a: int| 0 <= a < out@.len() implies exists|j: int| 0 <= j < i + 1 && #[trigger] out@[a]@ == ps[j].address@ by {
                        if a < before.len() {
                            assert(out@[a] == before[a]);
                        } else {
                            assert(out@[a]@ == ps[i as int].address@);
                        }
                    }
                    if distinct {
                        assert forall|a: int, b: int| 0 <= a < m.len() && 0 <= b < m.len() && a != b implies m[a] != m[b] by {
                            if a < before.len() && b < before.len() {
                                assert(m[a] == before.map_values(|x: String| x@)[a]);
                                assert(m[b] == before.map_values(|x: String| x@)[b]);
                            } else if a < before.len() {
                                assert(out@[a] == before[a]);
                                let j = choose|j: int| 0 <= j < i && before[a]@ == ps[j].address@;
                                assert(ps[j].address@ != ps[i as int].address@);
                            } else {
                                assert(out@[b] == before[b]);
                                let j = choose|j: int| 0 <= j < i && before[b]@ == ps[j].address@;
                                assert(ps[j].address@ != ps[i as int].address@);
                            }
                        }
                    }
                }
            }
            i = i + 1;
        }
        proof {
            if self.wf() {
                assert(distinct);
            }
        }
        assert(ps.take(ps.len() as int) =~= ps);
        out
    }

    /// Get banned peers
    pub fn banned_peers(&self) -> (r: Vec<String>)
        ensures
            exists|now: u64| r@.map_values(|a: String| a@) == #[trigger] banned_addresses(self.peers(), now),
            self.wf() ==> r@.map_values(|a: String| a@).no_duplicates(),
    {
        let now = unix_time_now();
        self.banned_peers_at(now)
    }

    /// The latest time any peer was seen, at least `now`, held at the latest
    /// time the rules work with.
    fn latest_seen(&self, now: u64) -> (r: u64)
        requires
            self.wf(),
        ensures
            r <= latest_time(),
            forall|i: int| 0 <= i < self.peers@.len() ==> #[trigger] self.peers@[i].last_seen <= r,
            now <= latest_time() && (forall|i: int| 0 <= i < self.peers@.len() ==> #[trigger] self.peers@[i].last_seen <= now) ==> r == now,
    {
        let mut r = clamp_time(now, 0);
        let mut i: usize = 0;
        while i < self.peers.len()
            invariant
                i <= self.peers@.len(),
                self.wf(),
                r <= latest_time(),
                forall|j: int| 0 <= j < i ==> #[trigger] self.peers@[j].last_seen <= r,
                now <= latest_time() && (forall|j: int| 0 <= j < self.peers@.len() ==> #[trigger] self.peers@[j].last_seen <= now) ==> r == now,
            decreases self.peers@.len() - i,
        {
            if self.peers[i].last_seen > r {
                r = self.peers[i].last_seen;
            }
            i = i + 1;
        }
        r
    }

    /// Clean up at time `now`: drop the peers not seen within the last hour.
    pub fn cleanup_at(&mut self, now: u64)
        requires
            old(self).wf(),
            forall|i: int| 0 <= i < old(self).peers().len() ==> #[trigger] old(self).peers()[i].last_seen <= now,
        ensures
            final(self).wf(),
            final(self).peer_limit() == old(self).peer_limit(),
            final(self).history_len() == old(self).history_len(),
            final(self).peers() == retained_peers(old(self).peers(), now),
    {
        let ghost ps = self.peers@;
        let mut rest: Vec<Peer> = Vec::new();
        std::mem::swap(&mut rest, &mut self.peers);
        assert(rest@ == ps);
        assert(ps == old(self).peers());
        assert forall|j: int| 0 <= j < ps.len() implies #[trigger] ps[j].last_seen <= now by {
            assert(old(self).peers()[j].last_seen <= now);
        }
        let mut i: usize = 0;
        let n = rest.len();
        while i < n
            invariant
                n == ps.len(),
                i <= n,
                rest@ == ps.skip(i as int),
                self.peers@ == retained_peers(ps.take(i as int), now),
                self.peers@.len() <= i,
                forall|a: int| 0 <= a < self.peers@.len() ==> exists|j: int| 0 <= j < i && #[trigger] self.peers@[a] == ps[j],
                forall|a: int, b: int| 0 <= a < b < self.peers@.len() ==> self.peers@[a].address@ != self.peers@[b].address@,
                forall|j: int| 0 <= j < ps.len() ==> #[trigger] ps[j].last_seen <= now,
                forall|j: int, l: int| 0 <= j < l < ps.len() ==> ps[j].address@ != ps[l].address@,
                self.max_history == old(self).max_history,
                self.max_peers == old(self).max_peers,
                self.message_history == old(self).message_history,
            decreases n - i,
        {
            let peer = rest.remove(0);
            assert(peer == ps[i as int]);
            assert(ps.take(i as int + 1).drop_last() =~= ps.take(i as int));
            assert(rest@ =~= ps.skip(i as int + 1));
            // Remove peers inactive for > 1 hour
            if now - peer.last_seen < 3600 {
                let ghost before = self.peers@;
                proof {
                    assert forall|a: int| 0 <= a < before.len() implies before[a].address@ != peer.address@ by {
                        let j = choose|j: int| 0 <= j < i && before[a] == ps[j];
                    }
                }
                self.peers.push(peer);
                proof {
                    assert forall|a: int| 0 <= a < self.peers@.len() implies exists|j: int| 0 <= j < i + 1 && #[trigger] self.peers@[a] == ps[j] by {
                        if a < before.len() {
                            let j = choose|j: int| 0 <= j < i && before[a] == ps[j];
                            assert(self.peers@[a] == ps[j]);
                        } else {
                            assert(self.peers@[a] == ps[i as int]);
                        }
                    }
                }
            }
            i = i + 1;
        }
        proof {
            assert(ps.take(n as int) =~= ps);
            assert forall|a: int| 0 <= a < self.peers@.len() implies #[trigger] self.peers@[a].last_seen <= latest_time()
                && self.peers@[a].last_share_time <= latest_time() && self.peers@[a].share_window_start <= self.peers@[a].last_share_time by {
                let j = choose|j: int| 0 <= j < n && self.peers@[a] == ps[j];
                assert(ps[j].last_seen <= latest_time());
            }
        }
    }

    /// Clean up old peers; the clock reading is raised to the latest time a
    /// peer was seen.
    pub fn cleanup(&mut self)
        requires
            old(self).wf(),
        ensures
            final(self).wf(),
            final(self).peer_limit() == old(self).peer_limit(),
            final(self).history_len() == old(self).history_len(),
            exists|now: u64|
                (forall|i: int| 0 <= i < old(self).peers().len() ==> #[trigger] old(self).peers()[i].last_seen <= now)
                    && final(self).peers() == #[trigger] retained_peers(old(self).peers(), now),
    {
        let now = self.latest_seen(unix_time_now());
        self.cleanup_at(now)
    }

    /// Get peer count
    pub fn peer_count(&self) -> (r: usize)
        ensures
            r == self.peers().len(),
    {
        self.peers.len()
    }
}

} // verus!
