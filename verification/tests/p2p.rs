use accum_node::block::BlockHeader;
use accum_node::error::Error;
use accum_node::p2p::{
    InvItem, InvMessage, InvType, P2PManager, P2PMessage, Peer, PingMessage, ShareMessage,
    VersionMessage,
};
use accum_node::share::SharePacket;
use accum_node::types::Target;

fn share_message() -> P2PMessage {
    let header = BlockHeader {
        version: 1,
        prev_hash: [0u8; 32],
        merkle_root: [0u8; 32],
        timestamp: 1741353600,
        difficulty: Target([0xFF; 32]),
        nonce: 0,
        epoch_index: 1,
    };
    let share = SharePacket { miner_id: [3u8; 20], header, nonce: 0, hash: [0u8; 32] };
    P2PMessage::Share(ShareMessage { share })
}

fn version_message() -> VersionMessage {
    VersionMessage {
        version: 1,
        capabilities: 0,
        timestamp: 1741353600,
        user_agent: "ACCUM node".to_string(),
        start_height: 0,
        nonce: 12345,
    }
}

#[test]
fn test_peer_rate_limit() {
    let mut peer = Peer::new("127.0.0.1:8333".to_string());

    // 100 shares should be OK
    for _i in 0..100 {
        assert!(peer.record_share().is_ok());
    }

    // 101st share should ban
    assert!(peer.record_share().is_err());
    assert!(peer.is_banned());
}

#[test]
fn test_p2p_manager() {
    let mut manager = P2PManager::new(10);

    manager.add_peer("127.0.0.1:8333".to_string());
    assert_eq!(manager.peer_count(), 1);

    let version = version_message();

    let response = manager
        .process_message("127.0.0.1:8333".to_string(), P2PMessage::Version(version))
        .unwrap();

    assert!(matches!(response, Some(P2PMessage::Verack)));
}

#[test]
fn rate_limit_restarts_after_a_minute() {
    let mut peer = Peer::new_at("10.0.0.1:1".to_string(), 1000);
    for _ in 0..100 {
        assert_eq!(peer.record_share_at(1000), Ok(()));
    }
    assert_eq!(peer.share_count, 100);
    // a minute later the counter starts again
    assert_eq!(peer.record_share_at(1060), Ok(()));
    assert_eq!(peer.share_count, 1);
    assert!(!peer.is_banned_at(1060));
}

#[test]
fn two_shares_a_minute_are_never_refused() {
    let mut peer = Peer::new_at("10.0.0.2:1".to_string(), 0);
    for i in 0..500u64 {
        assert_eq!(peer.record_share_at(1000 + 30 * i), Ok(()));
    }
    assert!(!peer.is_banned_at(1000 + 30 * 500));
}

#[test]
fn window_starts_with_its_first_share() {
    let mut peer = Peer::new_at("10.0.0.3:1".to_string(), 0);
    assert_eq!(peer.record_share_at(1000), Ok(()));
    for _ in 0..99 {
        assert_eq!(peer.record_share_at(1059), Ok(()));
    }
    // 100 shares between 1000 and 1059: the window is full until 1060
    assert_eq!(peer.record_share_at(1059), Err(Error::P2p));
    assert!(peer.is_banned_at(1059));
}

#[test]
fn rate_limit_bans_for_five_minutes() {
    let mut peer = Peer::new_at("10.0.0.1:1".to_string(), 2000);
    for _ in 0..100 {
        assert_eq!(peer.record_share_at(2000), Ok(()));
    }
    assert_eq!(peer.record_share_at(2010), Err(Error::P2p));
    assert_eq!(peer.ban_until, 2010 + 300);
    assert!(peer.is_banned_at(2309));
    assert!(!peer.is_banned_at(2310));
}

#[test]
fn banned_peer_messages_are_refused() {
    let mut manager = P2PManager::new(10);
    manager.add_peer_at("a:1".to_string(), 100);
    for _ in 0..100 {
        assert_eq!(manager.process_message_at("a:1".to_string(), share_message(), 100).unwrap().is_none(), true);
    }
    assert_eq!(manager.process_message_at("a:1".to_string(), share_message(), 110).unwrap_err(), Error::P2p);
    let version = P2PMessage::Version(version_message());
    assert_eq!(manager.process_message_at("a:1".to_string(), version, 120).unwrap_err(), Error::P2p);
    assert_eq!(manager.banned_peers_at(120), vec!["a:1".to_string()]);
    // the ban runs out five minutes after it was set
    assert!(manager.banned_peers_at(410).is_empty());
    let version = P2PMessage::Version(version_message());
    assert!(manager.process_message_at("a:1".to_string(), version, 410).is_ok());
}

#[test]
fn ping_is_answered_with_pong() {
    let mut manager = P2PManager::new(4);
    let reply = manager
        .process_message_at("b:2".to_string(), P2PMessage::Ping(PingMessage { nonce: 77 }), 50)
        .unwrap();
    match reply {
        Some(P2PMessage::Pong(p)) => assert_eq!(p.nonce, 77),
        _ => panic!("expected a pong"),
    }
}

#[test]
fn inventory_is_answered_with_getdata() {
    let mut manager = P2PManager::new(4);
    let item = InvItem { inv_type: InvType::Block, hash: [9u8; 32] };
    let inv = P2PMessage::Inv(InvMessage { items: vec![item] });
    match manager.process_message_at("c:3".to_string(), inv, 50).unwrap() {
        Some(P2PMessage::GetData(g)) => {
            assert_eq!(g.items.len(), 1);
            assert_eq!(g.items[0].hash, [9u8; 32]);
            assert_eq!(g.items[0].inv_type, InvType::Block);
        }
        _ => panic!("expected getdata"),
    }
    let empty = P2PMessage::Inv(InvMessage { items: vec![] });
    assert!(manager.process_message_at("c:3".to_string(), empty, 50).unwrap().is_none());
}

#[test]
fn full_manager_drops_least_recently_seen() {
    let mut manager = P2PManager::new(2);
    manager.add_peer_at("p1".to_string(), 10);
    manager.add_peer_at("p2".to_string(), 5);
    manager.add_peer_at("p3".to_string(), 20);
    assert_eq!(manager.peer_count(), 2);
    // p2 was seen least recently and made room
    manager.add_peer_at("p1".to_string(), 30);
    manager.add_peer_at("p3".to_string(), 30);
    // re-adding known peers evicts nobody
    assert_eq!(manager.peer_count(), 2);
}

#[test]
fn known_peer_does_not_evict_when_full() {
    let mut manager = P2PManager::new(2);
    manager.add_peer_at("a".to_string(), 10);
    manager.add_peer_at("b".to_string(), 20);
    // "b" is known: "a", the least recently seen, stays
    manager.add_peer_at("b".to_string(), 30);
    assert_eq!(manager.peer_count(), 2);
}

#[test]
fn cleanup_drops_idle_peers() {
    let mut manager = P2PManager::new(10);
    manager.add_peer_at("old".to_string(), 0);
    manager.add_peer_at("new".to_string(), 3000);
    manager.cleanup_at(3600);
    assert_eq!(manager.peer_count(), 1);
    manager.cleanup_at(10_000);
    assert_eq!(manager.peer_count(), 0);
}

#[test]
fn shares_from_unknown_peers_are_ignored() {
    let mut manager = P2PManager::new(10);
    for _ in 0..150 {
        assert!(manager.process_message_at("ghost".to_string(), share_message(), 100).unwrap().is_none());
    }
    assert_eq!(manager.peer_count(), 0);
    assert!(manager.banned_peers_at(100).is_empty());
}
