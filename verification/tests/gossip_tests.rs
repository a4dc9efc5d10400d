use udp2p::discovery::kad::Kademlia;
use udp2p::discovery::routing::RoutingTable;
use udp2p::gossip::gossip::{GossipService, Handling};
use udp2p::node::address::Address;
use udp2p::node::peer_id::PeerId;
use udp2p::node::peer_info::PeerInfo;
use udp2p::node::peer_key::Key;
use udp2p::protocol::protocol::{Header, Message};

fn addr(port: u16) -> Address {
    Address::V4(0xC0A8_0001, port)
}

fn peer(name: &str, first: u8, port: u16) -> PeerInfo {
    let mut v = [0u8; 32];
    v[0] = first;
    PeerInfo::new(PeerId(name.to_string()), Key::new(v), addr(port))
}

fn service() -> GossipService {
    let local = peer("local", 0, 1000);
    let kad = Kademlia::new(RoutingTable::new(local), vec![], 1, 0);
    GossipService::new(addr(1000), addr(2000), kad, 10, 5, 3, 4, 0, 0)
}

fn msg(b: u8) -> Message {
    Message { head: Header::Gossip, msg: vec![b, b] }
}

#[test]
fn gossip_heartbeat_after_interval() {
    let mut g = service();
    assert!(!g.heartbeat(5));
    assert!(!g.heartbeat(10));
    assert_eq!(g.heartbeat, 0);
    assert!(g.heartbeat(11));
    assert_eq!(g.heartbeat, 11);
    assert!(!g.heartbeat(15));
}

#[test]
fn gossip_handle_message_caches_once() {
    let mut g = service();
    assert_eq!(g.handle_message(addr(7), &msg(1), [1u8; 32], 3), Handling::DeliverAndForward);
    assert_eq!(g.cache.len(), 1);
    assert_eq!(g.cache[0].2, 3);
    assert_eq!(g.handle_message(addr(8), &msg(2), [1u8; 32], 4), Handling::Ignore);
    assert_eq!(g.cache.len(), 1);
    assert_eq!(g.cache[0].1.msg, vec![1, 1]);
}

#[test]
fn gossip_handle_message_from_self_is_forwarded_not_delivered() {
    let mut g = service();
    assert_eq!(g.handle_message(addr(1000), &msg(1), [2u8; 32], 0), Handling::Forward);
    assert_eq!(g.cache.len(), 1);
    assert_eq!(g.handle_message(addr(9), &msg(1), [2u8; 32], 0), Handling::Ignore);
}

#[test]
fn gossip_round_republishes_and_expires() {
    let mut g = service();
    g.handle_message(addr(7), &msg(1), [1u8; 32], 0);
    g.handle_message(addr(7), &msg(2), [2u8; 32], 15);
    // No heartbeat yet: nothing happens.
    assert!(g.gossip(10).is_empty());
    assert_eq!(g.cache.len(), 2);
    // Heartbeat at 20: ages 20 and 5, both younger than 30, none older than 50.
    let out = g.gossip(20);
    assert_eq!(out.len(), 2);
    assert_eq!(g.cache.len(), 2);
    // Heartbeat at 40: ages 40 and 25; only the second is republished.
    let out = g.gossip(40);
    assert_eq!(out.len(), 1);
    assert_eq!(out[0].msg, vec![2, 2]);
    // Heartbeat at 60: ages 60 and 45; the first leaves the cache.
    let out = g.gossip(60);
    assert!(out.is_empty());
    assert_eq!(g.cache.len(), 1);
    assert_eq!(g.cache[0].0.inner(), [2u8; 32]);
}

#[test]
fn gossip_publish_targets_few_peers_all_but_local() {
    let g = service();
    let peers = vec![peer("local", 0, 1000), peer("a", 1, 1), peer("b", 2, 2), peer("a2", 3, 1)];
    let t = g.publish_targets(&peers, addr(1), 5);
    assert_eq!(t, vec![addr(1), addr(2)]);
}

#[test]
fn gossip_publish_targets_many_peers_sampled() {
    let g = service();
    let peers: Vec<PeerInfo> = (0..12u8).map(|i| peer(&format!("p{}", i), i, 100 + i as u16)).collect();
    let t = g.publish_targets(&peers, addr(100), 40);
    assert!(t.len() <= 11);
    for (i, a) in t.iter().enumerate() {
        assert_ne!(*a, addr(100));
        assert_ne!(*a, addr(1000));
        assert!(peers.iter().any(|p| p.address == *a));
        assert!(!t[..i].contains(a));
    }
    assert!(g.publish_targets(&peers, addr(100), 0).is_empty());
}

#[test]
fn gossip_peers_and_public_ip() {
    let g = service();
    let ps = g.gossip_peers();
    assert_eq!(ps.len(), 1);
    assert_eq!(ps[0].id.get_id(), "local");
    assert_eq!(g.get_pub_ip(), addr(2000));
}

#[test]
fn gossip_sample_targets_follows_the_draws() {
    let g = service();
    let peers: Vec<PeerInfo> = (0..12u8).map(|i| peer(&format!("p{}", i), i, 100 + i as u16)).collect();
    // Draws of the source (100), a repeat (103) and the local address are left out.
    let mut local = peer("me", 40, 1000);
    local.address = addr(1000);
    let mut with_local = peers.clone();
    with_local.push(local);
    let t = g.sample_targets(&with_local, addr(100), &vec![3, 0, 5, 3, 12, 11]);
    assert_eq!(t, vec![addr(103), addr(105), addr(111)]);
    assert!(g.sample_targets(&with_local, addr(100), &vec![]).is_empty());
}

#[test]
fn gossip_publish_targets_bounded_by_draws() {
    let g = service();
    let peers: Vec<PeerInfo> = (0..12u8).map(|i| peer(&format!("p{}", i), i, 100 + i as u16)).collect();
    for samples in [1usize, 3, 6] {
        assert!(g.publish_targets(&peers, addr(100), samples).len() <= samples);
    }
}
