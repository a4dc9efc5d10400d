use udp2p::discovery::closest::sort_peers_by_distance;
use udp2p::discovery::routing::{KBucket, RoutingTable};
use udp2p::discovery::MAX_BUCKET_LEN;
use udp2p::node::address::Address;
use udp2p::node::peer_id::PeerId;
use udp2p::node::peer_info::{PeerInfo, PeerInfoDistancePair};
use udp2p::node::peer_key::Key;
use udp2p::utils::utils::Distance;

fn key(first: u8, second: u8) -> Key {
    let mut v = [0u8; 32];
    v[0] = first;
    v[1] = second;
    Key::new(v)
}

fn peer(name: &str, first: u8, second: u8, port: u16) -> PeerInfo {
    PeerInfo::new(
        PeerId(name.to_string()),
        key(first, second),
        Address::V4(0x7F00_0001, port),
    )
}

fn ids(v: &[PeerInfo]) -> Vec<String> {
    v.iter().map(|p| p.id.get_id()).collect()
}

#[test]
fn kbucket_upsert_contains_size() {
    let mut b = KBucket::new();
    assert_eq!(b.size(), 0);
    let a = peer("a", 1, 0, 1);
    b.upsert(&a);
    assert!(b.contains(&a));
    assert!(!b.contains(&peer("b", 2, 0, 2)));
    assert_eq!(b.size(), 1);
    b.upsert(&a);
    assert_eq!(b.size(), 1);
}

#[test]
fn kbucket_upsert_moves_peer_to_the_back() {
    let mut b = KBucket::new();
    b.upsert(&peer("a", 1, 0, 1));
    b.upsert(&peer("b", 2, 0, 2));
    b.upsert(&peer("c", 3, 0, 3));
    assert_eq!(ids(&b.get_nodes()), vec!["a", "b", "c"]);
    b.upsert(&peer("a", 1, 0, 9));
    assert_eq!(ids(&b.get_nodes()), vec!["b", "c", "a"]);
    assert_eq!(b.get_nodes()[2].address, Address::V4(0x7F00_0001, 9));
}

#[test]
fn kbucket_remove_lru_takes_the_oldest() {
    let mut b = KBucket::new();
    assert!(b.remove_lru().is_none());
    b.upsert(&peer("a", 1, 0, 1));
    b.upsert(&peer("b", 2, 0, 2));
    assert_eq!(b.remove_lru().unwrap().id.get_id(), "a");
    assert_eq!(ids(&b.get_nodes()), vec!["b"]);
}

#[test]
fn kbucket_remove_peer_by_id() {
    let mut b = KBucket::new();
    b.upsert(&peer("a", 1, 0, 1));
    b.upsert(&peer("b", 2, 0, 2));
    assert_eq!(b.remove_peer(&peer("a", 7, 7, 7)).unwrap().address, Address::V4(0x7F00_0001, 1));
    assert!(b.remove_peer(&peer("zz", 1, 0, 1)).is_none());
    assert_eq!(ids(&b.get_nodes()), vec!["b"]);
}

#[test]
fn kbucket_is_full_at_max_len() {
    let mut b = KBucket::new();
    for i in 0..MAX_BUCKET_LEN {
        assert!(!b.is_full());
        b.upsert(&peer(&format!("p{}", i), i as u8, 0, i as u16));
    }
    assert!(b.is_full());
    assert_eq!(b.size(), MAX_BUCKET_LEN);
}

#[test]
fn kbucket_split_gives_an_empty_bucket() {
    let mut b = KBucket::new();
    b.upsert(&peer("a", 1, 0, 1));
    let n = b.split(1, "01".to_string());
    assert_eq!(n.size(), 0);
    assert_eq!(b.size(), 1);
}

#[test]
fn kbucket_staleness_by_time() {
    let b = KBucket::new();
    assert!(!b.is_stale_at(0));
    assert!(b.is_stale_at(u128::MAX));
    assert!(!b.is_stale());
    let c = b.clone();
    assert_eq!(c.size(), 0);
}

#[test]
fn routing_table_new_knows_local() {
    let local = peer("local", 0, 0, 1000);
    let t = RoutingTable::new(local.clone());
    assert_eq!(t.size(), 1);
    assert_eq!(t.tree[0].0, "0");
    assert_eq!(t.total_peers(), 1);
    assert_eq!(ids(&t.get_all_peers()), vec!["local"]);
    assert!(!t.is_new(&local));
}

#[test]
fn routing_table_update_peer_files_by_prefix() {
    let local = peer("local", 0, 0, 1000);
    let mut t = RoutingTable::new(local);
    let far = peer("far", 0x80, 0, 1);
    let near = peer("near", 0x01, 0, 2);
    assert!(t.is_new(&far));
    assert!(t.update_peer(&far, 0));
    assert!(t.update_peer(&near, 0));
    assert_eq!(t.size(), 2);
    assert_eq!(t.total_peers(), 3);
    assert!(!t.is_new(&far));
    assert!(!t.is_new(&near));
    let b1 = t.tree.iter().find(|(p, _)| p == "1").unwrap();
    assert_eq!(ids(&b1.1.get_nodes()), vec!["far"]);
    let b0 = t.tree.iter().find(|(p, _)| p == "0").unwrap();
    assert_eq!(ids(&b0.1.get_nodes()), vec!["local", "near"]);
}

#[test]
fn routing_table_update_peer_goes_deeper_when_full() {
    let local = peer("local", 0, 0, 1000);
    let mut t = RoutingTable::new(local);
    for i in 0..MAX_BUCKET_LEN as u8 {
        assert!(t.update_peer(&peer(&format!("p{}", i), 0x80, i, i as u16), 0));
    }
    assert_eq!(t.size(), 2);
    let extra = peer("extra", 0xC0, 0, 77);
    assert!(t.update_peer(&extra, 0));
    assert_eq!(t.size(), 3);
    let b = t.tree.iter().find(|(p, _)| p == "11").unwrap();
    assert_eq!(ids(&b.1.get_nodes()), vec!["extra"]);
}

#[test]
fn routing_table_get_closest_peers_sorted_and_bounded() {
    let local = peer("local", 0, 0, 1000);
    let mut t = RoutingTable::new(local.clone());
    let ps = [
        peer("a", 0x80, 0, 1),
        peer("b", 0x40, 0, 2),
        peer("c", 0x20, 0, 3),
        peer("d", 0x10, 0, 4),
    ];
    for p in ps.iter() {
        t.update_peer(p, 0);
    }
    let all = t.get_closest_peers(local.clone(), 10);
    assert_eq!(all.len(), 5);
    let target = peer("t", 0x21, 0, 9);
    let two = t.get_closest_peers(target.clone(), 2);
    assert_eq!(two.len(), 2);
    assert_eq!(ids(&two), vec!["c", "local"]);
    let three = t.get_closest_peers(target, 3);
    let d: Vec<_> = three.iter().map(|p| p.get_key().xor(key(0x21, 0)).get_key()).collect();
    assert!(d.windows(2).all(|w| w[0] <= w[1]));
}

#[test]
fn routing_table_remove_peer_and_lru() {
    let local = peer("local", 0, 0, 1000);
    let mut t = RoutingTable::new(local);
    let far = peer("far", 0x80, 0, 1);
    let far2 = peer("far2", 0x81, 0, 2);
    t.update_peer(&far, 0);
    t.update_peer(&far2, 0);
    assert_eq!(t.total_peers(), 3);
    t.remove_peer(&far2);
    assert_eq!(t.total_peers(), 2);
    assert!(t.is_new(&far2));
    let lru = t.remove_lru(&key(0x80, 0).get_key());
    assert_eq!(lru.unwrap().id.get_id(), "far");
    assert_eq!(t.total_peers(), 1);
    assert!(t.remove_lru(&key(0x80, 0).get_key()).is_none());
}

#[test]
fn routing_table_stale_indices_by_time() {
    let local = peer("local", 0, 0, 1000);
    let t = RoutingTable::new(local);
    assert!(t.get_stale_indices_at(0).is_empty());
    assert_eq!(t.get_stale_indices_at(u128::MAX), vec!["0".to_string()]);
    assert!(t.get_stale_indices().is_empty());
}

#[test]
fn sort_peers_by_distance_orders_by_xor() {
    let ps = vec![
        peer("a", 0x80, 0, 1),
        peer("b", 0x01, 0, 2),
        peer("c", 0x10, 0, 3),
        peer("d", 0x01, 0, 4),
    ];
    let sorted = sort_peers_by_distance(&ps, &key(0, 0));
    assert_eq!(ids(&sorted), vec!["b", "d", "c", "a"]);
    let sorted2 = sort_peers_by_distance(&ps, &key(0x80, 0));
    assert_eq!(ids(&sorted2), vec!["a", "b", "d", "c"]);
}

#[test]
fn peer_info_equality_is_by_key() {
    assert_eq!(peer("a", 1, 2, 3), peer("b", 1, 2, 9));
    assert_ne!(peer("a", 1, 2, 3), peer("a", 1, 3, 3));
    let x = PeerInfoDistancePair(peer("a", 1, 2, 3), key(9, 9));
    let y = PeerInfoDistancePair(peer("c", 1, 2, 4), key(0, 0));
    assert!(x == y);
}

#[test]
fn routing_table_remove_peer_from_every_bucket() {
    let local = peer("local", 0, 0, 1000);
    let mut t = RoutingTable::new(local);
    // The same id filed twice, under keys in different buckets.
    t.update_peer(&peer("x", 0x80, 0, 1), 0);
    t.update_peer(&peer("x", 0x01, 0, 2), 0);
    t.update_peer(&peer("y", 0x02, 0, 3), 0);
    assert_eq!(t.total_peers(), 4);
    t.remove_peer(&peer("x", 0x55, 0, 9));
    assert!(t.is_new(&peer("x", 0, 0, 0)));
    assert_eq!(t.total_peers(), 2);
    assert_eq!(ids(&t.get_all_peers()), vec!["local", "y"]);
}

#[test]
fn routing_table_closest_peers_are_the_truly_closest() {
    let local = peer("local", 0, 0, 1000);
    let mut t = RoutingTable::new(local);
    // Fill bucket "0" with peers at distances 0x60.. and put closer peers
    // (0x41..) deeper in other buckets' reach.
    for i in 0..30u8 {
        t.update_peer(&peer(&format!("f{}", i), 0x60 | (i & 0x1F), i, i as u16), 0);
    }
    for i in 0..5u8 {
        t.update_peer(&peer(&format!("c{}", i), 0x41, i, 100 + i as u16), 0);
    }
    let target = key(0x40, 0);
    let got = t.get_closest_peers(PeerInfo::new(PeerId("t".to_string()), target, Address::V4(0, 0)), 8);
    let mut all = t.get_all_peers();
    all.sort_by_key(|p| p.get_key().xor(target).get_key());
    let want: Vec<String> = ids(&all[..8]);
    assert_eq!(ids(&got), want);
    assert!(ids(&got).iter().filter(|n| n.starts_with('c')).count() == 5);
}

#[test]
fn routing_table_remove_lru_of_empty_bucket_changes_nothing() {
    let local = peer("local", 0, 0, 1000);
    let mut t = RoutingTable::new(local);
    let far = peer("far", 0x80, 0, 1);
    t.update_peer(&far, 0);
    assert!(t.remove_lru(&key(0x80, 0).get_key()).is_some());
    assert_eq!(t.size(), 2);
    assert!(t.remove_lru(&key(0x80, 0).get_key()).is_none());
    assert_eq!(t.size(), 2);
    assert_eq!(t.total_peers(), 1);
}
