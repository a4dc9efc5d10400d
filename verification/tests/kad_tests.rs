use udp2p::discovery::kad::{KadAction, Kademlia, RequestKind, ResponseKind};
use udp2p::discovery::routing::RoutingTable;
use udp2p::node::address::Address;
use udp2p::node::peer_id::PeerId;
use udp2p::node::peer_info::PeerInfo;
use udp2p::node::peer_key::Key;
use udp2p::protocol::protocol::MessageKey;

fn peer(name: &str, first: u8, port: u16) -> PeerInfo {
    let mut v = [0u8; 32];
    v[0] = first;
    PeerInfo::new(PeerId(name.to_string()), Key::new(v), Address::V4(0x0A00_0001, port))
}

fn kad() -> Kademlia {
    let local = peer("local", 0, 1000);
    Kademlia::new(RoutingTable::new(local), vec![MessageKey::new([1u8; 32])], 100, 50)
}

#[test]
fn kademlia_new_keeps_its_parts() {
    let k = kad();
    assert_eq!(k.pending, vec![MessageKey::new([1u8; 32])]);
    assert_eq!(k.interval, 100);
    assert_eq!(k.ping_pong, 50);
    assert_eq!(k.routing_table.total_peers(), 1);
}

#[test]
fn kademlia_ping_due_after_interval() {
    let k = kad();
    assert!(!k.ping_due(10));
    assert!(!k.ping_due(150));
    assert!(k.ping_due(151));
}

#[test]
fn kademlia_add_peer_and_bootstrap() {
    let mut k = kad();
    let p = peer("p", 0x40, 1);
    k.add_peer(&p);
    assert!(!k.routing_table.is_new(&p));
    assert_eq!(k.routing_table.total_peers(), 2);
    k.bootstrap();
    assert_eq!(k.routing_table.total_peers(), 2);
}

#[test]
fn kademlia_lookup_node_answers_then_adds() {
    let mut k = kad();
    let a = peer("a", 0x80, 1);
    let (found, actions) = k.lookup_node(&a);
    assert_eq!(found.len(), 1);
    assert_eq!(found[0].id.get_id(), "local");
    assert_eq!(
        actions,
        vec![KadAction::SendNodes(Address::V4(0x0A00_0001, 1)), KadAction::SendNewPeer(Address::V4(0x0A00_0001, 1000))]
    );
    assert!(!k.routing_table.is_new(&a));
    let b = peer("b", 0x40, 2);
    let (found2, _) = k.lookup_node(&b);
    assert_eq!(found2.len(), 2);
    // A node the table knows is answered, but nobody is told about it.
    let (found3, actions3) = k.lookup_node(&a);
    assert_eq!(found3.len(), 3);
    assert_eq!(actions3, vec![KadAction::SendNodes(Address::V4(0x0A00_0001, 1))]);
}

#[test]
fn kademlia_discover_nodes_returns_new_addresses() {
    let mut k = kad();
    let a = peer("a", 0x80, 1);
    k.add_peer(&a);
    let b = peer("b", 0x40, 2);
    let c = peer("c", 0x20, 3);
    let addrs = k.discover_nodes(&vec![a.clone(), b.clone(), c.clone(), b.clone()]);
    assert_eq!(addrs, vec![Address::V4(0x0A00_0001, 2), Address::V4(0x0A00_0001, 3)]);
    assert!(!k.routing_table.is_new(&b));
    assert!(!k.routing_table.is_new(&c));
    assert_eq!(k.routing_table.total_peers(), 4);
}

#[test]
fn kademlia_handle_request_find_node() {
    let mut k = kad();
    let sender = peer("s", 0x40, 5);
    let node = peer("n", 0x80, 6);
    let (found, actions) = k.handle_request(&sender, &RequestKind::FindNode(Some(node.clone())));
    let names: Vec<String> = found.iter().map(|p| p.id.get_id()).collect();
    assert_eq!(names, vec!["local", "s"]);
    assert_eq!(
        actions,
        vec![
            KadAction::SendNodes(Address::V4(0x0A00_0001, 6)),
            KadAction::SendNewPeer(Address::V4(0x0A00_0001, 1000)),
            KadAction::SendNewPeer(Address::V4(0x0A00_0001, 5)),
        ]
    );
    assert!(!k.routing_table.is_new(&sender));
    assert!(!k.routing_table.is_new(&node));
    let (_, again) = k.handle_request(&sender, &RequestKind::FindNode(Some(node.clone())));
    assert_eq!(again, vec![KadAction::SendNodes(Address::V4(0x0A00_0001, 6))]);
}

#[test]
fn kademlia_handle_request_other_kinds() {
    let mut k = kad();
    let sender = peer("s", 0x40, 5);
    let (f, a) = k.handle_request(&sender, &RequestKind::Ping);
    assert!(f.is_empty());
    assert_eq!(a, vec![KadAction::SendPong(Address::V4(0x0A00_0001, 5))]);
    assert_eq!(k.routing_table.total_peers(), 2);
    let newp = peer("new", 0x20, 8);
    let (_, a) = k.handle_request(&sender, &RequestKind::NewPeer(newp.clone()));
    assert!(a.is_empty());
    assert!(!k.routing_table.is_new(&newp));
    let (_, a) = k.handle_request(&sender, &RequestKind::FindNode(None));
    assert!(a.is_empty());
    let (_, a) = k.handle_request(&sender, &RequestKind::Store);
    assert!(a.is_empty());
    let (_, a) = k.handle_request(&sender, &RequestKind::FindValue);
    assert!(a.is_empty());
    let (_, a) = k.handle_request(&sender, &RequestKind::Other);
    assert_eq!(a, vec![KadAction::AsResponse]);
    assert_eq!(k.routing_table.total_peers(), 3);
}

#[test]
fn kademlia_handle_response_kinds() {
    let mut k = kad();
    let a = peer("a", 0x80, 1);
    let b = peer("b", 0x40, 2);
    k.add_peer(&a);
    let acts = k.handle_response(&ResponseKind::Nodes(vec![a.clone(), b.clone()]));
    assert_eq!(acts, vec![KadAction::SendFindNode(Address::V4(0x0A00_0001, 2))]);
    assert!(!k.routing_table.is_new(&b));
    let c = peer("c", 0x20, 3);
    assert!(k.handle_response(&ResponseKind::Pong(c.clone())).is_empty());
    assert!(!k.routing_table.is_new(&c));
    assert!(k.handle_response(&ResponseKind::Value).is_empty());
    assert!(k.handle_response(&ResponseKind::Saved).is_empty());
    assert_eq!(k.handle_response(&ResponseKind::Other), vec![KadAction::AsRequest]);
    assert_eq!(k.routing_table.total_peers(), 4);
}
