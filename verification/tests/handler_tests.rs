use udp2p::protocol::protocol::{packetize, Header, Message, Packet};
use udp2p::transport::handler::{MessageHandler, PendingMessage, Route};

fn data(len: usize) -> Vec<u8> {
    (0..len).map(|i| (i * 13 % 256) as u8).collect()
}

fn packet(id: u8, n: usize, total_n: usize, bytes: &str, ret: u8) -> Packet {
    Packet {
        id: [id; 32],
        n,
        total_n,
        bytes: bytes.to_string(),
        ret,
        is_raptor_q_packet: false,
    }
}

#[test]
fn process_packet_acks_when_a_receipt_is_asked() {
    let h = MessageHandler::new(vec![]);
    let local = b"127.0.0.1:9000".to_vec();
    let ack = h.process_packet(&local, &packet(5, 2, 3, "00", 1)).unwrap();
    assert_eq!(ack.packet_id, [5u8; 32]);
    assert_eq!(ack.packet_number, 2);
    assert_eq!(ack.src, local);
    assert!(h.process_packet(&local, &packet(5, 2, 3, "00", 0)).is_none());
}

#[test]
fn insert_single_packet_decodes_at_once() {
    let mut h = MessageHandler::new(vec![]);
    let r = h.insert_packet(packet(1, 1, 1, "48656c6c6f", 0));
    assert_eq!(r, Some(b"Hello".to_vec()));
    assert!(h.pending.is_empty());
}

#[test]
fn insert_single_packet_with_bad_hex_gives_nothing() {
    let mut h = MessageHandler::new(vec![]);
    assert_eq!(h.insert_packet(packet(1, 1, 1, "zz", 0)), None);
    assert_eq!(h.insert_packet(packet(1, 1, 1, "abc", 0)), None);
    assert!(h.pending.is_empty());
}

#[test]
fn insert_packets_out_of_order_reassembles() {
    let d = data(2500);
    let ps = packetize(d.clone(), [8u8; 32], 0, false);
    assert_eq!(ps.len(), 3);
    let mut h = MessageHandler::new(vec![]);
    assert_eq!(h.insert_packet(ps[2].clone()), None);
    assert_eq!(h.pending.len(), 1);
    assert_eq!(h.insert_packet(ps[0].clone()), None);
    assert_eq!(h.insert_packet(ps[0].clone()), None);
    assert_eq!(h.pending[0].packets.len(), 2);
    assert_eq!(h.insert_packet(ps[1].clone()), Some(d));
}

#[test]
fn insert_packets_of_two_messages_stay_apart() {
    let a = data(1500);
    let b: Vec<u8> = data(1100).iter().map(|x| x ^ 0x55).collect();
    let pa = packetize(a.clone(), [1u8; 32], 0, false);
    let pb = packetize(b.clone(), [2u8; 32], 0, false);
    let mut h = MessageHandler::new(vec![]);
    assert_eq!(h.insert_packet(pa[0].clone()), None);
    assert_eq!(h.insert_packet(pb[1].clone()), None);
    assert_eq!(h.pending.len(), 2);
    assert_eq!(h.insert_packet(pb[0].clone()), Some(b));
    assert_eq!(h.insert_packet(pa[1].clone()), Some(a));
}

#[test]
fn insert_packet_with_bad_hex_piece_gives_nothing() {
    let mut h = MessageHandler::new(vec![]);
    assert_eq!(h.insert_packet(packet(3, 1, 2, "00ff", 0)), None);
    assert_eq!(h.insert_packet(packet(3, 2, 2, "0g", 0)), None);
    assert_eq!(h.pending[0].packets.len(), 2);
}

#[test]
fn handle_message_routes_by_header() {
    let h = MessageHandler::new(vec![]);
    let m = |head| Message { head, msg: vec![1, 2] };
    assert_eq!(h.handle_message(&m(Header::Request)), Route::Kad);
    assert_eq!(h.handle_message(&m(Header::Response)), Route::Kad);
    assert_eq!(h.handle_message(&m(Header::Ack)), Route::Ack);
    assert_eq!(h.handle_message(&m(Header::Gossip)), Route::Gossip);
    assert_eq!(h.handle_message(&m(Header::RaptorQGossip)), Route::Drop);
}

#[test]
fn handler_is_wf_checks_ids_and_numbers() {
    assert!(MessageHandler::new(vec![]).is_wf());
    let ok = MessageHandler::new(vec![
        PendingMessage { id: [1u8; 32], packets: vec![packet(1, 1, 3, "00", 0), packet(1, 2, 3, "00", 0)] },
        PendingMessage { id: [2u8; 32], packets: vec![packet(2, 1, 2, "00", 0)] },
    ]);
    assert!(ok.is_wf());
    let twice = MessageHandler::new(vec![
        PendingMessage { id: [1u8; 32], packets: vec![] },
        PendingMessage { id: [1u8; 32], packets: vec![] },
    ]);
    assert!(!twice.is_wf());
    let same_n = MessageHandler::new(vec![PendingMessage {
        id: [1u8; 32],
        packets: vec![packet(1, 2, 3, "00", 0), packet(1, 2, 3, "11", 0)],
    }]);
    assert!(!same_n.is_wf());
}
