use udp2p::gd_udp::gd_udp::{GDUdp, MAINTENANCE, MAX_ATTEMPTS};
use udp2p::node::address::Address;
use udp2p::protocol::protocol::Packet;

fn addr(port: u16) -> Address {
    Address::V6(1, port, 0, 0)
}

fn packet(id: u8, n: usize) -> Packet {
    Packet {
        id: [id; 32],
        n,
        total_n: 2,
        bytes: "00".to_string(),
        ret: 1,
        is_raptor_q_packet: false,
    }
}

#[test]
fn gd_udp_new_is_empty() {
    let g = GDUdp::new(addr(1), 77);
    assert_eq!(g.addr, addr(1));
    assert!(g.outbox.is_empty());
    assert!(g.message_cache.is_empty());
    assert_eq!(g.timer, 77);
    assert_eq!(g.log, "log.log");
}

#[test]
fn gd_udp_send_reliable_files_and_counts() {
    let mut g = GDUdp::new(addr(1), 0);
    g.send_reliable(&addr(2), &packet(1, 1));
    assert_eq!(g.outbox.len(), 1);
    assert_eq!(g.outbox[0].sent, vec![addr(2)]);
    assert_eq!(g.outbox[0].attempts, 1);
    g.send_reliable(&addr(2), &packet(1, 1));
    g.send_reliable(&addr(3), &packet(1, 1));
    assert_eq!(g.outbox.len(), 1);
    assert_eq!(g.outbox[0].sent, vec![addr(2), addr(3)]);
    assert_eq!(g.outbox[0].attempts, 3);
    g.send_reliable(&addr(2), &packet(1, 2));
    assert_eq!(g.outbox.len(), 2);
}

#[test]
fn gd_udp_process_ack_records_sender() {
    let mut g = GDUdp::new(addr(1), 0);
    g.send_reliable(&addr(2), &packet(1, 1));
    g.process_ack([1u8; 32], 1, addr(2));
    g.process_ack([1u8; 32], 1, addr(2));
    assert_eq!(g.outbox[0].acked, vec![addr(2)]);
    g.process_ack([9u8; 32], 1, addr(2));
    g.process_ack([1u8; 32], 5, addr(2));
    assert_eq!(g.outbox.len(), 1);
    assert_eq!(g.outbox[0].acked, vec![addr(2)]);
}

#[test]
fn gd_udp_maintain_resends_unacknowledged() {
    let mut g = GDUdp::new(addr(1), 0);
    g.send_reliable(&addr(2), &packet(1, 1));
    g.send_reliable(&addr(3), &packet(1, 1));
    g.send_reliable(&addr(4), &packet(2, 1));
    g.process_ack([1u8; 32], 1, addr(2));
    g.process_ack([2u8; 32], 1, addr(4));
    let sends = g.maintain();
    assert_eq!(sends.len(), 1);
    assert_eq!(sends[0].0, addr(3));
    assert_eq!(sends[0].1.id, [1u8; 32]);
    assert_eq!(g.outbox.len(), 1);
    assert_eq!(g.outbox[0].attempts, 3);
}

#[test]
fn gd_udp_maintain_gives_up_after_max_attempts() {
    let mut g = GDUdp::new(addr(1), 0);
    for _ in 0..MAX_ATTEMPTS {
        g.send_reliable(&addr(2), &packet(1, 1));
    }
    assert_eq!(g.outbox[0].attempts, MAX_ATTEMPTS);
    assert!(g.maintain().is_empty());
    assert!(g.outbox.is_empty());
}

#[test]
fn gd_udp_check_time_elapsed_waits_for_maintenance() {
    let mut g = GDUdp::new(addr(1), 1000);
    g.send_reliable(&addr(2), &packet(1, 1));
    assert!(g.check_time_elapsed(1000 + MAINTENANCE - 1).is_empty());
    assert_eq!(g.timer, 1000);
    assert_eq!(g.outbox[0].attempts, 1);
    let sends = g.check_time_elapsed(1000 + MAINTENANCE);
    assert_eq!(sends.len(), 1);
    assert_eq!(g.timer, 1000 + MAINTENANCE);
    assert_eq!(g.outbox[0].attempts, 2);
}
