use udp2p::protocol::protocol::{
    create_packet, get_batch_id, get_packet_id, packetize, split_into_packets, Packet,
    PAYLOAD_SIZE,
};

fn data(len: usize) -> Vec<u8> {
    (0..len).map(|i| (i * 7 % 251) as u8).collect()
}

fn to_hex(bytes: &[u8]) -> String {
    bytes.iter().map(|b| format!("{:02x}", b)).collect()
}

#[test]
fn packetize_small_message_is_one_packet() {
    let id = [3u8; 32];
    let ps = packetize(vec![0x00, 0xAB, 0x10, 0xFF], id, 1, false);
    assert_eq!(ps.len(), 1);
    assert_eq!(ps[0].id, id);
    assert_eq!(ps[0].n, 1);
    assert_eq!(ps[0].total_n, 1);
    assert_eq!(ps[0].bytes, "00ab10ff");
    assert_eq!(ps[0].ret, 1);
    assert!(!ps[0].is_raptor_q_packet);
}

#[test]
fn packetize_empty_message_is_one_empty_packet() {
    let ps = packetize(vec![], [0u8; 32], 0, true);
    assert_eq!(ps.len(), 1);
    assert_eq!(ps[0].bytes, "");
    assert!(ps[0].is_raptor_q_packet);
}

#[test]
fn packetize_1500_bytes_gives_two_packets() {
    let d = data(1500);
    let ps = packetize(d.clone(), [1u8; 32], 0, false);
    assert_eq!(ps.len(), 2);
    assert_eq!(ps[0].bytes, to_hex(&d[..1024]));
    assert_eq!(ps[1].bytes, to_hex(&d[1024..]));
    for (i, p) in ps.iter().enumerate() {
        assert_eq!(p.n, i + 1);
        assert_eq!(p.total_n, 2);
    }
}

#[test]
fn packetize_whole_chunks_add_an_empty_last_packet() {
    let d = data(2048);
    let ps = packetize(d.clone(), [1u8; 32], 0, false);
    assert_eq!(ps.len(), 3);
    assert_eq!(ps[0].bytes, to_hex(&d[..1024]));
    assert_eq!(ps[1].bytes, to_hex(&d[1024..2048]));
    assert_eq!(ps[2].bytes, "");
    let one = packetize(data(1024), [1u8; 32], 0, false);
    assert_eq!(one.len(), 2);
    assert_eq!(one[1].bytes, "");
}

#[test]
fn packetize_concatenation_gives_back_the_data() {
    for len in [0usize, 1, 1023, 1024, 1025, 3000, 5120] {
        let d = data(len);
        let ps = packetize(d.clone(), [9u8; 32], 0, false);
        let joined: String = ps.iter().map(|p| p.bytes.clone()).collect();
        assert_eq!(joined, to_hex(&d));
    }
}

#[test]
fn create_packet_lays_out_header_and_payload() {
    let mut id = [0u8; 32];
    id[0] = 0xAA;
    id[31] = 0xBB;
    let p = create_packet(id, vec![5, 6, 7]);
    assert_eq!(p.len(), 2 + 32 + 3);
    assert_eq!(p[0], 0);
    assert_eq!(p[1], 1);
    assert_eq!(&p[2..34], &id[..]);
    assert_eq!(&p[34..], &[5, 6, 7]);
}

#[test]
fn get_batch_id_reads_from_offset_three() {
    let mut packet = [0u8; 1280];
    for i in 0..1280 {
        packet[i] = (i % 256) as u8;
    }
    let id = get_batch_id(&packet);
    for j in 0..32 {
        assert_eq!(id[j], (j + 3) as u8);
    }
}

#[test]
fn get_batch_id_of_create_packet_is_shifted_by_one() {
    let mut id2 = [0u8; 32];
    id2[0] = 1;
    let bytes = create_packet(id2, vec![9u8; 1280 - 34]);
    let mut packet = [0u8; 1280];
    packet.copy_from_slice(&bytes);
    let read = get_batch_id(&packet);
    assert_eq!(&read[..31], &id2[1..]);
    assert_eq!(read[31], 9);
    assert_ne!(read, id2);
}

#[test]
fn get_packet_id_is_the_id() {
    let p = Packet {
        id: [4u8; 32],
        n: 2,
        total_n: 3,
        bytes: String::new(),
        ret: 0,
        is_raptor_q_packet: false,
    };
    assert_eq!(get_packet_id(&p), [4u8; 32]);
}

#[test]
fn split_into_packets_gives_raptor_packets() {
    let d = data(5000);
    let ps = split_into_packets(&d, [0u8; 32], 2);
    // Symbols are PAYLOAD_SIZE rounded down to a multiple of 8 bytes: 1224.
    let symbol = PAYLOAD_SIZE - PAYLOAD_SIZE % 8;
    assert_eq!(symbol, 1224);
    // 5000 bytes need 5 source symbols, then 2 repair symbols.
    assert_eq!(ps.len(), 5 + 2);
    for p in ps.iter() {
        // 4 bytes of payload id before each symbol.
        assert_eq!(p.len(), symbol + 4);
    }
    // The source packets carry the data itself, zero-padded.
    let mut joined: Vec<u8> = Vec::new();
    for p in ps.iter().take(5) {
        joined.extend_from_slice(&p[4..]);
    }
    assert_eq!(&joined[..5000], &d[..]);
    let again = split_into_packets(&d, [0u8; 32], 2);
    assert_eq!(ps, again);
}

#[test]
fn get_batch_id_reads_back_a_uniform_id() {
    let id = [9u8; 32];
    let mut payload = vec![9u8];
    payload.extend(vec![1u8; 1280 - 35]);
    let bytes = create_packet(id, payload);
    let mut packet = [0u8; 1280];
    packet.copy_from_slice(&bytes);
    assert_eq!(get_batch_id(&packet), id);
}
