use udp2p::node::peer_id::PeerId;
use udp2p::node::peer_key::{force_leading_zeros, Key};
use udp2p::protocol::protocol::MessageKey;
use udp2p::utils::utils::Distance;

fn leading_zero_count(k: &[u8; 32]) -> usize {
    let mut n = 0;
    for b in k.iter() {
        if *b == 0 {
            n += 8;
        } else {
            n += b.leading_zeros() as usize;
            break;
        }
    }
    n
}

#[test]
fn key_new_and_get_key_round_trip() {
    let mut v = [0u8; 32];
    v[0] = 7;
    v[31] = 9;
    assert_eq!(Key::new(v).get_key(), v);
}

#[test]
fn key_xor_is_bytewise() {
    let a = Key::new([0xFFu8; 32]);
    let b = Key::new([0x0Fu8; 32]);
    assert_eq!(a.xor(b).get_key(), [0xF0u8; 32]);
    assert_eq!(a.xor(a).get_key(), [0u8; 32]);
}

#[test]
fn key_xor_twice_gives_back_the_key() {
    let a = Key::rand();
    let b = Key::rand();
    assert_eq!(a.xor(b).xor(b).get_key(), a.get_key());
}

#[test]
fn key_leading_zeros_counts_bits() {
    assert_eq!(Key::new([0u8; 32]).leading_zeros(), 256);
    let mut v = [0u8; 32];
    v[0] = 0x01;
    assert_eq!(Key::new(v).leading_zeros(), 7);
    let mut w = [0u8; 32];
    w[2] = 0x20;
    assert_eq!(Key::new(w).leading_zeros(), 18);
    assert_eq!(Key::new([0xFFu8; 32]).leading_zeros(), 0);
}

#[test]
fn key_get_prefix_writes_bits() {
    let mut v = [0u8; 32];
    v[0] = 0b1010_0000;
    let k = Key::new(v);
    assert_eq!(k.get_prefix(0), "1");
    assert_eq!(k.get_prefix(3), "1010");
    assert_eq!(k.get_prefix(7), "10100000");
    assert_eq!(Key::new([0u8; 32]).get_prefix(0), "0");
    assert_eq!(Key::new([0xFFu8; 32]).get_prefix(255).len(), 256);
}

#[test]
fn key_bit_reads_msb_first() {
    let mut v = [0u8; 32];
    v[1] = 0x80;
    let k = Key::new(v);
    assert!(!k.bit(7));
    assert!(k.bit(8));
    assert!(!k.bit(9));
}

#[test]
fn key_less_than_is_numeric_order() {
    let mut a = [0u8; 32];
    let mut b = [0u8; 32];
    a[5] = 1;
    b[4] = 1;
    assert!(Key::new(a).less_than(&Key::new(b)));
    assert!(!Key::new(b).less_than(&Key::new(a)));
    assert!(!Key::new(a).less_than(&Key::new(a)));
}

#[test]
fn key_rand_in_range_has_exact_leading_zeros() {
    for idx in [0usize, 1, 7, 8, 13, 100, 255] {
        let k = Key::rand_in_range(idx);
        assert_eq!(k.leading_zeros(), idx);
        assert_eq!(leading_zero_count(&k.get_key()), idx);
    }
}

#[test]
fn force_leading_zeros_keeps_later_bytes() {
    let v = [0xFFu8; 32];
    let r = force_leading_zeros(v, 12);
    assert_eq!(r[0], 0);
    assert_eq!(r[1], 0x0F);
    assert_eq!(&r[2..], &v[2..]);
    let r0 = force_leading_zeros([0u8; 32], 0);
    assert_eq!(r0[0], 0x80);
}

#[test]
fn message_key_new_inner_from_inner() {
    let mut v = [0u8; 32];
    v[3] = 42;
    assert_eq!(MessageKey::new(v).inner(), v);
    assert_eq!(MessageKey::from_inner(v).inner(), v);
    assert_eq!(MessageKey::from_inner(v), MessageKey::new(v));
}

#[test]
fn message_key_rand_in_range_has_exact_leading_zeros() {
    for idx in [0usize, 9, 31, 200] {
        let k = MessageKey::rand_in_range(idx);
        assert_eq!(leading_zero_count(&k.inner()), idx);
    }
    let a = MessageKey::rand();
    assert_eq!(a.inner().len(), 32);
}

#[test]
fn peer_id_from_key_is_sha256_hex() {
    let id = PeerId::from_key(&Key::new([0u8; 32]));
    assert_eq!(
        id.get_id(),
        "66687aadf862bd776c8fc18b8e9f8e20089714856ee233b3902a591d0d5f2925"
    );
    let r = PeerId::rand();
    assert_eq!(r.get_id().len(), 64);
    let ranged = PeerId::rand_in_range(10);
    assert_eq!(ranged.get_id().len(), 64);
}

#[test]
fn peer_id_from_str_reads_json_string() {
    let id = PeerId::from_str("\"abc123\"".to_string());
    assert_eq!(id.get_id(), "abc123");
    assert_eq!(id, PeerId("abc123".to_string()));
}

#[test]
fn peer_id_try_from_str_refuses_non_json() {
    assert!(PeerId::try_from_str("abc".to_string()).is_none());
    assert!(PeerId::try_from_str("42".to_string()).is_none());
    let ok = PeerId::try_from_str("\"x\"".to_string()).unwrap();
    assert_eq!(ok.get_id(), "x");
}

#[test]
fn peer_id_rand_is_lowercase_hex() {
    for id in [PeerId::rand(), PeerId::rand_in_range(3)] {
        let text = id.get_id();
        assert_eq!(text.len(), 64);
        assert!(text.chars().all(|c| c.is_ascii_digit() || ('a'..='f').contains(&c)));
    }
}
