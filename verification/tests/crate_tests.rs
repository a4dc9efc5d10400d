use udp2p::utils::utils::{timestamp_from, timestamp_now};

#[test]
fn it_works() {
    let result = 2 + 2;
    assert_eq!(result, 4);
}

#[test]
fn timestamp_now_is_after_the_epoch() {
    let t = timestamp_now();
    // 2020-01-01 in nanoseconds since the epoch.
    assert!(t > 1_577_836_800_000_000_000u128);
    assert!(timestamp_now() >= t);
}

#[test]
fn timestamp_from_reading() {
    assert_eq!(timestamp_from(Some(1_700_000_000_000_000_000)), 1_700_000_000_000_000_000);
    assert_eq!(timestamp_from(None), 0);
}
