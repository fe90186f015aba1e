use varuna::clock::{chrono_now, timestamp_from_millis};

#[test]
fn timestamp_conversion() {
    assert_eq!(timestamp_from_millis(None), 0);
    assert_eq!(timestamp_from_millis(Some(1_700_000_000_123)), 1_700_000_000_123);
    assert_eq!(timestamp_from_millis(Some((1u128 << 64) + 5)), 5);
}

#[test]
fn chrono_now_is_after_2020() {
    assert!(chrono_now() > 1_577_836_800_000);
}
