use varuna::order::{argmax, less, less_eq, order_key};

fn key(x: f32) -> u32 {
    order_key(x.to_bits()).unwrap()
}

#[test]
fn order_key_follows_float_order() {
    let values = [f32::NEG_INFINITY, -1.0e30, -60.0, -1.5, -1.0e-30, 0.0, 1.0e-30, 0.5, 3.0, 1.0e30, f32::INFINITY];
    for w in values.windows(2) {
        assert!(key(w[0]) < key(w[1]), "{} vs {}", w[0], w[1]);
    }
}

#[test]
fn order_key_signed_zeros_agree() {
    assert_eq!(key(0.0), key(-0.0));
    assert_eq!(key(0.0), 0x8000_0000);
    assert_eq!(order_key(0x3f80_0000), Some(0x8000_0000 + 0x3f80_0000));
    assert_eq!(order_key(0xbf80_0000), Some(0x8000_0000 - 0x3f80_0000));
}

#[test]
fn test_argmax_correct() {
    let probs = vec![0.1f32, 0.6, 0.2, 0.1];
    let keys: Vec<u32> = probs.iter().map(|&p| key(p)).collect();
    let idx = argmax(&keys);
    let val = probs[idx];
    assert_eq!(idx, 1);
    assert!((val - 0.6).abs() < 1e-6);
}

#[test]
fn argmax_picks_last_of_equal_maxima() {
    assert_eq!(argmax(&[3, 7, 1, 7, 2]), 3);
    assert_eq!(argmax(&[5]), 0);
}

#[test]
fn argmax_of_empty_is_zero() {
    assert_eq!(argmax(&[]), 0);
}

#[test]
fn nan_has_no_key() {
    assert_eq!(order_key(f32::NAN.to_bits()), None);
    assert_eq!(order_key((-f32::NAN).to_bits()), None);
    assert_eq!(order_key(0x7f80_0001), None);
    assert_eq!(order_key(0xffc0_0000), None);
    assert!(order_key(f32::INFINITY.to_bits()).is_some());
    assert!(order_key(f32::NEG_INFINITY.to_bits()).is_some());
}

#[test]
fn key_comparisons_with_nan_are_false() {
    assert!(less(Some(1), Some(2)));
    assert!(less_eq(Some(2), Some(2)));
    assert!(!less(None, Some(2)) && !less(Some(1), None) && !less(None, None));
    assert!(!less_eq(None, Some(2)) && !less_eq(Some(1), None));
}
