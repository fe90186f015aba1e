use varuna::classifier::{class_label, class_names, decide, model_input_len, ClassifierError};
use varuna::order::order_key;

fn keys(p: &[f32]) -> Vec<Option<u32>> {
    p.iter().map(|x| order_key(x.to_bits())).collect()
}

#[test]
fn class_names_in_model_order() {
    let names = class_names();
    assert_eq!(names.len(), 7);
    assert_eq!(names, vec!["Cargo", "Tanker", "Tug", "Passengership", "Submarine", "Biological", "Unknown"]);
}

#[test]
fn label_falls_back_to_unknown() {
    let names = class_names();
    assert_eq!(class_label(&names, 2), "Tug");
    assert_eq!(class_label(&names, 7), "Unknown");
    assert_eq!(class_label(&[], 0), "Unknown");
}

#[test]
fn input_shape_check() {
    assert_eq!(model_input_len(120 * 128, 120, 128).unwrap(), 15360);
    assert!(matches!(model_input_len(100, 120, 128), Err(ClassifierError::InvalidInputShape)));
}

#[test]
fn decision_raises_submarine_alert() {
    let names = class_names();
    let probs = [0.02f32, 0.02, 0.02, 0.02, 0.9, 0.01, 0.01];
    let d = decide(&keys(&probs), &names, order_key(0.6f32.to_bits()), order_key(0.8f32.to_bits()));
    assert_eq!(d.class_index, 4);
    assert_eq!(d.label, "Submarine");
    assert!(d.is_submarine_alert);
    assert!(d.above_threshold);
}

#[test]
fn decision_below_thresholds() {
    let names = class_names();
    let probs = [0.3f32, 0.1, 0.1, 0.1, 0.2, 0.1, 0.1];
    let d = decide(&keys(&probs), &names, order_key(0.6f32.to_bits()), order_key(0.8f32.to_bits()));
    assert_eq!(d.class_index, 0);
    assert_eq!(d.label, "Cargo");
    assert!(!d.is_submarine_alert);
    assert!(!d.above_threshold);
    let sub = [0.1f32, 0.1, 0.1, 0.1, 0.7, 0.0, 0.0];
    let d = decide(&keys(&sub), &names, order_key(0.6f32.to_bits()), order_key(0.8f32.to_bits()));
    assert_eq!(d.class_index, 4);
    assert!(d.above_threshold);
    assert!(!d.is_submarine_alert);
}

#[test]
fn decision_on_no_probabilities() {
    let d = decide(&[], &class_names(), order_key(0.6f32.to_bits()), order_key(0.8f32.to_bits()));
    assert_eq!(d.class_index, 0);
    assert_eq!(d.confidence_key, order_key(0.0f32.to_bits()));
    assert!(!d.above_threshold);
}

#[test]
fn test_class_names_count() {
    let names = class_names();
    assert_eq!(names.len(), 7);
}

#[test]
fn nan_thresholds_and_single_probability() {
    let names = class_names();
    let nan = order_key(f32::NAN.to_bits());
    let probs = [0.02f32, 0.02, 0.02, 0.02, 0.9, 0.01, 0.01];
    let d = decide(&keys(&probs), &names, nan, nan);
    assert_eq!(d.class_index, 4);
    assert!(!d.above_threshold);
    assert!(!d.is_submarine_alert);
    let d = decide(&[nan], &names, order_key(0.6f32.to_bits()), order_key(0.8f32.to_bits()));
    assert_eq!(d.class_index, 0);
    assert_eq!(d.confidence_key, None);
    assert!(!d.above_threshold);
}
