//! Classifier bookkeeping: class labels, the model input shape check, and
//! the decision drawn from the class probabilities.
use crate::order::{argmax, is_last_max, key_le, less_eq};
use vstd::prelude::*;

verus! {

/// Index of the submarine class.
pub const SUBMARINE_CLASS: usize = 4;

/// Order key of the value `0.0`, the confidence reported when there are no
/// class probabilities.
pub const ZERO_KEY: u32 = 0x8000_0000;

/// Errors of the acoustic classifier.
#[derive(Debug, Clone)]
pub enum ClassifierError {
    ModelNotFound(String),
    InferenceError(String),
    InvalidInputShape,
}

/// The vessel / target classes, in model output order.
pub open spec fn class_name_views() -> Seq<Seq<char>> {
    seq!["Cargo"@, "Tanker"@, "Tug"@, "Passengership"@, "Submarine"@, "Biological"@, "Unknown"@]
}

/// The names of the vessel / target classes, in model output order.
pub fn class_names() -> (names: Vec<String>)
    ensures
        names@.map_values(|s: String| s@) == class_name_views(),
{
    let names = vec![
        "Cargo".to_owned(),
        "Tanker".to_owned(),
        "Tug".to_owned(),
        "Passengership".to_owned(),
        "Submarine".to_owned(),
        "Biological".to_owned(),
        "Unknown".to_owned(),
    ];
    assert(names@.map_values(|s: String| s@) =~= class_name_views());
    names
}

/// The label of class `class_index`, or `"Unknown"` past the end of `classes`.
pub open spec fn label_of(classes: Seq<String>, class_index: int) -> Seq<char> {
    if class_index < classes.len() {
        classes[class_index]@
    } else {
        "Unknown"@
    }
}

/// The label of class `class_index`, or `"Unknown"` past the end of `classes`.
pub fn class_label(classes: &[String], class_index: usize) -> (label: String)
    ensures
        label@ == label_of(classes@, class_index as int),
{
    if class_index < classes.len() {
        classes[class_index].clone()
    } else {
        "Unknown".to_owned()
    }
}

/// Number of features the model reads (`n_frames * n_mels`); the input is
/// rejected when it holds fewer features.
pub fn model_input_len(features_len: usize, n_frames: usize, n_mels: usize) -> (r: Result<usize, ClassifierError>)
    requires
        n_frames * n_mels <= usize::MAX,
    ensures
        r is Ok <==> features_len >= n_frames * n_mels,
        r matches Ok(n) ==> n == n_frames * n_mels,
        r matches Err(e) ==> e is InvalidInputShape,
{
    let expected = n_frames * n_mels;
    if features_len < expected {
        return Err(ClassifierError::InvalidInputShape);
    }
    Ok(expected)
}

/// What the classifier concludes from the class probabilities.
#[derive(Debug, Clone)]
pub struct ClassificationDecision {
    pub label: String,
    pub class_index: usize,
    /// Order key of the confidence (the winning probability); `None` for NaN.
    pub confidence_key: Option<u32>,
    pub is_submarine_alert: bool,
    pub above_threshold: bool,
}

/// `a >= b` on keys: false when either side is NaN.
pub open spec fn key_ge(a: Option<u32>, b: Option<u32>) -> bool {
    key_le(b, a)
}

/// The keys of probabilities none of which is NaN, as plain keys.
pub open spec fn plain_keys(keys: Seq<Option<u32>>) -> Seq<u32> {
    keys.map_values(|k: Option<u32>| k->0)
}

/// Decide from the order keys of the class probabilities (`None` for NaN).
/// The winning class is the last most probable one; with one probability it
/// is class 0, and with none it is class 0 with confidence `0.0`. More than
/// one probability must hold no NaN (comparing a NaN probability is an error).
/// The result is above threshold when the confidence compares at or above the
/// confidence threshold, and raises the submarine alert when the winner is the
/// submarine class and the confidence compares at or above the alert threshold
/// (no comparison with NaN holds).
pub fn decide(
    prob_keys: &[Option<u32>],
    classes: &[String],
    confidence_threshold: Option<u32>,
    alert_threshold: Option<u32>,
) -> (d: ClassificationDecision)
    requires
        prob_keys@.len() <= 1 || forall|i: int| 0 <= i < prob_keys@.len() ==> (#[trigger] prob_keys@[i]) is Some,
    ensures
        prob_keys@.len() == 0 ==> d.class_index == 0 && d.confidence_key == Some(ZERO_KEY),
        prob_keys@.len() == 1 ==> d.class_index == 0 && d.confidence_key == prob_keys@[0],
        prob_keys@.len() > 1 ==> is_last_max(plain_keys(prob_keys@), d.class_index as int)
            && d.confidence_key == prob_keys@[d.class_index as int],
        d.label@ == label_of(classes@, d.class_index as int),
        d.above_threshold == key_ge(d.confidence_key, confidence_threshold),
        d.is_submarine_alert == (d.class_index == SUBMARINE_CLASS && key_ge(d.confidence_key, alert_threshold)),
{
    let n = prob_keys.len();
    let class_index: usize = if n <= 1 {
        0
    } else {
        let mut plain: Vec<u32> = Vec::new();
        let mut i: usize = 0;
        while i < n
            invariant
                n == prob_keys@.len(),
                n > 1,
                i <= n,
                forall|j: int| 0 <= j < n ==> (#[trigger] prob_keys@[j]) is Some,
                plain@ == plain_keys(prob_keys@.take(i as int)),
            decreases n - i,
        {
            let k = match prob_keys[i] {
                Some(k) => k,
                None => 0,
            };
            plain.push(k);
            proof {
                assert(plain_keys(prob_keys@.take(i + 1)) =~= plain_keys(prob_keys@.take(i as int)).push(k));
            }
            i = i + 1;
        }
        proof {
            assert(prob_keys@.take(n as int) =~= prob_keys@);
        }
        argmax(plain.as_slice())
    };
    let confidence_key = if n > 0 { prob_keys[class_index] } else { Some(ZERO_KEY) };
    let label = class_label(classes, class_index);
    let above_threshold = less_eq(confidence_threshold, confidence_key);
    let is_submarine_alert = class_index == SUBMARINE_CLASS && less_eq(alert_threshold, confidence_key);
    ClassificationDecision { label, class_index, confidence_key, is_submarine_alert, above_threshold }
}

} // verus!
