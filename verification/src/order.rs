//! Integer order keys for spectral values, and selection of the maximum.
//!
//! The numeric order of IEEE-754 single-precision values that are not NaN is
//! the order of the signed magnitude read from their bit patterns (sign bit,
//! then the 31 bits of exponent and fraction as an unsigned magnitude). The
//! processing stages of this library compare spectral values through
//! [`order_key`], which maps that signed magnitude to an unsigned integer
//! with the same order (`+0.0` and `-0.0` get the same key) and maps NaN to
//! `None`. Comparisons of keys ([`key_lt`], [`key_le`]) are false whenever a
//! side is `None`, as every comparison with NaN is.
use vstd::prelude::*;

verus! {

/// The unsigned magnitude (exponent and fraction bits) of a bit pattern.
pub open spec fn magnitude(bits: u32) -> int {
    if bits >= 0x8000_0000 {
        bits - 0x8000_0000
    } else {
        bits as int
    }
}

/// The bit pattern is a NaN: all exponent bits set and a nonzero fraction.
pub open spec fn is_nan_bits(bits: u32) -> bool {
    magnitude(bits) > 0x7f80_0000
}

/// The signed magnitude encoded by a sign-magnitude bit pattern.
pub open spec fn sign_magnitude(bits: u32) -> int {
    if bits >= 0x8000_0000 {
        -(bits - 0x8000_0000)
    } else {
        bits as int
    }
}

/// Map a sign-magnitude bit pattern to an unsigned key in the same order:
/// the key is the signed magnitude shifted up by 2^31; NaN has no key.
pub fn order_key(bits: u32) -> (key: Option<u32>)
    ensures
        key is None <==> is_nan_bits(bits),
        key matches Some(k) ==> k as int == sign_magnitude(bits) + 0x8000_0000,
{
    if bits >= 0x8000_0000 {
        if bits - 0x8000_0000 > 0x7f80_0000 {
            None
        } else {
            Some(0x8000_0000 - (bits - 0x8000_0000))
        }
    } else if bits > 0x7f80_0000 {
        None
    } else {
        Some(0x8000_0000 + bits)
    }
}

/// `a < b` on keys: false when either side is NaN.
pub open spec fn key_lt(a: Option<u32>, b: Option<u32>) -> bool {
    a is Some && b is Some && a->0 < b->0
}

/// `a <= b` on keys: false when either side is NaN.
pub open spec fn key_le(a: Option<u32>, b: Option<u32>) -> bool {
    a is Some && b is Some && a->0 <= b->0
}

/// `a < b` on keys: false when either side is NaN.
pub fn less(a: Option<u32>, b: Option<u32>) -> (r: bool)
    ensures
        r == key_lt(a, b),
{
    match (a, b) {
        (Some(x), Some(y)) => x < y,
        _ => false,
    }
}

/// `a <= b` on keys: false when either side is NaN.
pub fn less_eq(a: Option<u32>, b: Option<u32>) -> (r: bool)
    ensures
        r == key_le(a, b),
{
    match (a, b) {
        (Some(x), Some(y)) => x <= y,
        _ => false,
    }
}

/// Two bit patterns that are not NaN compare through their keys as their
/// signed magnitudes do.
pub proof fn lemma_order_key_monotone(a: u32, b: u32, ka: u32, kb: u32)
    requires
        ka as int == sign_magnitude(a) + 0x8000_0000,
        kb as int == sign_magnitude(b) + 0x8000_0000,
    ensures
        (ka <= kb) <==> (sign_magnitude(a) <= sign_magnitude(b)),
        (ka == kb) <==> (sign_magnitude(a) == sign_magnitude(b)),
{
}

/// `i` is the last position holding the largest key of `keys`.
pub open spec fn is_last_max(keys: Seq<u32>, i: int) -> bool {
    &&& 0 <= i < keys.len()
    &&& forall|j: int| 0 <= j < keys.len() ==> #[trigger] keys[j] <= keys[i]
    &&& forall|j: int| i < j < keys.len() ==> #[trigger] keys[j] < keys[i]
}

/// Index of the largest key; among equal largest keys the last one wins,
/// and an empty input gives 0.
pub fn argmax(keys: &[u32]) -> (idx: usize)
    ensures
        keys@.len() == 0 ==> idx == 0,
        keys@.len() > 0 ==> is_last_max(keys@, idx as int),
{
    if keys.len() == 0 {
        return 0;
    }
    let mut best: usize = 0;
    let mut j: usize = 1;
    while j < keys.len()
        invariant
            1 <= j <= keys@.len(),
            best < j,
            forall|k: int| 0 <= k < j ==> #[trigger] keys@[k] <= keys@[best as int],
            forall|k: int| best < k < j ==> #[trigger] keys@[k] < keys@[best as int],
        decreases keys@.len() - j,
    {
        if keys[j] >= keys[best] {
            best = j;
        }
        j = j + 1;
    }
    best
}

} // verus!
