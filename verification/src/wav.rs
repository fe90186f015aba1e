//! Integer side of WAV decoding: the full-scale value by which integer PCM
//! samples are normalised to `[-1, 1]`.
use vstd::prelude::*;

verus! {

/// `2^e`.
pub open spec fn two_pow(e: nat) -> int
    decreases e,
{
    if e == 0 {
        1
    } else {
        2 * two_pow((e - 1) as nat)
    }
}

/// WAV reader that normalises samples to mono.
pub struct WavReader;

impl WavReader {
    /// Full-scale magnitude of signed integer samples of `bits_per_sample`
    /// bits, `2^(bits - 1)` as a 64-bit signed integer (which wraps to
    /// `i64::MIN` for 64-bit samples).
    pub fn int_full_scale(bits_per_sample: u16) -> (v: i64)
        requires
            1 <= bits_per_sample <= 64,
        ensures
            bits_per_sample < 64 ==> v as int == two_pow((bits_per_sample - 1) as nat),
            bits_per_sample == 64 ==> v == i64::MIN,
    {
        if bits_per_sample == 64 {
            return i64::MIN;
        }
        let mut v: i64 = 1;
        let mut k: u16 = 1;
        while k < bits_per_sample
            invariant
                1 <= k <= bits_per_sample < 64,
                v as int == two_pow((k - 1) as nat),
            decreases bits_per_sample - k,
        {
            proof {
                lemma_two_pow_bound((k - 1) as nat);
                assert(two_pow(k as nat) == 2 * two_pow((k - 1) as nat));
                lemma_two_pow_bound(k as nat);
            }
            v = v * 2;
            k = k + 1;
        }
        v
    }
}

proof fn lemma_two_pow_positive(e: nat)
    ensures
        two_pow(e) >= 1,
    decreases e,
{
    if e > 0 {
        lemma_two_pow_positive((e - 1) as nat);
    }
}

proof fn lemma_two_pow_bound(e: nat)
    requires
        e <= 62,
    ensures
        1 <= two_pow(e) <= 0x4000_0000_0000_0000,
    decreases 62 - e,
{
    lemma_two_pow_positive(e);
    if e < 62 {
        lemma_two_pow_bound(e + 1);
        assert(two_pow(e + 1) == 2 * two_pow(e));
    } else {
        reveal_with_fuel(two_pow, 63);
    }
}

} // verus!
