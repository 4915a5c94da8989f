//! The landmark hash: a fixed-width code for the acoustic relationship
//! between an anchor peak and a later target peak.
//!
//! The triple (anchor frequency, target frequency, time delta), each
//! truncated to an integer, is folded into a single 64-bit word with the
//! FNV-1a mixing function. The hash is a pure function of the two peaks and
//! the analysis configuration, with no shared state.
use vstd::arithmetic::div_mod::{
    lemma_div_is_ordered, lemma_div_multiples_vanish, lemma_div_nonincreasing,
};
use vstd::arithmetic::mul::{lemma_mul_inequality, lemma_mul_upper_bound};
use vstd::prelude::*;

use crate::fingerprint::Peak;

verus! {

/// Offset basis of the 64-bit FNV-1a hash.
pub const FNV_OFFSET_BASIS: u64 = 0xcbf2_9ce4_8422_2325;

/// Prime of the 64-bit FNV-1a hash.
pub const FNV_PRIME: u64 = 0x100_0000_01b3;

/// One FNV-1a absorption step: fold a 64-bit word into the hash state.
pub open spec fn fnv_step(h: u64, v: u64) -> u64 {
    ((((h ^ v) as nat) * (FNV_PRIME as nat)) % 0x1_0000_0000_0000_0000nat) as u64
}

/// The landmark hash of a triple of integer components: anchor frequency,
/// target frequency, time delta.
pub open spec fn landmark_hash_spec(anchor_freq: u64, target_freq: u64, time_delta: u64) -> u64 {
    fnv_step(fnv_step(fnv_step(FNV_OFFSET_BASIS, anchor_freq), target_freq), time_delta)
}

/// Frequency in Hz of a frequency bin, truncated to an integer:
/// `bin * sample_rate / (2 * window_size)`.
pub open spec fn freq_hz_of(bin: int, sample_rate: int, window_size: int) -> int {
    (bin * sample_rate) / (2 * window_size)
}

/// Seconds spanned by `frame_delta` hops, truncated to an integer:
/// `frame_delta * hop_size / sample_rate`.
pub open spec fn time_delta_of(frame_delta: int, hop_size: int, sample_rate: int) -> int {
    (frame_delta * hop_size) / sample_rate
}

/// A non-negative integer as a 64-bit word; out-of-range values (which the
/// callers below rule out) collapse to zero.
pub open spec fn clip_u64(x: int) -> u64 {
    if 0 <= x <= u64::MAX {
        x as u64
    } else {
        0
    }
}

/// The landmark hash of an (anchor, target) peak pair under the given
/// analysis configuration.
pub open spec fn pair_hash(
    anchor: Peak,
    target: Peak,
    sample_rate: int,
    window_size: int,
    hop_size: int,
) -> u64 {
    landmark_hash_spec(
        clip_u64(freq_hz_of(anchor.bin as int, sample_rate, window_size)),
        clip_u64(freq_hz_of(target.bin as int, sample_rate, window_size)),
        clip_u64(time_delta_of(target.frame - anchor.frame, hop_size, sample_rate)),
    )
}

/// One FNV-1a step over the 64-bit state.
fn fnv_absorb(h: u64, v: u64) -> (r: u64)
    ensures
        r == fnv_step(h, v),
{
    (h ^ v).wrapping_mul(FNV_PRIME)
}

/// The landmark hash of a component triple.
pub fn landmark_hash(anchor_freq: u64, target_freq: u64, time_delta: u64) -> (r: u64)
    ensures
        r == landmark_hash_spec(anchor_freq, target_freq, time_delta),
{
    let h: u64 = fnv_absorb(FNV_OFFSET_BASIS, anchor_freq);
    let h: u64 = fnv_absorb(h, target_freq);
    fnv_absorb(h, time_delta)
}

/// Truncated frequency in Hz of a frequency bin.
pub fn freq_hz(bin: usize, sample_rate: u32, window_size: usize) -> (r: u64)
    requires
        1 <= window_size,
        bin < window_size,
    ensures
        r == freq_hz_of(bin as int, sample_rate as int, window_size as int),
        r <= sample_rate,
{
    proof {
        lemma_mul_upper_bound(bin as int, u64::MAX as int, sample_rate as int, u32::MAX as int);
    }
    let num: u128 = (bin as u128) * (sample_rate as u128);
    let den: u128 = 2 * (window_size as u128);
    let q: u128 = num / den;
    proof {
        lemma_mul_inequality(bin as int, 2 * window_size as int, sample_rate as int);
        lemma_div_is_ordered(
            bin as int * sample_rate as int,
            (2 * window_size as int) * sample_rate as int,
            2 * window_size as int,
        );
        lemma_div_multiples_vanish(sample_rate as int, 2 * window_size as int);
    }
    q as u64
}

/// Truncated time in seconds spanned by `frame_delta` hops.
pub fn time_delta_secs(frame_delta: usize, hop_size: usize, sample_rate: u32) -> (r: u64)
    requires
        1 <= sample_rate,
        frame_delta * hop_size <= usize::MAX,
    ensures
        r == time_delta_of(frame_delta as int, hop_size as int, sample_rate as int),
        r <= frame_delta * hop_size,
{
    let num: u128 = (frame_delta as u128) * (hop_size as u128);
    let q: u128 = num / (sample_rate as u128);
    proof {
        lemma_div_nonincreasing(num as int, sample_rate as int);
    }
    q as u64
}

/// The landmark hash of an (anchor, target) peak pair.
pub fn compute_pair_hash(
    anchor: Peak,
    target: Peak,
    sample_rate: u32,
    window_size: usize,
    hop_size: usize,
) -> (r: u64)
    requires
        1 <= window_size,
        1 <= sample_rate,
        anchor.bin < window_size,
        target.bin < window_size,
        anchor.frame <= target.frame,
        target.frame * hop_size <= usize::MAX,
    ensures
        r == pair_hash(
            anchor,
            target,
            sample_rate as int,
            window_size as int,
            hop_size as int,
        ),
{
    let fa: u64 = freq_hz(anchor.bin, sample_rate, window_size);
    let ft: u64 = freq_hz(target.bin, sample_rate, window_size);
    let frame_delta: usize = target.frame - anchor.frame;
    proof {
        lemma_mul_inequality(frame_delta as int, target.frame as int, hop_size as int);
    }
    let dt: u64 = time_delta_secs(frame_delta, hop_size, sample_rate);
    landmark_hash(fa, ft, dt)
}

} // verus!
