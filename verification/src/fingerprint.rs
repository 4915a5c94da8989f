//! The fingerprint data model: landmark peaks and their derived hashes.
use vstd::prelude::*;

verus! {

/// A local energy maximum of the spectrogram, kept in grid coordinates:
/// `bin` is the frequency-bin index within its frame, `frame` the index of
/// the analysis window it was found in. The physical coordinates follow from
/// the analysis configuration: frequency in Hz is
/// `bin * sample_rate / (2 * window_size)` and time in seconds is
/// `frame * hop_size / sample_rate`.
#[derive(Clone, Copy, PartialEq, Eq, Structural, Debug)]
pub struct Peak {
    /// Frequency-bin index, ascending with frequency.
    pub bin: usize,
    /// Frame index, ascending with time.
    pub frame: usize,
}

/// An acoustic fingerprint: the peak sequence in scan order (time-major,
/// frequency-minor) together with the landmark hashes derived from it.
/// Immutable once produced.
pub struct AudioFingerprint {
    /// Peaks in scan order; hash generation pairs peaks by sequence adjacency.
    pub peaks: Vec<Peak>,
    /// Landmark hashes, one per (anchor, target) pair; the matcher treats
    /// this sequence as an unordered multiset.
    pub hash: Vec<u64>,
}

} // verus!
