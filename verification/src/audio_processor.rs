//! Spectral landmark extraction and hash generation.
use vstd::prelude::*;

use crate::fingerprint::{AudioFingerprint, Peak};
use crate::hashing::{compute_pair_hash, pair_hash};
use vstd::arithmetic::div_mod::lemma_div_nonincreasing;
use vstd::arithmetic::mul::lemma_mul_inequality;

verus! {

/// Errors surfaced by the processing pipeline.
#[derive(Clone, Copy, PartialEq, Eq, Structural, Debug)]
pub enum FingerprintError {
    /// The analysis configuration is malformed: a window or hop of zero, a
    /// hop larger than the window, or a sample rate of zero.
    InvalidConfiguration,
}

/// Fixed-point scale of spectrogram magnitude values: a magnitude of 1.0 in
/// the normalized spectrum is stored as this many units.
pub const MAGNITUDE_SCALE: u32 = 10_000;

/// Minimum scaled magnitude a spectrogram point must reach to qualify as a
/// peak: 0.1 in normalized units.
pub const AMPLITUDE_THRESHOLD: u32 = 1_000;

/// Border width, in frames and in bins, excluded from the peak scan on every
/// side of the spectrogram to avoid boundary effects.
pub const SCAN_BORDER: usize = 10;

/// Half-width of the centered neighborhood a peak must strictly dominate,
/// in frames and in bins. Smaller than `SCAN_BORDER`, so every neighborhood
/// lookup of the scan stays within the spectrogram.
pub const NEIGHBORHOOD_RADIUS: usize = 3;

/// The spectrogram as a mathematical grid: one row of scaled magnitudes per
/// analysis frame.
pub open spec fn grid(s: &Vec<Vec<u32>>) -> Seq<Seq<u32>> {
    Seq::new(s@.len(), |t: int| s@[t]@)
}

/// Bin count of a spectrogram: the length of its first row.
pub open spec fn bins_of(g: Seq<Seq<u32>>) -> int {
    if g.len() > 0 {
        g[0].len() as int
    } else {
        0
    }
}

/// Frame length is constant across the spectrogram.
pub open spec fn rectangular(g: Seq<Seq<u32>>) -> bool {
    forall|t: int| 0 <= t < g.len() ==> (#[trigger] g[t]).len() == bins_of(g)
}

/// The point (frame `t`, bin `f`) is a landmark peak: its magnitude reaches
/// the amplitude threshold and strictly exceeds every other magnitude within
/// the centered neighborhood of half-width `NEIGHBORHOOD_RADIUS`.
pub open spec fn is_peak_at(g: Seq<Seq<u32>>, t: int, f: int) -> bool {
    &&& g[t][f] >= AMPLITUDE_THRESHOLD
    &&& forall|u: int, v: int|
        t - 3 <= u <= t + 3 && f - 3 <= v <= f + 3 && !(u == t && v == f) ==> #[trigger] g[u][v]
            < g[t][f]
}

/// Peaks found in row `t` at bin indices below `f`, in ascending bin order;
/// the scan starts at bin `SCAN_BORDER`.
pub open spec fn row_peaks_upto(g: Seq<Seq<u32>>, t: int, f: int) -> Seq<Peak>
    decreases f,
{
    if f <= 10 {
        Seq::empty()
    } else {
        row_peaks_upto(g, t, f - 1) + if is_peak_at(g, t, f - 1) {
            seq![Peak { bin: (f - 1) as usize, frame: t as usize }]
        } else {
            Seq::empty()
        }
    }
}

/// Peaks of all rows below `t`, each row fully scanned over bins
/// `[SCAN_BORDER, bins - SCAN_BORDER)`, in time-major scan order; the scan
/// starts at row `SCAN_BORDER`.
pub open spec fn peaks_upto(g: Seq<Seq<u32>>, bins: int, t: int) -> Seq<Peak>
    decreases t,
{
    if t <= 10 {
        Seq::empty()
    } else {
        peaks_upto(g, bins, t - 1) + row_peaks_upto(g, t - 1, bins - 10)
    }
}

/// All peaks of the spectrogram, in scan order (time-major, frequency-minor
/// ascending): rows `[SCAN_BORDER, len - SCAN_BORDER)`, bins
/// `[SCAN_BORDER, bins - SCAN_BORDER)`. Empty when the spectrogram is too
/// small to hold any scan range.
pub open spec fn peaks_spec(g: Seq<Seq<u32>>, bins: int) -> Seq<Peak> {
    peaks_upto(g, bins, g.len() - 10)
}

/// Maximum number of target peaks paired with one anchor peak.
pub const FAN_OUT: usize = 5;

/// Number of analysis windows a sample sequence yields:
/// `floor((samples_len - window_size) / hop_size) + 1` when at least one
/// whole window fits, else zero.
pub open spec fn spec_num_frames(samples_len: int, window_size: int, hop_size: int) -> int {
    if samples_len < window_size {
        0
    } else {
        (samples_len - window_size) / hop_size + 1
    }
}

/// A peak of one scanned row: found in that row, within the scanned bin
/// range, and a landmark peak of the grid.
pub open spec fn row_peak_ok(g: Seq<Seq<u32>>, t: int, f: int, p: Peak) -> bool {
    &&& p.frame == t
    &&& 10 <= p.bin
    &&& (p.bin as int) < f
    &&& is_peak_at(g, t, p.bin as int)
}

/// A peak of the whole scan below row `t`: inside the scanned region on both
/// axes, and a landmark peak of the grid.
pub open spec fn scan_peak_ok(g: Seq<Seq<u32>>, bins: int, t: int, p: Peak) -> bool {
    &&& 10 <= p.frame
    &&& (p.frame as int) < t
    &&& 10 <= p.bin
    &&& (p.bin as int) < bins - 10
    &&& is_peak_at(g, p.frame as int, p.bin as int)
}

proof fn lemma_row_peaks_wf(g: Seq<Seq<u32>>, t: int, f: int)
    requires
        0 <= t <= usize::MAX,
        f <= usize::MAX + 1,
    ensures
        forall|k: int|
            0 <= k < row_peaks_upto(g, t, f).len() ==> row_peak_ok(
                g,
                t,
                f,
                #[trigger] row_peaks_upto(g, t, f)[k],
            ),
    decreases f,
{
    if f > 10 {
        lemma_row_peaks_wf(g, t, f - 1);
        let a = row_peaks_upto(g, t, f - 1);
        assert forall|k: int| 0 <= k < row_peaks_upto(g, t, f).len() implies row_peak_ok(
            g,
            t,
            f,
            #[trigger] row_peaks_upto(g, t, f)[k],
        ) by {
            if k < a.len() {
                assert(row_peaks_upto(g, t, f)[k] == a[k]);
                assert(row_peak_ok(g, t, f - 1, a[k]));
            } else {
                assert(is_peak_at(g, t, f - 1));
                let b = seq![Peak { bin: (f - 1) as usize, frame: t as usize }];
                assert(row_peaks_upto(g, t, f)[k] == b[k - a.len()]);
                assert(row_peaks_upto(g, t, f)[k] == b[0]);
            }
        }
    }
}

proof fn lemma_peaks_upto_wf(g: Seq<Seq<u32>>, bins: int, t: int)
    requires
        t <= usize::MAX + 1,
        bins <= usize::MAX + 10,
    ensures
        forall|k: int|
            0 <= k < peaks_upto(g, bins, t).len() ==> scan_peak_ok(
                g,
                bins,
                t,
                #[trigger] peaks_upto(g, bins, t)[k],
            ),
        forall|k1: int, k2: int|
            0 <= k1 <= k2 < peaks_upto(g, bins, t).len() ==> (#[trigger] peaks_upto(
                g,
                bins,
                t,
            )[k1]).frame <= (#[trigger] peaks_upto(g, bins, t)[k2]).frame,
    decreases t,
{
    if t > 10 {
        lemma_peaks_upto_wf(g, bins, t - 1);
        lemma_row_peaks_wf(g, t - 1, bins - 10);
        let a = peaks_upto(g, bins, t - 1);
        let b = row_peaks_upto(g, t - 1, bins - 10);
        assert forall|k: int| 0 <= k < peaks_upto(g, bins, t).len() implies scan_peak_ok(
            g,
            bins,
            t,
            #[trigger] peaks_upto(g, bins, t)[k],
        ) by {
            if k < a.len() {
                assert(peaks_upto(g, bins, t)[k] == a[k]);
                assert(scan_peak_ok(g, bins, t - 1, a[k]));
            } else {
                assert(peaks_upto(g, bins, t)[k] == b[k - a.len()]);
                assert(row_peak_ok(g, t - 1, bins - 10, b[k - a.len()]));
            }
        }
        assert forall|k1: int, k2: int|
            0 <= k1 <= k2 < peaks_upto(g, bins, t).len() implies (#[trigger] peaks_upto(
            g,
            bins,
            t,
        )[k1]).frame <= (#[trigger] peaks_upto(g, bins, t)[k2]).frame by {
            if k2 < a.len() {
                assert(peaks_upto(g, bins, t)[k1] == a[k1]);
                assert(peaks_upto(g, bins, t)[k2] == a[k2]);
            } else if k1 < a.len() {
                assert(peaks_upto(g, bins, t)[k1] == a[k1]);
                assert(scan_peak_ok(g, bins, t - 1, a[k1]));
                assert(peaks_upto(g, bins, t)[k2] == b[k2 - a.len()]);
                assert(row_peak_ok(g, t - 1, bins - 10, b[k2 - a.len()]));
            } else {
                assert(peaks_upto(g, bins, t)[k1] == b[k1 - a.len()]);
                assert(row_peak_ok(g, t - 1, bins - 10, b[k1 - a.len()]));
                assert(peaks_upto(g, bins, t)[k2] == b[k2 - a.len()]);
                assert(row_peak_ok(g, t - 1, bins - 10, b[k2 - a.len()]));
            }
        }
    }
}

/// Every peak of the scan is at or above the amplitude threshold and
/// strictly greater than every other magnitude in its centered neighborhood
/// of half-width `NEIGHBORHOOD_RADIUS` on both axes.
pub proof fn lemma_peaks_are_local_maxima(g: Seq<Seq<u32>>, bins: int)
    requires
        g.len() <= usize::MAX,
        bins <= usize::MAX,
    ensures
        forall|k: int|
            0 <= k < peaks_spec(g, bins).len() ==> is_peak_at(
                g,
                (#[trigger] peaks_spec(g, bins)[k]).frame as int,
                peaks_spec(g, bins)[k].bin as int,
            ),
{
    lemma_peaks_upto_wf(g, bins, g.len() - 10);
}

proof fn lemma_row_scan_complete(g: Seq<Seq<u32>>, t: int, f_p: int, f: int)
    requires
        0 <= t <= usize::MAX,
        10 <= f_p < f <= usize::MAX + 1,
        is_peak_at(g, t, f_p),
    ensures
        row_peaks_upto(g, t, f).contains(Peak { bin: f_p as usize, frame: t as usize }),
    decreases f,
{
    let p = Peak { bin: f_p as usize, frame: t as usize };
    if f == f_p + 1 {
        let a = row_peaks_upto(g, t, f - 1);
        assert(row_peaks_upto(g, t, f)[a.len() as int] == p);
    } else {
        lemma_row_scan_complete(g, t, f_p, f - 1);
        let a = row_peaks_upto(g, t, f - 1);
        let k = choose|k: int| 0 <= k < a.len() && a[k] == p;
        assert(row_peaks_upto(g, t, f)[k] == p);
    }
}

proof fn lemma_scan_complete(g: Seq<Seq<u32>>, bins: int, t_p: int, f_p: int, t: int)
    requires
        10 <= t_p < t <= usize::MAX + 1,
        10 <= f_p < bins - 10,
        bins <= usize::MAX + 10,
        is_peak_at(g, t_p, f_p),
    ensures
        peaks_upto(g, bins, t).contains(Peak { bin: f_p as usize, frame: t_p as usize }),
    decreases t,
{
    let p = Peak { bin: f_p as usize, frame: t_p as usize };
    let a = peaks_upto(g, bins, t - 1);
    if t == t_p + 1 {
        lemma_row_scan_complete(g, t_p, f_p, bins - 10);
        let b = row_peaks_upto(g, t_p, bins - 10);
        let k = choose|k: int| 0 <= k < b.len() && b[k] == p;
        assert(peaks_upto(g, bins, t)[a.len() + k] == p);
    } else {
        lemma_scan_complete(g, bins, t_p, f_p, t - 1);
        let k = choose|k: int| 0 <= k < a.len() && a[k] == p;
        assert(peaks_upto(g, bins, t)[k] == p);
    }
}

/// The scan is complete: every point of the scanned region — frames and bins
/// at least `SCAN_BORDER` away from every edge — that is a landmark peak
/// appears in the peak sequence.
pub proof fn lemma_peak_scan_complete(g: Seq<Seq<u32>>, bins: int, t_p: int, f_p: int)
    requires
        g.len() <= usize::MAX,
        bins <= usize::MAX,
        10 <= t_p < g.len() - 10,
        10 <= f_p < bins - 10,
        is_peak_at(g, t_p, f_p),
    ensures
        peaks_spec(g, bins).contains(Peak { bin: f_p as usize, frame: t_p as usize }),
{
    lemma_scan_complete(g, bins, t_p, f_p, g.len() - 10);
}

/// A spectrogram too short to hold one scan row — in particular the empty
/// spectrogram an input shorter than one window produces — yields an empty
/// fingerprint: no peaks and, from those, no hashes.
pub proof fn lemma_short_input_empty_fingerprint(
    g: Seq<Seq<u32>>,
    bins: int,
    sample_rate: int,
    window_size: int,
    hop_size: int,
)
    requires
        g.len() <= 20,
    ensures
        peaks_spec(g, bins) == Seq::<Peak>::empty(),
        hash_seq(peaks_spec(g, bins), sample_rate, window_size, hop_size) == Seq::<u64>::empty(),
{
    assert(peaks_spec(g, bins) =~= Seq::<Peak>::empty());
    assert(hash_seq(peaks_spec(g, bins), sample_rate, window_size, hop_size)
        =~= Seq::<u64>::empty());
}

/// Landmark hashes of anchor `i` paired with the targets at sequence offsets
/// `1..=j`, in offset order; offsets past the end of the peak sequence
/// contribute nothing.
pub open spec fn anchor_hashes_upto(
    peaks: Seq<Peak>,
    i: int,
    j: int,
    sample_rate: int,
    window_size: int,
    hop_size: int,
) -> Seq<u64>
    decreases j,
{
    if j <= 0 {
        Seq::empty()
    } else {
        anchor_hashes_upto(peaks, i, j - 1, sample_rate, window_size, hop_size) + if i + j
            < peaks.len() {
            seq![pair_hash(peaks[i], peaks[i + j], sample_rate, window_size, hop_size)]
        } else {
            Seq::empty()
        }
    }
}

/// Landmark hashes of all anchors below `i`, each paired with up to
/// `FAN_OUT` targets, in anchor-major, offset-minor order.
pub open spec fn hashes_upto(
    peaks: Seq<Peak>,
    i: int,
    sample_rate: int,
    window_size: int,
    hop_size: int,
) -> Seq<u64>
    decreases i,
{
    if i <= 0 {
        Seq::empty()
    } else {
        hashes_upto(peaks, i - 1, sample_rate, window_size, hop_size) + anchor_hashes_upto(
            peaks,
            i - 1,
            5,
            sample_rate,
            window_size,
            hop_size,
        )
    }
}

/// All landmark hashes of a peak sequence: every peak is an anchor, paired
/// with up to `FAN_OUT` immediately following peaks.
pub open spec fn hash_seq(
    peaks: Seq<Peak>,
    sample_rate: int,
    window_size: int,
    hop_size: int,
) -> Seq<u64> {
    hashes_upto(peaks, peaks.len() as int, sample_rate, window_size, hop_size)
}

/// Number of targets anchor `a` is paired with in a sequence of `n` peaks:
/// the smaller of `FAN_OUT` and the `n - 1 - a` peaks that follow it.
pub open spec fn targets_of_anchor(n: int, a: int) -> int {
    if n - 1 - a >= 5 {
        5
    } else if n - 1 - a >= 0 {
        n - 1 - a
    } else {
        0
    }
}

/// Sum of `targets_of_anchor` over the anchors below `i`.
pub open spec fn expected_hash_count(n: int, i: int) -> int
    decreases i,
{
    if i <= 0 {
        0
    } else {
        expected_hash_count(n, i - 1) + targets_of_anchor(n, i - 1)
    }
}

/// Offsets beyond the end of the peak sequence contribute no hashes: the
/// per-anchor sequence stops growing once `i + j` runs past the last peak.
proof fn lemma_anchor_hashes_saturate(
    peaks: Seq<Peak>,
    i: int,
    j1: int,
    j2: int,
    sample_rate: int,
    window_size: int,
    hop_size: int,
)
    requires
        0 <= j1 <= j2,
        i + j1 + 1 > peaks.len() - 1,
    ensures
        anchor_hashes_upto(peaks, i, j2, sample_rate, window_size, hop_size)
            == anchor_hashes_upto(peaks, i, j1, sample_rate, window_size, hop_size),
    decreases j2 - j1,
{
    if j2 > j1 {
        lemma_anchor_hashes_saturate(peaks, i, j1, j2 - 1, sample_rate, window_size, hop_size);
        assert(anchor_hashes_upto(peaks, i, j2, sample_rate, window_size, hop_size)
            =~= anchor_hashes_upto(peaks, i, j2 - 1, sample_rate, window_size, hop_size));
    }
}

/// The number of hashes anchor `i` contributes through offsets `1..=j`.
proof fn lemma_anchor_hashes_len(
    peaks: Seq<Peak>,
    i: int,
    j: int,
    sample_rate: int,
    window_size: int,
    hop_size: int,
)
    requires
        0 <= i,
        0 <= j,
    ensures
        anchor_hashes_upto(peaks, i, j, sample_rate, window_size, hop_size).len() == if j <= peaks.len()
            - 1 - i {
            j
        } else if peaks.len() - 1 - i >= 0 {
            peaks.len() - 1 - i
        } else {
            0
        },
    decreases j,
{
    if j > 0 {
        lemma_anchor_hashes_len(peaks, i, j - 1, sample_rate, window_size, hop_size);
    }
}

/// The number of hashes contributed by the anchors below `i`.
proof fn lemma_hashes_upto_len(
    peaks: Seq<Peak>,
    i: int,
    sample_rate: int,
    window_size: int,
    hop_size: int,
)
    requires
        0 <= i <= peaks.len(),
    ensures
        hashes_upto(peaks, i, sample_rate, window_size, hop_size).len() == expected_hash_count(
            peaks.len() as int,
            i,
        ),
    decreases i,
{
    if i > 0 {
        lemma_hashes_upto_len(peaks, i - 1, sample_rate, window_size, hop_size);
        lemma_anchor_hashes_len(peaks, i - 1, 5, sample_rate, window_size, hop_size);
    }
}

/// Hash generation on `n` peaks produces exactly
/// `sum over anchors a of min(FAN_OUT, n - 1 - a)` hashes: every peak is an
/// anchor, and each is paired with as many of the following peaks as exist,
/// up to the fan-out.
pub proof fn lemma_hash_count(peaks: Seq<Peak>, sample_rate: int, window_size: int, hop_size: int)
    ensures
        hash_seq(peaks, sample_rate, window_size, hop_size).len() == expected_hash_count(
            peaks.len() as int,
            peaks.len() as int,
        ),
{
    lemma_hashes_upto_len(peaks, peaks.len() as int, sample_rate, window_size, hop_size);
}

/// Holds the analysis configuration: sample rate of the input, window length
/// of one analysis frame, and hop (here named `overlap`, the advance between
/// consecutive windows).
pub struct AudioProcessor {
    /// Sample rate of the analyzed audio, in Hz.
    pub sample_rate: u32,
    /// Length of one analysis window, in samples.
    pub window_size: usize,
    /// Advance between consecutive windows, in samples.
    pub overlap: usize,
}

impl AudioProcessor {
    /// The configuration is well-formed: window and hop are positive, the
    /// hop no larger than the window, and the sample rate positive.
    pub open spec fn valid_config(&self) -> bool {
        &&& 1 <= self.overlap <= self.window_size
        &&& 1 <= self.sample_rate
    }

    /// A processor with the default configuration: 2048-sample windows
    /// advancing by 1024 samples (50% overlap).
    pub fn new(sample_rate: u32) -> (r: AudioProcessor)
        ensures
            r.sample_rate == sample_rate,
            r.window_size == 2048,
            r.overlap == 1024,
    {
        AudioProcessor { sample_rate, window_size: 2048, overlap: 1024 }
    }

    /// How many analysis windows a sample sequence of the given length
    /// yields: windows start at multiples of the hop and must lie whole
    /// within the sequence, so the count is
    /// `floor((samples_len - window_size) / hop) + 1`, or zero when the
    /// sequence is shorter than one window.
    pub fn num_frames(&self, samples_len: usize) -> (r: usize)
        requires
            1 <= self.overlap,
            1 <= self.window_size,
        ensures
            r == spec_num_frames(samples_len as int, self.window_size as int, self.overlap as int),
    {
        if samples_len < self.window_size {
            0
        } else {
            let d: usize = (samples_len - self.window_size) / self.overlap;
            proof {
                lemma_div_nonincreasing(
                    samples_len as int - self.window_size as int,
                    self.overlap as int,
                );
            }
            d + 1
        }
    }

    /// Whether (frame `t`, bin `f`) is a local maximum of the spectrogram:
    /// at or above the amplitude threshold and strictly greater than every
    /// other magnitude within half-width `NEIGHBORHOOD_RADIUS` in both axes.
    pub fn is_local_maximum(&self, spectrogram: &Vec<Vec<u32>>, f: usize, t: usize) -> (r: bool)
        requires
            rectangular(grid(spectrogram)),
            3 <= t,
            t + 3 < spectrogram@.len(),
            3 <= f,
            f + 3 < bins_of(grid(spectrogram)),
        ensures
            r == is_peak_at(grid(spectrogram), t as int, f as int),
    {
        let ghost g = grid(spectrogram);
        let n: usize = spectrogram.len();
        proof {
            assert(forall|a: int| 0 <= a < n ==> #[trigger] g[a] == spectrogram@[a]@);
            assert(spectrogram@[0].len() == g[0].len());
            assert(g[t as int].len() == bins_of(g));
            assert(bins_of(g) <= usize::MAX);
        }
        let current: u32 = spectrogram[t][f];
        assert(current == g[t as int][f as int]);
        if current < AMPLITUDE_THRESHOLD {
            return false;
        }
        let mut u: usize = t - 3;
        while u <= t + 3
            invariant
                t - 3 <= u <= t + 4,
                forall|a: int, b: int|
                    t - 3 <= a < u && f - 3 <= b <= f + 3 && !(a == t && b == f)
                        ==> #[trigger] g[a][b] < current,
            decreases t + 4 - u,
        {
            let mut v: usize = f - 3;
            while v <= f + 3
                invariant
                    t - 3 <= u <= t + 3,
                    f - 3 <= v <= f + 4,
                    forall|a: int, b: int|
                        t - 3 <= a < u && f - 3 <= b <= f + 3 && !(a == t && b == f)
                            ==> #[trigger] g[a][b] < current,
                    forall|b: int|
                        f - 3 <= b < v && !(u == t && b == f) ==> #[trigger] g[u as int][b]
                            < current,
                decreases f + 4 - v,
            {
                proof {
                    assert(g[u as int] == spectrogram@[u as int]@);
                    assert(g[u as int].len() == bins_of(g));
                }
                if !(u == t && v == f) {
                    if spectrogram[u][v] >= current {
                        assert(g[u as int][v as int] >= g[t as int][f as int]);
                        return false;
                    }
                }
                v += 1;
            }
            u += 1;
        }
        true
    }

    /// Scan the spectrogram for landmark peaks, excluding a border of
    /// `SCAN_BORDER` frames and bins on every side, in time-major,
    /// frequency-minor ascending order.
    pub fn find_peaks(&self, spectrogram: &Vec<Vec<u32>>) -> (peaks: Vec<Peak>)
        requires
            rectangular(grid(spectrogram)),
        ensures
            peaks@ == peaks_spec(grid(spectrogram), bins_of(grid(spectrogram))),
    {
        let ghost g = grid(spectrogram);
        let mut peaks: Vec<Peak> = Vec::new();
        let n: usize = spectrogram.len();
        if n <= 2 * SCAN_BORDER {
            assert(peaks@ =~= peaks_spec(g, bins_of(g)));
            return peaks;
        }
        let bins: usize = spectrogram[0].len();
        let mut t: usize = SCAN_BORDER;
        while t < n - 10
            invariant
                10 <= t <= n - 10,
                20 < n == g.len(),
                bins as int == bins_of(g),
                peaks@ == peaks_upto(g, bins as int, t as int),
            decreases n - t,
        {
            if bins > 2 * SCAN_BORDER {
                let mut f: usize = SCAN_BORDER;
                assert(peaks@ =~= peaks_upto(g, bins as int, t as int) + row_peaks_upto(
                    g,
                    t as int,
                    f as int,
                ));
                while f < bins - 10
                    invariant
                        10 <= f <= bins - 10,
                        20 < bins,
                        10 <= t < n - 10,
                        peaks@ == peaks_upto(g, bins as int, t as int) + row_peaks_upto(
                            g,
                            t as int,
                            f as int,
                        ),
                    decreases bins - f,
                {
                    if self.is_local_maximum(spectrogram, f, t) {
                        peaks.push(Peak { bin: f, frame: t });
                    }
                    assert(peaks@ =~= peaks_upto(g, bins as int, t as int) + row_peaks_upto(
                        g,
                        t as int,
                        f as int + 1,
                    ));
                    f += 1;
                }
            }
            assert(peaks@ =~= peaks_upto(g, bins as int, t as int + 1));
            t += 1;
        }
        peaks
    }

    /// Derive the landmark hashes of a peak sequence: each peak is an anchor,
    /// paired with up to `FAN_OUT` immediately following peaks, in anchor
    /// order, then target offset ascending.
    pub fn generate_hash(&self, peaks: &Vec<Peak>) -> (r: Vec<u64>)
        requires
            1 <= self.window_size,
            1 <= self.sample_rate,
            forall|k: int|
                0 <= k < peaks@.len() ==> (#[trigger] peaks@[k]).bin < self.window_size,
            forall|k: int|
                0 <= k < peaks@.len() ==> (#[trigger] peaks@[k]).frame * self.overlap
                    <= usize::MAX,
            forall|a: int, b: int|
                0 <= a <= b < peaks@.len() ==> (#[trigger] peaks@[a]).frame
                    <= (#[trigger] peaks@[b]).frame,
        ensures
            r@ == hash_seq(
                peaks@,
                self.sample_rate as int,
                self.window_size as int,
                self.overlap as int,
            ),
    {
        let ghost rate: int = self.sample_rate as int;
        let ghost ws: int = self.window_size as int;
        let ghost hop: int = self.overlap as int;
        let mut hashes: Vec<u64> = Vec::new();
        let n: usize = peaks.len();
        let mut i: usize = 0;
        assert(hashes@ =~= hashes_upto(peaks@, 0, rate, ws, hop));
        while i < n
            invariant
                i <= n == peaks@.len(),
                hashes@ == hashes_upto(peaks@, i as int, rate, ws, hop),
            decreases n - i,
        {
            let mut j: usize = 1;
            assert(hashes@ =~= hashes_upto(peaks@, i as int, rate, ws, hop)
                + anchor_hashes_upto(peaks@, i as int, 0, rate, ws, hop));
            while j <= FAN_OUT && j < n - i
                invariant
                    1 <= j <= 6,
                    i < n,
                    hashes@ == hashes_upto(peaks@, i as int, rate, ws, hop) + anchor_hashes_upto(
                        peaks@,
                        i as int,
                        j as int - 1,
                        rate,
                        ws,
                        hop,
                    ),
                decreases 6 - j,
            {
                let anchor = peaks[i];
                let target = peaks[i + j];
                let h: u64 = compute_pair_hash(
                    anchor,
                    target,
                    self.sample_rate,
                    self.window_size,
                    self.overlap,
                );
                hashes.push(h);
                assert(hashes@ =~= hashes_upto(peaks@, i as int, rate, ws, hop)
                    + anchor_hashes_upto(peaks@, i as int, j as int, rate, ws, hop));
                j += 1;
            }
            proof {
                if j < 6 {
                    lemma_anchor_hashes_saturate(peaks@, i as int, j as int - 1, 5, rate, ws, hop);
                }
                assert(hashes@ =~= hashes_upto(peaks@, i as int + 1, rate, ws, hop));
            }
            i += 1;
        }
        hashes
    }

    /// Run the landmark pipeline on a spectrogram: scan it for peaks, then
    /// derive the landmark hashes from the peak sequence. The spectrogram's
    /// rows must hold `window_size / 2` bins each (the non-negative-frequency
    /// half of the spectrum). Fails exactly when the configuration is
    /// malformed; an empty spectrogram is not an error and yields an empty
    /// fingerprint.
    pub fn process_audio(&self, spectrogram: &Vec<Vec<u32>>) -> (r: Result<
        AudioFingerprint,
        FingerprintError,
    >)
        requires
            forall|t: int|
                0 <= t < grid(spectrogram).len() ==> (#[trigger] grid(spectrogram)[t]).len()
                    == self.window_size / 2,
            grid(spectrogram).len() * self.overlap <= usize::MAX,
        ensures
            ({
                let g = grid(spectrogram);
                match r {
                    Ok(fp) => {
                        &&& self.valid_config()
                        &&& fp.peaks@ == peaks_spec(g, bins_of(g))
                        &&& fp.hash@ == hash_seq(
                            fp.peaks@,
                            self.sample_rate as int,
                            self.window_size as int,
                            self.overlap as int,
                        )
                    },
                    Err(e) => !self.valid_config() && e == FingerprintError::InvalidConfiguration,
                }
            }),
    {
        let ghost g = grid(spectrogram);
        if !(1 <= self.overlap && self.overlap <= self.window_size && 1 <= self.sample_rate) {
            return Err(FingerprintError::InvalidConfiguration);
        }
        assert(rectangular(g));
        let peaks = self.find_peaks(spectrogram);
        proof {
            assert(g.len() == spectrogram.len());
            lemma_peaks_upto_wf(g, bins_of(g), g.len() - 10);
            assert forall|k: int| 0 <= k < peaks@.len() implies (#[trigger] peaks@[k]).bin
                < self.window_size by {
                assert(scan_peak_ok(g, bins_of(g), g.len() - 10, peaks@[k]));
            }
            assert forall|k: int| 0 <= k < peaks@.len() implies (#[trigger] peaks@[k]).frame
                * self.overlap <= usize::MAX by {
                assert(scan_peak_ok(g, bins_of(g), g.len() - 10, peaks@[k]));
                lemma_mul_inequality(peaks@[k].frame as int, g.len() as int, self.overlap as int);
            }
        }
        let hash = self.generate_hash(&peaks);
        Ok(AudioFingerprint { peaks, hash })
    }
}

} // verus!
