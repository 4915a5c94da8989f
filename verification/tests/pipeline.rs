use singerprint::audio_processor::{AudioProcessor, FingerprintError, AMPLITUDE_THRESHOLD};
use singerprint::fingerprint::Peak;

fn zero_grid(frames: usize, bins: usize) -> Vec<Vec<u32>> {
    let mut g: Vec<Vec<u32>> = Vec::new();
    for _ in 0..frames {
        g.push(vec![0u32; bins]);
    }
    g
}

#[test]
fn num_frames_matches_formula() {
    let p = AudioProcessor::new(44100);
    // floor((len - 2048) / 1024) + 1 whenever one window fits.
    assert_eq!(p.num_frames(2048), 1);
    assert_eq!(p.num_frames(3072), 2);
    assert_eq!(p.num_frames(4096), 3);
    assert_eq!(p.num_frames(6144), 5);
    assert_eq!(p.num_frames(44100), 42);
}

#[test]
fn short_input_yields_no_frames() {
    let p = AudioProcessor::new(44100);
    assert_eq!(p.num_frames(0), 0);
    assert_eq!(p.num_frames(1), 0);
    assert_eq!(p.num_frames(2047), 0);
}

#[test]
fn empty_spectrogram_yields_empty_fingerprint() {
    let p = AudioProcessor::new(44100);
    let spectrogram: Vec<Vec<u32>> = Vec::new();
    let fp = p.process_audio(&spectrogram).unwrap();
    assert_eq!(fp.peaks.len(), 0);
    assert_eq!(fp.hash.len(), 0);
}

#[test]
fn single_peak_found() {
    let p = AudioProcessor::new(44100);
    let mut g = zero_grid(21, 21);
    g[10][10] = 2000;
    let peaks = p.find_peaks(&g);
    assert_eq!(peaks, vec![Peak { bin: 10, frame: 10 }]);
}

#[test]
fn peak_requires_threshold() {
    let p = AudioProcessor::new(44100);
    let mut g = zero_grid(21, 21);
    g[10][10] = AMPLITUDE_THRESHOLD - 1;
    assert_eq!(p.find_peaks(&g).len(), 0);
    g[10][10] = AMPLITUDE_THRESHOLD;
    assert_eq!(p.find_peaks(&g), vec![Peak { bin: 10, frame: 10 }]);
}

#[test]
fn peak_must_strictly_dominate_neighborhood() {
    let p = AudioProcessor::new(44100);
    // An equal magnitude three bins away disqualifies both candidates.
    let mut g = zero_grid(21, 24);
    g[10][10] = 2000;
    g[10][13] = 2000;
    assert_eq!(p.find_peaks(&g).len(), 0);
    // Seven bins apart the neighborhoods no longer overlap: both are peaks,
    // reported in ascending bin order within the frame.
    let mut g2 = zero_grid(21, 28);
    g2[10][17] = 2000;
    g2[10][10] = 2000;
    assert_eq!(
        p.find_peaks(&g2),
        vec![Peak { bin: 10, frame: 10 }, Peak { bin: 17, frame: 10 }]
    );
}

#[test]
fn scan_order_is_time_major() {
    let p = AudioProcessor::new(44100);
    let mut g = zero_grid(32, 21);
    g[17][10] = 2000;
    g[10][10] = 2000;
    assert_eq!(
        p.find_peaks(&g),
        vec![Peak { bin: 10, frame: 10 }, Peak { bin: 10, frame: 17 }]
    );
}

#[test]
fn scan_excludes_border() {
    let p = AudioProcessor::new(44100);
    let mut g = zero_grid(25, 25);
    g[5][12] = 3000; // frame inside the excluded border
    g[12][5] = 3000; // bin inside the excluded border
    g[14][24] = 3000; // last bin: within the trailing border
    assert_eq!(p.find_peaks(&g).len(), 0);
}

#[test]
fn hash_count_matches_fan_out_formula() {
    let p = AudioProcessor::new(44100);
    let make_peaks = |n: usize| -> Vec<Peak> {
        let mut peaks: Vec<Peak> = Vec::new();
        for i in 0..n {
            peaks.push(Peak { bin: 10 + i, frame: 10 + i });
        }
        peaks
    };
    // sum over anchors i of min(5, n - 1 - i)
    assert_eq!(p.generate_hash(&make_peaks(0)).len(), 0);
    assert_eq!(p.generate_hash(&make_peaks(1)).len(), 0);
    assert_eq!(p.generate_hash(&make_peaks(2)).len(), 1);
    assert_eq!(p.generate_hash(&make_peaks(6)).len(), 15);
    assert_eq!(p.generate_hash(&make_peaks(8)).len(), 25);
}

#[test]
fn hashes_are_deterministic() {
    let p = AudioProcessor::new(44100);
    let peaks = vec![
        Peak { bin: 10, frame: 10 },
        Peak { bin: 20, frame: 10 },
        Peak { bin: 15, frame: 30 },
    ];
    assert_eq!(p.generate_hash(&peaks), p.generate_hash(&peaks));
}

#[test]
fn hashes_depend_on_peak_positions() {
    let p = AudioProcessor::new(44100);
    let a = p.generate_hash(&vec![Peak { bin: 10, frame: 10 }, Peak { bin: 20, frame: 11 }]);
    let b = p.generate_hash(&vec![Peak { bin: 11, frame: 10 }, Peak { bin: 20, frame: 11 }]);
    assert_eq!(a.len(), 1);
    assert_eq!(b.len(), 1);
    assert_ne!(a[0], b[0]);
}

#[test]
fn invalid_configuration_is_rejected() {
    let spectrogram: Vec<Vec<u32>> = Vec::new();
    let hop_exceeds_window = AudioProcessor { sample_rate: 44100, window_size: 1024, overlap: 2048 };
    assert!(matches!(
        hop_exceeds_window.process_audio(&spectrogram),
        Err(FingerprintError::InvalidConfiguration)
    ));
    let zero_hop = AudioProcessor { sample_rate: 44100, window_size: 2048, overlap: 0 };
    assert!(matches!(
        zero_hop.process_audio(&spectrogram),
        Err(FingerprintError::InvalidConfiguration)
    ));
    let zero_rate = AudioProcessor { sample_rate: 0, window_size: 2048, overlap: 1024 };
    assert!(matches!(
        zero_rate.process_audio(&spectrogram),
        Err(FingerprintError::InvalidConfiguration)
    ));
}

#[test]
fn full_pipeline_on_synthetic_spectrogram() {
    // A small configuration whose window half matches the grid's bin count.
    let p = AudioProcessor { sample_rate: 8000, window_size: 80, overlap: 40 };
    let mut g = zero_grid(40, 40);
    for &t in &[10usize, 17, 24] {
        for &f in &[10usize, 17, 24] {
            g[t][f] = 5000;
        }
    }
    let fp = p.process_audio(&g).unwrap();
    assert_eq!(fp.peaks.len(), 9);
    // 9 peaks with fan-out 5: 5+5+5+5+4+3+2+1+0
    assert_eq!(fp.hash.len(), 30);
}
