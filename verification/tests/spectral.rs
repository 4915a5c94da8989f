use rustfft::num_complex::Complex;
use rustfft::FftPlanner;
use singerprint::audio_processor::{AudioProcessor, MAGNITUDE_SCALE};

/// The floating-point front end: Hann-taper each window, transform it, and
/// keep the scaled magnitudes of the non-negative-frequency half.
fn spectrogram_of(samples: &[f32], p: &AudioProcessor) -> Vec<Vec<u32>> {
    let mut planner = FftPlanner::new();
    let fft = planner.plan_fft_forward(p.window_size);
    let mut frames: Vec<Vec<u32>> = Vec::new();
    let n = p.num_frames(samples.len());
    for i in 0..n {
        let start = i * p.overlap;
        let mut spectrum: Vec<Complex<f32>> = Vec::with_capacity(p.window_size);
        for j in 0..p.window_size {
            let hann = 0.5
                * (1.0
                    - (2.0 * std::f32::consts::PI * j as f32 / p.window_size as f32).cos());
            spectrum.push(Complex::new(samples[start + j] * hann, 0.0));
        }
        fft.process(&mut spectrum);
        let magnitudes: Vec<u32> = spectrum
            .iter()
            .take(p.window_size / 2)
            .map(|c| (c.norm() * MAGNITUDE_SCALE as f32).round() as u32)
            .collect();
        frames.push(magnitudes);
    }
    frames
}

#[test]
fn sine_tone_energy_stays_in_one_bin() {
    let p = AudioProcessor::new(44100);
    let freq = 1000.0f32;
    let samples: Vec<f32> = (0..44100)
        .map(|i| (2.0 * std::f32::consts::PI * freq * i as f32 / 44100.0).sin())
        .collect();
    let spectrogram = spectrogram_of(&samples, &p);
    assert_eq!(spectrogram.len(), 42);
    let expected_bin = freq * p.window_size as f32 / p.sample_rate as f32;
    for frame in &spectrogram {
        assert_eq!(frame.len(), 1024);
        let mut best_bin = 0usize;
        for (bin, &m) in frame.iter().enumerate() {
            if m > frame[best_bin] {
                best_bin = bin;
            }
        }
        // The dominant bin matches the tone's frequency within one bin.
        assert!((best_bin as f32 - expected_bin).abs() <= 1.0);
    }
}

#[test]
fn sine_tone_produces_matching_fingerprints() {
    let p = AudioProcessor::new(44100);
    let samples: Vec<f32> = (0..88200)
        .map(|i| {
            let t = i as f32 / 44100.0;
            (2.0 * std::f32::consts::PI * 1000.0 * t).sin()
                + 0.5 * (2.0 * std::f32::consts::PI * 2500.0 * t).sin()
        })
        .collect();
    let spectrogram = spectrogram_of(&samples, &p);
    let fp_a = p.process_audio(&spectrogram).unwrap();
    let fp_b = p.process_audio(&spectrogram).unwrap();
    assert_eq!(fp_a.hash, fp_b.hash);
}
