//! Acoustic fingerprinting of audio clips.
//!
//! A spectrogram (a time-ordered grid of fixed-point magnitude values) is
//! scanned for local energy maxima, the resulting landmark peaks are paired
//! into fixed-width hashes, and a query fingerprint is matched against a
//! named collection of stored fingerprints by hash overlap.
//!
//! The floating-point front end (windowing and Fourier transform of the raw
//! samples) lives outside this crate; it hands the spectrogram over as scaled
//! integer magnitudes, one row per analysis window.
#![verifier::loop_isolation(false)]

pub mod audio_processor;
pub mod fingerprint;
pub mod hashing;
pub mod matcher;
