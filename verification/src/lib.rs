//! Otamatone fingering from detected pitch: the discrete core of the analysis
//! pipeline (framing layout, median smoothing, octave-jump repair, hysteresis
//! quantisation, note segmentation, range fitting and neck mapping).
//!
//! Times are whole microseconds, pitches whole cents above MIDI note 0 and neck
//! positions exact fractions of the neck, so that every step is exact integer
//! arithmetic.

pub mod model;
pub mod analysis;
pub mod mapping;
pub mod pipeline;
