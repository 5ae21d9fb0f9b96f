use fistula::analysis::octave::correct_octave_jumps;
use fistula::analysis::postprocess::{map_segments, segments};
use fistula::analysis::transpose::suggested_transpose;
use fistula::mapping::otamatone::neck_position;
use fistula::model::{NeckPosition, OtamatoneProfile, PitchFrame};

/// Frames given as (seconds, hertz), written in the library's units:
/// microseconds and cents above MIDI note 0.
fn pitch_frames(specs: &[(f64, f64)]) -> Vec<PitchFrame> {
    specs
        .iter()
        .map(|(time_sec, freq_hz)| PitchFrame {
            time_us: (time_sec * 1_000_000.0).round() as u64,
            pitch_cents: (6900.0 + 1200.0 * (freq_hz / 440.0).log2()).round() as i32,
        })
        .collect()
}

fn hz(frame: &PitchFrame) -> f64 {
    440.0 * 2f64.powf((frame.pitch_cents as f64 - 6900.0) / 1200.0)
}

fn fraction(position: NeckPosition) -> f64 {
    position.numerator as f64 / position.denominator as f64
}

fn ms(value: f64) -> u64 {
    (value * 1000.0).round() as u64
}

#[test]
fn rejects_short_notes_and_merges_gaps() {
    let frames = pitch_frames(&[(0.0, 440.0), (0.03, 440.0), (0.06, 440.0)]);
    assert_eq!(segments(&frames, ms(80.0), ms(40.0)).len(), 1);
    assert!(segments(&frames[..1], ms(80.0), ms(40.0)).is_empty());
}

#[test]
fn corrects_isolated_octave_jump() {
    let mut specs: Vec<(f64, f64)> = (0..8).map(|i| (i as f64 * 0.01, 440.0)).collect();
    specs.extend([(0.08, 880.0), (0.09, 880.0)]);
    specs.extend((10..18).map(|i| (i as f64 * 0.01, 440.0)));
    let corrected = correct_octave_jumps(&pitch_frames(&specs));
    assert!(corrected.iter().all(|frame| (hz(frame) - 440.0).abs() < 1.0));
    let segs = segments(&pitch_frames(&specs), ms(80.0), ms(40.0));
    assert_eq!(segs.len(), 1);
    assert_eq!(segs[0].midi_note, 69);
}

#[test]
fn hysteresis_keeps_wobbling_pitch_on_one_note() {
    let specs: Vec<(f64, f64)> = (0..12)
        .map(|i| (i as f64 * 0.01, if i % 2 == 0 { 448.0 } else { 432.0 }))
        .collect();
    let segs = segments(&pitch_frames(&specs), ms(80.0), ms(40.0));
    assert_eq!(segs.len(), 1);
    assert_eq!(segs[0].midi_note, 69);
}

#[test]
fn splits_same_note_across_silence() {
    let mut specs: Vec<(f64, f64)> = (0..8).map(|i| (i as f64 * 0.01, 440.0)).collect();
    specs.extend((0..8).map(|i| (0.4 + i as f64 * 0.01, 440.0)));
    let segs = segments(&pitch_frames(&specs), ms(40.0), ms(40.0));
    assert_eq!(segs.len(), 2);
}

#[test]
fn recommends_octave_fit() {
    assert_eq!(suggested_transpose(&[93, 95], &OtamatoneProfile::default()), -24);
}

#[test]
fn interpolates_calibration() {
    let profile = OtamatoneProfile {
        name: "test".into(),
        midi_min: 60,
        midi_max: 72,
        neck_length: 1,
        calibration: vec![(60, 0), (72, 1)],
    };
    assert_eq!(neck_position(&profile, 66).map(fraction), Some(0.5));
    assert_eq!(neck_position(&profile, 73), None);
    let _ = map_segments(&[], 0, &profile);
}
