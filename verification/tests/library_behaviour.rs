use fistula::analysis::framing::{frames, FramingError};
use fistula::analysis::median::median_filter;
use fistula::analysis::octave::correct_octave_jumps;
use fistula::analysis::postprocess::{map_segments, segments, Segment};
use fistula::analysis::quantize::quantize_notes;
use fistula::analysis::transpose::suggested_transpose;
use fistula::mapping::otamatone::neck_position;
use fistula::model::{NeckPosition, OtamatoneProfile, PitchFrame};
use fistula::pipeline::{analyze_pitch_frames, frame_layout, AnalyzeError, AnalyzeOptions};

fn steady(times_ms: &[u64], cents: i32) -> Vec<PitchFrame> {
    times_ms
        .iter()
        .map(|t| PitchFrame { time_us: t * 1000, pitch_cents: cents })
        .collect()
}

fn with_cents(cents: &[i32]) -> Vec<PitchFrame> {
    cents
        .iter()
        .enumerate()
        .map(|(i, c)| PitchFrame { time_us: i as u64 * 10_000, pitch_cents: *c })
        .collect()
}

fn cents_of(frames: &[PitchFrame]) -> Vec<i32> {
    frames.iter().map(|f| f.pitch_cents).collect()
}

fn small_profile() -> OtamatoneProfile {
    OtamatoneProfile {
        name: "small".into(),
        midi_min: 60,
        midi_max: 72,
        neck_length: 1,
        calibration: vec![(60, 0), (72, 1)],
    }
}

fn at(numerator: u64, denominator: u64) -> Option<NeckPosition> {
    Some(NeckPosition { numerator, denominator })
}

fn segment(note: u8) -> Segment {
    Segment { start_us: 0, duration_us: 100_000, midi_note: note, cents_sum: 7, frame_count: 3 }
}

#[test]
fn frame_layout_steps_by_hop_while_frames_fit() {
    assert_eq!(frames(10, 4, 3), Ok(vec![0, 3, 6]));
    assert_eq!(frames(12, 4, 4), Ok(vec![0, 4, 8]));
    assert_eq!(frames(3, 4, 1), Ok(vec![]));
}

#[test]
fn frame_layout_rejects_zero_sizes() {
    assert_eq!(frames(10, 0, 3), Err(FramingError::NonPositiveSize));
    assert_eq!(frames(10, 4, 0), Err(FramingError::NonPositiveSize));
}

#[test]
fn analysis_layout_errors_and_frames() {
    let options = AnalyzeOptions::default();
    assert_eq!(frame_layout(1000, &options), Err(AnalyzeError::AudioTooShort));
    assert_eq!(frame_layout(4096, &options), Ok(vec![0, 512, 1024, 1536, 2048]));
    let mut zero = AnalyzeOptions::default();
    zero.hop_size = 0;
    assert_eq!(frame_layout(4096, &zero), Err(AnalyzeError::InvalidFrameLayout));
}

#[test]
fn median_picks_middle_of_sorted_window() {
    let filtered = median_filter(&with_cents(&[100, 5000, 120, 130, 110]));
    assert_eq!(cents_of(&filtered), vec![120, 130, 120, 130, 120]);
    assert_eq!(filtered[3].time_us, 30_000);
}

#[test]
fn median_keeps_steady_pitch() {
    let frames = with_cents(&[6900; 7]);
    assert_eq!(median_filter(&frames), frames);
}

#[test]
fn octave_correction_moves_isolated_drop_up() {
    let corrected = correct_octave_jumps(&with_cents(&[6900, 6900, 5700, 5750, 6900]));
    assert_eq!(cents_of(&corrected), vec![6900, 6900, 6900, 6950, 6900]);
}

#[test]
fn octave_correction_leaves_unbounded_or_unreturned_jumps() {
    let at_end = with_cents(&[6900, 8100, 8100]);
    assert_eq!(correct_octave_jumps(&at_end), at_end);
    let no_return = with_cents(&[6900, 8100, 7500]);
    assert_eq!(correct_octave_jumps(&no_return), no_return);
    let smooth = with_cents(&[6900, 7000, 7200, 7100]);
    assert_eq!(correct_octave_jumps(&smooth), smooth);
}

#[test]
fn quantisation_follows_hysteresis() {
    let notes = quantize_notes(&with_cents(&[6900, 6950, 6961, 7020, 6939]));
    assert_eq!(notes, vec![69, 69, 70, 70, 69]);
}

#[test]
fn quantisation_clamps_to_midi_range() {
    assert_eq!(quantize_notes(&with_cents(&[-500])), vec![0]);
    assert_eq!(quantize_notes(&with_cents(&[20_000])), vec![127]);
    assert_eq!(quantize_notes(&with_cents(&[6950])), vec![70]);
}

#[test]
fn short_silence_is_bridged_and_long_one_splits() {
    let frames = steady(&[0, 10, 20, 30, 40, 80, 90, 100], 6910);
    let joined = segments(&frames, 40_000, 40_000);
    assert_eq!(
        joined,
        vec![Segment { start_us: 0, duration_us: 110_000, midi_note: 69, cents_sum: 80, frame_count: 8 }]
    );
    let split = segments(&frames, 40_000, 20_000);
    assert_eq!(
        split,
        vec![Segment { start_us: 0, duration_us: 50_000, midi_note: 69, cents_sum: 50, frame_count: 5 }]
    );
}

#[test]
fn segments_come_in_time_order_and_are_long_enough() {
    let mut frames = steady(&[0, 10, 20, 30, 40, 50], 6900);
    frames.extend(steady(&[60, 70, 80, 90, 100, 110], 7200));
    let segs = segments(&frames, 30_000, 40_000);
    assert_eq!(segs.len(), 2);
    assert_eq!(segs[0].midi_note, 69);
    assert_eq!(segs[1].midi_note, 72);
    assert!(segs[0].start_us < segs[1].start_us);
    assert!(segs.iter().all(|s| s.duration_us >= 30_000));
}

#[test]
fn empty_input_gives_no_segments() {
    assert!(segments(&[], 0, 0).is_empty());
}

#[test]
fn neck_position_interpolates_exactly() {
    let mut profile = small_profile();
    profile.calibration = vec![(60, 0), (63, 1)];
    assert_eq!(neck_position(&profile, 61), at(1, 3));
    assert_eq!(neck_position(&profile, 63), at(1, 1));
    assert_eq!(neck_position(&profile, 64), None);
    profile.neck_length = 1000;
    profile.calibration = vec![(60, 900), (62, 100)];
    assert_eq!(neck_position(&profile, 61), at(1000, 2000));
    profile.calibration = vec![];
    assert_eq!(neck_position(&profile, 61), None);
}

#[test]
fn standard_profile_is_linear_from_a3_to_a5() {
    let profile = OtamatoneProfile::default();
    assert_eq!(profile.name, "Standard Otamatone");
    assert_eq!(neck_position(&profile, 57), at(0, 24));
    assert_eq!(neck_position(&profile, 58), at(1, 24));
    assert_eq!(neck_position(&profile, 69), at(12, 24));
    assert_eq!(neck_position(&profile, 81), at(24, 24));
    assert_eq!(neck_position(&profile, 56), None);
    assert_eq!(neck_position(&profile, 82), None);
}

#[test]
fn mapping_transposes_places_and_counts() {
    let segs = vec![segment(66), segment(59), segment(80), segment(72)];
    let (notes, outside) = map_segments(&segs, 2, &small_profile());
    assert_eq!(outside, 2);
    assert_eq!(notes.len(), 2);
    assert_eq!(notes[0].midi_note, 68);
    assert_eq!(Some(notes[0].neck_pos), at(8, 12));
    assert_eq!(notes[1].midi_note, 61);
    assert_eq!(Some(notes[1].neck_pos), at(1, 12));
    assert_eq!(notes[1].cents_sum, 7);
    assert_eq!(notes[1].frame_count, 3);
    assert_eq!(notes.len() + outside, segs.len());
}

#[test]
fn mapping_never_clamps_transposition_to_midi_range() {
    let mut profile = small_profile();
    profile.midi_min = 0;
    profile.midi_max = 127;
    profile.calibration = vec![(0, 0), (127, 1)];
    let (notes, outside) = map_segments(&[segment(127), segment(5), segment(120)], 12, &profile);
    assert_eq!(outside, 2);
    assert_eq!(notes.len(), 1);
    assert_eq!(notes[0].midi_note, 17);
    let (notes, outside) = map_segments(&[segment(5)], -12, &profile);
    assert_eq!(outside, 1);
    assert!(notes.is_empty());
}

#[test]
fn suggested_shift_prefers_smaller_and_earlier_ties() {
    assert_eq!(suggested_transpose(&[48, 84], &small_profile()), -12);
    assert_eq!(suggested_transpose(&[60, 65], &small_profile()), 0);
    assert_eq!(suggested_transpose(&[40, 42], &small_profile()), 24);
    assert_eq!(suggested_transpose(&[], &small_profile()), 0);
}

#[test]
fn analysis_reports_its_errors() {
    let options = AnalyzeOptions::default();
    assert_eq!(analyze_pitch_frames(&[], &options).err(), Some(AnalyzeError::NoMelodyDetected));
    let lone = steady(&[0], 6900);
    assert_eq!(analyze_pitch_frames(&lone, &options).err(), Some(AnalyzeError::NoPlayableNotes));
}

#[test]
fn analysis_places_a_steady_a4() {
    let frames = steady(&[0, 10, 20, 30, 40, 50, 60, 70, 80, 90, 100, 110], 6900);
    let result = analyze_pitch_frames(&frames, &AnalyzeOptions::default()).ok().unwrap();
    assert_eq!(result.suggested_transpose, 0);
    assert_eq!(result.out_of_range_count, 0);
    assert_eq!(result.notes.len(), 1);
    assert_eq!(result.notes[0].midi_note, 69);
    assert_eq!(Some(result.notes[0].neck_pos), at(12, 24));
    assert_eq!(result.notes[0].duration_us, 120_000);
    let mut shifted = AnalyzeOptions::default();
    shifted.transpose = 24;
    let result = analyze_pitch_frames(&frames, &shifted).ok().unwrap();
    assert_eq!(result.notes.len(), 0);
    assert_eq!(result.out_of_range_count, 1);
    assert_eq!(result.suggested_transpose, 0);
}

#[test]
fn default_options_match_the_documented_values() {
    let options = AnalyzeOptions::default();
    assert_eq!(options.frame_size, 2048);
    assert_eq!(options.hop_size, 512);
    assert_eq!(options.min_note_us, 80_000);
    assert_eq!(options.merge_gap_us, 40_000);
    assert_eq!(options.transpose, 0);
    assert_eq!(options.profile.calibration.len(), 25);
    assert_eq!(options.profile.name, "Standard Otamatone");
    assert_eq!(options.profile.calibration, OtamatoneProfile::default().calibration);
    assert_eq!(options.profile.neck_length, 24);
}

#[test]
fn errors_carry_their_messages() {
    assert_eq!(AnalyzeError::InvalidFrameLayout.message(), "Frame size and hop size must be positive");
    assert_eq!(AnalyzeError::AudioTooShort.message(), "Audio is shorter than the configured analysis frame size");
    assert_eq!(
        AnalyzeError::NoMelodyDetected.message(),
        "No melody could be detected with the current clarity and volume thresholds"
    );
    assert_eq!(AnalyzeError::NoPlayableNotes.message(), "No playable melody notes remained after post-processing");
    assert_eq!(FramingError::NonPositiveSize.message(), "Frame size and hop size must be positive");
}

#[test]
fn standard_neck_positions_rise_with_the_note() {
    let profile = OtamatoneProfile::default();
    let positions: Vec<NeckPosition> = (57..=81).map(|m| neck_position(&profile, m).unwrap()).collect();
    assert!(positions
        .windows(2)
        .all(|pair| pair[0].numerator * pair[1].denominator <= pair[1].numerator * pair[0].denominator));
}

#[test]
fn every_layout_frame_fits_the_samples() {
    let starts = frames(10_000, 2048, 512).unwrap();
    assert!(starts.iter().all(|start| start + 2048 <= 10_000));
    assert!(starts.last().unwrap() + 512 + 2048 > 10_000);
    assert_eq!(starts.len(), (10_000 - 2048) / 512 + 1);
}
