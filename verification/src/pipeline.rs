use vstd::prelude::*;
use crate::model::{NoteEvent, OtamatoneProfile, PitchFrame, frames_in_range, default_calibration_point};
use crate::analysis::framing::{frames, frame_starts};
use crate::analysis::postprocess::{
    Segment, segments, segments_spec, map_segments, place_segment, unplaced_count,
    lemma_placed_or_counted,
};
use crate::analysis::transpose::{
    suggested_transpose, is_suggested_shift, candidate_shifts,
    lemma_suggested_fits_every_note_when_possible,
};

verus! {

/// Why an analysis produced no notes.
#[derive(Clone, Copy, Debug, PartialEq, Eq)]
pub enum AnalyzeError {
    /// The frame size or hop size is zero.
    InvalidFrameLayout,
    /// The audio is shorter than one analysis frame.
    AudioTooShort,
    /// No frame was voiced clearly and loudly enough.
    NoMelodyDetected,
    /// Every segment was shorter than the minimum note length.
    NoPlayableNotes,
}

/// The message reported for each analysis error.
pub open spec fn analyze_error_text(error: AnalyzeError) -> Seq<char> {
    match error {
        AnalyzeError::InvalidFrameLayout => "Frame size and hop size must be positive"@,
        AnalyzeError::AudioTooShort => "Audio is shorter than the configured analysis frame size"@,
        AnalyzeError::NoMelodyDetected => "No melody could be detected with the current clarity and volume thresholds"@,
        AnalyzeError::NoPlayableNotes => "No playable melody notes remained after post-processing"@,
    }
}

impl AnalyzeError {
    /// The message reported for this error.
    pub fn message(&self) -> (text: String)
        ensures
            text@ == analyze_error_text(*self),
    {
        match self {
            AnalyzeError::InvalidFrameLayout => "Frame size and hop size must be positive".to_owned(),
            AnalyzeError::AudioTooShort => "Audio is shorter than the configured analysis frame size".to_owned(),
            AnalyzeError::NoMelodyDetected => "No melody could be detected with the current clarity and volume thresholds".to_owned(),
            AnalyzeError::NoPlayableNotes => "No playable melody notes remained after post-processing".to_owned(),
        }
    }
}

/// The analysis parameters the note pipeline reads (durations in microseconds).
pub struct AnalyzeOptions {
    pub frame_size: usize,
    pub hop_size: usize,
    pub min_note_us: u64,
    pub merge_gap_us: u64,
    pub transpose: i8,
    pub profile: OtamatoneProfile,
}

impl Default for AnalyzeOptions {
    /// 2048-sample frames every 512 samples, notes of at least 80 ms, same-note
    /// gaps of up to 40 ms bridged, no transposition, the standard profile.
    fn default() -> (options: Self)
        ensures
            options.frame_size == 2048,
            options.hop_size == 512,
            options.min_note_us == 80_000,
            options.merge_gap_us == 40_000,
            options.transpose == 0,
            options.profile.name@ == "Standard Otamatone"@,
            options.profile.midi_min == 57,
            options.profile.midi_max == 81,
            options.profile.neck_length == 24,
            options.profile.calibration@.len() == 25,
            forall|k: int|
                0 <= k < 25 ==> #[trigger] options.profile.calibration@[k] == default_calibration_point(k),
    {
        AnalyzeOptions {
            frame_size: 2048,
            hop_size: 512,
            min_note_us: 80_000,
            merge_gap_us: 40_000,
            transpose: 0,
            profile: OtamatoneProfile::default(),
        }
    }
}

/// The notes of an analysis, the suggested octave shift and how many notes had
/// no place on the neck.
pub struct AnalysisResult {
    pub notes: Vec<NoteEvent>,
    pub suggested_transpose: i8,
    pub out_of_range_count: usize,
}

/// The frame layout an analysis of `sample_count` samples uses: an error for a
/// zero frame or hop size, or for audio shorter than one frame; otherwise the
/// (non-empty) frame start offsets.
pub fn frame_layout(sample_count: usize, options: &AnalyzeOptions) -> (layout: Result<
    Vec<usize>,
    AnalyzeError,
>)
    ensures
        layout is Ok <==> (options.frame_size > 0 && options.hop_size > 0 && sample_count
            >= options.frame_size),
        (options.frame_size == 0 || options.hop_size == 0) <==> layout == Err::<
            Vec<usize>,
            AnalyzeError,
        >(AnalyzeError::InvalidFrameLayout),
        (options.frame_size > 0 && options.hop_size > 0 && sample_count < options.frame_size)
            <==> layout == Err::<Vec<usize>, AnalyzeError>(AnalyzeError::AudioTooShort),
        layout matches Ok(starts) ==> starts@ == frame_starts(
            sample_count as int,
            options.frame_size as int,
            options.hop_size as int,
        ) && starts@.len() > 0,
{
    match frames(sample_count, options.frame_size, options.hop_size) {
        Err(_) => Err(AnalyzeError::InvalidFrameLayout),
        Ok(starts) => {
            if starts.len() == 0 {
                Err(AnalyzeError::AudioTooShort)
            } else {
                Ok(starts)
            }
        },
    }
}

/// The MIDI notes of `segs`.
pub open spec fn segment_notes(segs: Seq<Segment>) -> Seq<u8> {
    segs.map_values(|s: Segment| s.midi_note)
}

/// The notes the suggested shift is fitted to are those of every kept segment:
/// one per segment, in segment order.
pub proof fn lemma_segment_notes_one_per_segment(segs: Seq<Segment>)
    ensures
        segment_notes(segs).len() == segs.len(),
        forall|i: int| 0 <= i < segs.len() ==> #[trigger] segment_notes(segs)[i] == segs[i].midi_note,
{
}

/// The suggested shift is fitted to every kept segment: when some candidate
/// octave shift puts the note of every segment inside `min..=max`, the
/// suggested shift does too, for every segment, the last one included.
pub proof fn lemma_suggested_shift_fits_every_segment(
    segs: Seq<Segment>,
    min: int,
    max: int,
    shift: int,
    k_fit: int,
)
    requires
        is_suggested_shift(segment_notes(segs), min, max, shift),
        0 <= k_fit < 5,
        forall|i: int| 0 <= i < segs.len() ==> min <= #[trigger] segs[i].midi_note + candidate_shifts()[k_fit] <= max,
    ensures
        forall|i: int| 0 <= i < segs.len() ==> min <= #[trigger] segs[i].midi_note + shift <= max,
{
    let notes = segment_notes(segs);
    lemma_segment_notes_one_per_segment(segs);
    assert forall|i: int| 0 <= i < notes.len() implies min <= #[trigger] notes[i] + candidate_shifts()[k_fit] <= max by {
        assert(notes[i] == segs[i].midi_note);
    }
    lemma_suggested_fits_every_note_when_possible(notes, min, max, shift, k_fit);
    assert forall|i: int| 0 <= i < segs.len() implies min <= #[trigger] segs[i].midi_note + shift <= max by {
        assert(notes[i] == segs[i].midi_note);
    }
}

/// Turns the voiced frames of an analysis into playable notes: an error when
/// there are no frames or no segment is long enough; otherwise the segments,
/// transposed by `options.transpose` and placed on the neck, the octave shift
/// that best fits the untransposed segments into the profile's range, and the
/// number of segments that found no place on the neck.
pub fn analyze_pitch_frames(frames: &[PitchFrame], options: &AnalyzeOptions) -> (result: Result<
    AnalysisResult,
    AnalyzeError,
>)
    requires
        frames_in_range(frames@),
    ensures
        result is Ok <==> (frames@.len() > 0 && segments_spec(
            frames@,
            options.min_note_us as int,
            options.merge_gap_us as int,
        ).len() > 0),
        frames@.len() == 0 <==> result == Err::<AnalysisResult, AnalyzeError>(
            AnalyzeError::NoMelodyDetected,
        ),
        (frames@.len() > 0 && segments_spec(
            frames@,
            options.min_note_us as int,
            options.merge_gap_us as int,
        ).len() == 0) <==> result == Err::<AnalysisResult, AnalyzeError>(
            AnalyzeError::NoPlayableNotes,
        ),
        result matches Ok(r) ==> {
            let segs = segments_spec(frames@, options.min_note_us as int, options.merge_gap_us as int);
            &&& r.notes@ == segs.filter_map(place_segment(options.profile, options.transpose as int))
            &&& r.out_of_range_count == unplaced_count(
                segs,
                options.profile,
                options.transpose as int,
            )
            &&& is_suggested_shift(
                segment_notes(segs),
                options.profile.midi_min as int,
                options.profile.midi_max as int,
                r.suggested_transpose as int,
            )
            &&& r.notes@.len() + r.out_of_range_count == segs.len()
        },
{
    if frames.len() == 0 {
        return Err(AnalyzeError::NoMelodyDetected);
    }
    let segs = segments(frames, options.min_note_us, options.merge_gap_us);
    if segs.len() == 0 {
        return Err(AnalyzeError::NoPlayableNotes);
    }
    let mut pitches: Vec<u8> = Vec::new();
    let mut i: usize = 0;
    while i < segs.len()
        invariant
            i <= segs@.len(),
            pitches@ == segment_notes(segs@.take(i as int)),
        decreases segs@.len() - i,
    {
        pitches.push(segs[i].midi_note);
        i = i + 1;
        assert(pitches@ =~= segment_notes(segs@.take(i as int)));
    }
    assert(segs@.take(segs@.len() as int) =~= segs@);
    let suggested = suggested_transpose(&pitches, &options.profile);
    let (notes, out_of_range_count) = map_segments(&segs, options.transpose, &options.profile);
    proof {
        lemma_placed_or_counted(segs@, options.profile, options.transpose as int);
    }
    Ok(AnalysisResult { notes, suggested_transpose: suggested, out_of_range_count })
}

} // verus!
