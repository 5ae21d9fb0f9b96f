use vstd::prelude::*;

verus! {

/// Largest frame time the arithmetic on times is laid out for (about 146 000 years).
pub const MAX_TIME_US: u64 = 0x3fff_ffff_ffff_ffff;

/// Largest pitch magnitude, in cents, the arithmetic on pitches is laid out for
/// (ten thousand semitones either side of MIDI note 0).
pub const MAX_CENTS: i32 = 1_000_000;

/// One voiced analysis frame: its centre time and its detected pitch, in cents
/// above MIDI note 0 (MIDI note `m` is `100 * m` cents; A4 = 440 Hz is 6900).
#[derive(Clone, Copy, Debug, PartialEq, Eq)]
pub struct PitchFrame {
    pub time_us: u64,
    pub pitch_cents: i32,
}

impl PitchFrame {
    /// The frame's time and pitch lie in the ranges the arithmetic is laid out for.
    pub open spec fn in_range(self) -> bool {
        &&& self.time_us <= MAX_TIME_US
        &&& -MAX_CENTS <= self.pitch_cents <= MAX_CENTS
    }
}

/// Every frame of `frames` is in range.
pub open spec fn frames_in_range(frames: Seq<PitchFrame>) -> bool {
    forall|i: int| 0 <= i < frames.len() ==> #[trigger] frames[i].in_range()
}

/// Playable range and neck calibration of one Otamatone model.
pub struct OtamatoneProfile {
    pub name: String,
    pub midi_min: u8,
    pub midi_max: u8,
    /// The unit of calibration positions: a position `p` lies `p / neck_length`
    /// of the way from the open end (lowest note) to the tip (highest note).
    pub neck_length: u32,
    /// `(midi_note, neck_position)` calibration points; positions between two
    /// points are interpolated linearly.
    pub calibration: Vec<(u8, u32)>,
}

/// An exact place on the neck: `numerator / denominator` of the way from the
/// open end to the tip.
#[derive(Clone, Copy, Debug, PartialEq, Eq)]
pub struct NeckPosition {
    pub numerator: u64,
    pub denominator: u64,
}

/// The default calibration: one point per semitone from A3 (MIDI 57) to A5
/// (MIDI 81), evenly spaced along a neck 24 semitones long.
pub open spec fn default_calibration_point(k: int) -> (u8, u32) {
    ((57 + k) as u8, k as u32)
}

impl Default for OtamatoneProfile {
    /// A standard Otamatone: A3 to A5, calibrated linearly in MIDI note.
    fn default() -> (profile: Self)
        ensures
            profile.name@ == "Standard Otamatone"@,
            profile.midi_min == 57,
            profile.midi_max == 81,
            profile.neck_length == 24,
            profile.calibration@.len() == 25,
            forall|k: int|
                0 <= k < 25 ==> #[trigger] profile.calibration@[k] == default_calibration_point(k),
    {
        let mut calibration: Vec<(u8, u32)> = Vec::new();
        let mut k: u32 = 0;
        while k < 25
            invariant
                k <= 25,
                calibration@.len() == k,
                forall|j: int| 0 <= j < k ==> #[trigger] calibration@[j] == default_calibration_point(j),
            decreases 25 - k,
        {
            calibration.push(((57 + k) as u8, k));
            k = k + 1;
        }
        OtamatoneProfile {
            name: "Standard Otamatone".to_owned(),
            midi_min: 57,
            midi_max: 81,
            neck_length: 24,
            calibration,
        }
    }
}

/// One playable note: timing and deviation of its segment, the transposed MIDI
/// note, and where on the neck it is pressed.
#[derive(Clone, Copy, Debug, PartialEq, Eq)]
pub struct NoteEvent {
    pub start_us: u64,
    pub duration_us: u64,
    pub midi_note: u8,
    pub cents_sum: i128,
    pub frame_count: usize,
    pub neck_pos: NeckPosition,
}

} // verus!
