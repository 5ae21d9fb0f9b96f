use vstd::prelude::*;
use crate::model::{NoteEvent, OtamatoneProfile, PitchFrame, frames_in_range, MAX_TIME_US, MAX_CENTS};
use crate::mapping::otamatone::{
    neck_position, neck_position_spec, calibration_ascending, lemma_spanning_calibration_places_every_note,
};
use crate::analysis::median::{
    median_filter, median_spec, lemma_median_in_range, lemma_median_removes_single_outlier,
    lemma_median_keeps_steady_pitch,
};
use crate::analysis::octave::{correct_octave_jumps, octave_spec, octave_fix, lemma_no_leaps_no_change};
use crate::analysis::quantize::{quantize_notes, quantize_spec, lemma_held_note_range, nearest_note, lemma_steady_pitch_one_note};

verus! {

/// One note of the melody before transposition: where it starts, how long it
/// lasts, its MIDI note, and the pitch deviation of its frames from that note
/// (the sum over the frames of `pitch - 100 * midi_note`, in cents, and the
/// number of frames, whose quotient is the mean deviation).
#[derive(Clone, Copy, Debug, PartialEq, Eq)]
pub struct Segment {
    pub start_us: u64,
    pub duration_us: u64,
    pub midi_note: u8,
    pub cents_sum: i128,
    pub frame_count: usize,
}

/// The spacing of the frames: the time from the first frame to the second (0
/// when there are fewer than two frames or the second comes earlier).
pub open spec fn frame_step_spec(frames: Seq<PitchFrame>) -> int {
    if frames.len() > 1 && frames[1].time_us >= frames[0].time_us {
        frames[1].time_us - frames[0].time_us
    } else {
        0
    }
}

/// The frames segmentation works on: median-smoothed, then octave-corrected.
pub open spec fn smoothed(frames: Seq<PitchFrame>) -> Seq<PitchFrame> {
    octave_spec(median_spec(frames))
}

/// Frame `i` continues the note of frame `i - 1`: it holds the same note and
/// starts no later than `gap` after the previous frame's span ends.
pub open spec fn joins(fr: Seq<PitchFrame>, q: Seq<u8>, step: int, gap: int, i: int) -> bool {
    q[i] == q[i - 1] && fr[i].time_us <= fr[i - 1].time_us + step + gap
}

/// The runs of the first `m` frames: maximal index ranges `[a, b)` whose
/// consecutive frames join.
pub open spec fn runs(fr: Seq<PitchFrame>, q: Seq<u8>, step: int, gap: int, m: int) -> Seq<(int, int)>
    decreases m,
{
    if m <= 0 {
        Seq::empty()
    } else {
        let r = runs(fr, q, step, gap, m - 1);
        if m >= 2 && joins(fr, q, step, gap, m - 1) {
            r.update(r.len() - 1, (r.last().0, m))
        } else {
            r.push((m - 1, m))
        }
    }
}

/// Sum over frames `[a, b)` of their deviation from `note`, in cents.
pub open spec fn cents_total(fr: Seq<PitchFrame>, note: int, a: int, b: int) -> int
    decreases b - a,
{
    if b <= a {
        0
    } else {
        cents_total(fr, note, a, b - 1) + (fr[b - 1].pitch_cents - 100 * note)
    }
}

/// `later - earlier`, or 0 when `later` comes first.
pub open spec fn span(earlier: int, later: int) -> int {
    if later >= earlier { later - earlier } else { 0 }
}

/// The segment of run `[a, b)`: it starts at frame `a`, lasts from there to the
/// end of frame `b - 1`'s span, and holds frame `a`'s note.
pub open spec fn run_segment(fr: Seq<PitchFrame>, q: Seq<u8>, step: int, run: (int, int)) -> Segment {
    Segment {
        start_us: fr[run.0].time_us,
        duration_us: (span(fr[run.0].time_us as int, fr[run.1 - 1].time_us as int) + step) as u64,
        midi_note: q[run.0],
        cents_sum: cents_total(fr, q[run.0] as int, run.0, run.1) as i128,
        frame_count: (run.1 - run.0) as usize,
    }
}

/// Keeps a segment that lasts at least `min_us`.
pub open spec fn keep_if_long(min_us: int) -> spec_fn(Segment) -> Option<Segment> {
    |s: Segment| if s.duration_us >= min_us { Some(s) } else { None }
}

/// All segments of the run decomposition, before the short ones are dropped.
pub open spec fn all_segments(frames: Seq<PitchFrame>, gap: int) -> Seq<Segment> {
    let fr = smoothed(frames);
    let q = quantize_spec(fr);
    let step = frame_step_spec(frames);
    runs(fr, q, step, gap, fr.len() as int).map_values(|r: (int, int)| run_segment(fr, q, step, r))
}

/// The notes of a melody: frames are median-smoothed, octave-corrected and
/// quantised with hysteresis; consecutive frames holding the same note, with no
/// silence longer than `gap` between them, form one segment; segments shorter
/// than `min_us` are dropped.
pub open spec fn segments_spec(frames: Seq<PitchFrame>, min_us: int, gap: int) -> Seq<Segment> {
    all_segments(frames, gap).filter_map(keep_if_long(min_us))
}

/// Every pitch of `fr` lies within an octave of the in-range bound.
pub open spec fn cents_bounded(fr: Seq<PitchFrame>) -> bool {
    forall|k: int| 0 <= k < fr.len() ==> -1_001_200 <= #[trigger] fr[k].pitch_cents <= 1_001_200
}

/// The deviation sum of `[a, b)` is bounded by the frame count.
pub proof fn lemma_cents_total_bound(fr: Seq<PitchFrame>, note: int, a: int, b: int)
    requires
        0 <= a <= b <= fr.len(),
        0 <= note <= 127,
        cents_bounded(fr),
    ensures
        -2_000_000 * (b - a) <= cents_total(fr, note, a, b) <= 2_000_000 * (b - a),
    decreases b - a,
{
    if b > a {
        lemma_cents_total_bound(fr, note, a, b - 1);
        assert(-1_001_200 <= fr[b - 1].pitch_cents <= 1_001_200);
    }
}

/// Shape of the runs: they tile `[0, m)` in order.
pub proof fn lemma_runs_shape(fr: Seq<PitchFrame>, q: Seq<u8>, step: int, gap: int, m: int)
    requires
        m >= 1,
    ensures
        runs(fr, q, step, gap, m).len() >= 1,
        runs(fr, q, step, gap, m).last().1 == m,
        0 <= runs(fr, q, step, gap, m).last().0 < m,
        runs(fr, q, step, gap, m)[0].0 == 0,
        forall|r1: int, r2: int|
            0 <= r1 < r2 < runs(fr, q, step, gap, m).len() ==> #[trigger] runs(fr, q, step, gap, m)[r1].1
                <= #[trigger] runs(fr, q, step, gap, m)[r2].0,
        forall|r: int|
            0 <= r < runs(fr, q, step, gap, m).len() ==> #[trigger] runs(fr, q, step, gap, m)[r].0
                < runs(fr, q, step, gap, m)[r].1,
        forall|r: int|
            0 <= r < runs(fr, q, step, gap, m).len() - 1 ==> #[trigger] runs(fr, q, step, gap, m)[r].1
                == runs(fr, q, step, gap, m)[r + 1].0,
    decreases m,
{
    if m == 1 {
        assert(runs(fr, q, step, gap, 0) =~= Seq::<(int, int)>::empty());
        assert(runs(fr, q, step, gap, 1) =~= seq![(0int, 1int)]);
    } else {
        lemma_runs_shape(fr, q, step, gap, m - 1);
        let r = runs(fr, q, step, gap, m - 1);
        let rm = runs(fr, q, step, gap, m);
        if joins(fr, q, step, gap, m - 1) {
            assert(rm == r.update(r.len() - 1, (r.last().0, m)));
            assert forall|r1: int, r2: int| 0 <= r1 < r2 < rm.len() implies #[trigger] rm[r1].1
                <= #[trigger] rm[r2].0 by {
                assert(r[r1].1 <= r[r2].0);
            }
        } else {
            assert(rm == r.push((m - 1, m)));
            assert forall|r1: int, r2: int| 0 <= r1 < r2 < rm.len() implies #[trigger] rm[r1].1
                <= #[trigger] rm[r2].0 by {
                if r2 < r.len() {
                    assert(r[r1].1 <= r[r2].0);
                } else if r1 < r.len() - 1 {
                    assert(r[r1].1 <= r[r.len() - 1].0);
                }
            }
        }
    }
}

fn frame_step(frames: &[PitchFrame]) -> (step: u64)
    requires
        frames_in_range(frames@),
    ensures
        step == frame_step_spec(frames@),
        step <= MAX_TIME_US,
{
    if frames.len() > 1 && frames[1].time_us >= frames[0].time_us {
        assert(frames@[1].in_range());
        frames[1].time_us - frames[0].time_us
    } else {
        0
    }
}

/// Melody segmentation. The frames are median-smoothed, octave-corrected and
/// quantised to semitones with hysteresis; consecutive frames that hold the
/// same note and follow each other with at most `merge_gap_us` of silence form
/// one segment, which lasts from its first frame to one frame spacing after its
/// last; segments shorter than `min_note_us` are dropped.
pub fn segments(frames: &[PitchFrame], min_note_us: u64, merge_gap_us: u64) -> (segs: Vec<Segment>)
    requires
        frames_in_range(frames@),
    ensures
        segs@ == segments_spec(frames@, min_note_us as int, merge_gap_us as int),
{
    let n = frames.len();
    let step = frame_step(frames);
    let filtered = median_filter(frames);
    proof {
        lemma_median_in_range(frames@);
    }
    let fr = correct_octave_jumps(&filtered);
    let q = quantize_notes(&fr);
    let ghost fs = fr@;
    let ghost qs = q@;
    let ghost gap = merge_gap_us as int;
    let ghost stp = step as int;
    let ghost f = |r: (int, int)| run_segment(fs, qs, stp, r);
    proof {
        assert(fs == smoothed(frames@));
        assert forall|k: int| 0 <= k < n implies #[trigger] fs[k].time_us == frames@[k].time_us by {
            assert(median_spec(frames@)[k].in_range());
        }
        assert forall|k: int| 0 <= k < n implies -1_001_200 <= #[trigger] fs[k].pitch_cents <= 1_001_200 by {
            assert(median_spec(frames@)[k].in_range());
            assert(-1 <= octave_fix(median_spec(frames@), k) <= 1);
        }
        assert(cents_bounded(fs));
    }
    let mut all: Vec<Segment> = Vec::new();
    let mut run_start: usize = 0;
    let mut i: usize = 0;
    while i < n
        invariant
            n == frames@.len(),
            n == fs.len(),
            n == qs.len(),
            fs == fr@,
            qs == q@,
            qs == quantize_spec(fs),
            stp == step as int,
            step <= MAX_TIME_US,
            gap == merge_gap_us as int,
            f == (|r: (int, int)| run_segment(fs, qs, stp, r)),
            frames_in_range(frames@),
            forall|k: int| 0 <= k < n ==> #[trigger] fs[k].time_us == frames@[k].time_us,
            cents_bounded(fs),
            i <= n,
            all@ == runs(fs, qs, stp, gap, i as int).map_values(f),
            i > 0 ==> run_start == runs(fs, qs, stp, gap, i as int).last().0,
            forall|r: int| 0 <= r < all@.len() ==> {
                &&& #[trigger] all@[r].frame_count <= n
                &&& -2_000_000 * all@[r].frame_count <= all@[r].cents_sum <= 2_000_000 * all@[r].frame_count
            },
        decreases n - i,
    {
        proof {
            if i > 0 {
                lemma_runs_shape(fs, qs, stp, gap, i as int);
            }
            assert(frames@[i as int].in_range());
            lemma_held_note_range(fs, i as int);
        }
        let t = fr[i].time_us;
        let c = fr[i].pitch_cents as i128;
        let joined = if i > 0 && q[i] == q[i - 1] {
            assert(frames@[i - 1].in_range());
            let prev_end = fr[i - 1].time_us + step;
            t <= prev_end || t - prev_end <= merge_gap_us
        } else {
            false
        };
        let ghost old_runs = runs(fs, qs, stp, gap, i as int);
        if joined {
            let last = all.len() - 1;
            let seg = all[last];
            let start_t = fr[run_start].time_us;
            let dur = if t >= start_t { t - start_t } else { 0 };
            proof {
                assert(all@[last as int].frame_count <= n);
                assert(seg.midi_note == qs[run_start as int]);
                lemma_held_note_range(fs, run_start as int);
                lemma_cents_total_bound(fs, qs[run_start as int] as int, run_start as int, i as int);
                lemma_cents_total_bound(fs, qs[run_start as int] as int, run_start as int, i as int + 1);
                assert(seg.cents_sum == cents_total(fs, qs[run_start as int] as int, run_start as int, i as int));
            }
            let updated = Segment {
                start_us: seg.start_us,
                duration_us: dur + step,
                midi_note: seg.midi_note,
                cents_sum: seg.cents_sum + (c - 100 * seg.midi_note as i128),
                frame_count: seg.frame_count + 1,
            };
            all.set(last, updated);
            proof {
                let new_runs = runs(fs, qs, stp, gap, i as int + 1);
                assert(new_runs == old_runs.update(old_runs.len() - 1, (run_start as int, i as int + 1)));
                let target = f((run_start as int, i as int + 1));
                assert(updated.start_us == target.start_us);
                assert(updated.duration_us == target.duration_us);
                assert(updated.midi_note == target.midi_note);
                assert(updated.cents_sum == target.cents_sum);
                assert(updated.frame_count == target.frame_count);
                assert(updated == f((run_start as int, i as int + 1)));
                assert(all@ =~= new_runs.map_values(f));
            }
        } else {
            proof {
                lemma_held_note_range(fs, i as int);
            }
            let seg = Segment {
                start_us: t,
                duration_us: step,
                midi_note: q[i],
                cents_sum: c - 100 * q[i] as i128,
                frame_count: 1,
            };
            all.push(seg);
            run_start = i;
            proof {
                let new_runs = runs(fs, qs, stp, gap, i as int + 1);
                assert(new_runs == old_runs.push((i as int, i as int + 1)));
                assert(cents_total(fs, qs[i as int] as int, i as int, i as int) == 0);
                assert(seg == f((i as int, i as int + 1)));
                assert(all@ =~= new_runs.map_values(f));
            }
        }
        i = i + 1;
    }
    assert(all@ == all_segments(frames@, merge_gap_us as int));
    let ghost keep = keep_if_long(min_note_us as int);
    let mut segs: Vec<Segment> = Vec::new();
    let mut k: usize = 0;
    while k < all.len()
        invariant
            k <= all@.len(),
            keep == keep_if_long(min_note_us as int),
            segs@ == all@.take(k as int).filter_map(keep),
        decreases all@.len() - k,
    {
        assert(all@.take(k as int + 1).drop_last() =~= all@.take(k as int));
        let s = all[k];
        if s.duration_us >= min_note_us {
            segs.push(s);
        }
        k = k + 1;
        assert(segs@ =~= all@.take(k as int).filter_map(keep));
    }
    assert(all@.take(all@.len() as int) =~= all@);
    segs
}

/// The playable note of `seg` after transposition by `transpose` semitones, if
/// the shifted note is a MIDI note (0..=127, never clamped) with a place on the
/// neck of `profile`.
pub open spec fn place_segment(profile: OtamatoneProfile, transpose: int) -> spec_fn(Segment) -> Option<NoteEvent> {
    |seg: Segment| {
        let midi = seg.midi_note + transpose;
        if midi < 0 || midi > 127 {
            None
        } else {
            match neck_position_spec(profile, midi) {
                Some(pos) => Some(
                    NoteEvent {
                        start_us: seg.start_us,
                        duration_us: seg.duration_us,
                        midi_note: midi as u8,
                        cents_sum: seg.cents_sum,
                        frame_count: seg.frame_count,
                        neck_pos: pos,
                    },
                ),
                None => None,
            }
        }
    }
}

/// How many of `segs` have no place on the neck after transposition.
pub open spec fn unplaced_count(segs: Seq<Segment>, profile: OtamatoneProfile, transpose: int) -> nat
    decreases segs.len(),
{
    if segs.len() == 0 {
        0
    } else {
        unplaced_count(segs.drop_last(), profile, transpose) + if place_segment(profile, transpose)(
            segs.last(),
        ) is None {
            1nat
        } else {
            0nat
        }
    }
}

/// Transposes every segment by `transpose` semitones and places it on the neck
/// of `profile`; segments whose shifted note leaves the MIDI range 0..=127 (it
/// is never clamped) or has no neck position are left out and counted.
pub fn map_segments(segments: &[Segment], transpose: i8, profile: &OtamatoneProfile) -> (mapped: (
    Vec<NoteEvent>,
    usize,
))
    ensures
        mapped.0@ == segments@.filter_map(place_segment(*profile, transpose as int)),
        mapped.1 == unplaced_count(segments@, *profile, transpose as int),
{
    let ghost place = place_segment(*profile, transpose as int);
    let mut notes: Vec<NoteEvent> = Vec::new();
    let mut outside: usize = 0;
    let mut i: usize = 0;
    while i < segments.len()
        invariant
            i <= segments@.len(),
            place == place_segment(*profile, transpose as int),
            notes@ == segments@.take(i as int).filter_map(place),
            outside == unplaced_count(segments@.take(i as int), *profile, transpose as int),
            outside <= i,
        decreases segments@.len() - i,
    {
        assert(segments@.take(i as int + 1).drop_last() =~= segments@.take(i as int));
        let seg = segments[i];
        let shifted: i16 = seg.midi_note as i16 + transpose as i16;
        let position = if shifted < 0 || shifted > 127 {
            None
        } else {
            neck_position(profile, shifted as u8)
        };
        match position {
            Some(pos) => {
                notes.push(
                    NoteEvent {
                        start_us: seg.start_us,
                        duration_us: seg.duration_us,
                        midi_note: shifted as u8,
                        cents_sum: seg.cents_sum,
                        frame_count: seg.frame_count,
                        neck_pos: pos,
                    },
                );
            },
            None => {
                outside = outside + 1;
            },
        }
        i = i + 1;
        assert(notes@ =~= segments@.take(i as int).filter_map(place));
    }
    assert(segments@.take(segments@.len() as int) =~= segments@);
    (notes, outside)
}

/// Every segment is either placed on the neck or counted as out of range.
pub proof fn lemma_placed_or_counted(segs: Seq<Segment>, profile: OtamatoneProfile, transpose: int)
    ensures
        segs.filter_map(place_segment(profile, transpose)).len() + unplaced_count(segs, profile, transpose)
            == segs.len(),
    decreases segs.len(),
{
    if segs.len() > 0 {
        lemma_placed_or_counted(segs.drop_last(), profile, transpose);
    }
}

/// Dropping short segments keeps only segments that last at least `min_us`.
pub proof fn lemma_kept_long_enough(s: Seq<Segment>, min_us: int)
    ensures
        forall|k: int|
            0 <= k < s.filter_map(keep_if_long(min_us)).len() ==> #[trigger] s.filter_map(
                keep_if_long(min_us),
            )[k].duration_us >= min_us,
    decreases s.len(),
{
    if s.len() > 0 {
        let rest = s.drop_last();
        lemma_kept_long_enough(rest, min_us);
        let f = s.filter_map(keep_if_long(min_us));
        let fr = rest.filter_map(keep_if_long(min_us));
        if s.last().duration_us >= min_us {
            assert(f == fr + seq![s.last()]);
        } else {
            assert(f == fr);
        }
    }
}

/// Dropping short segments keeps the remaining ones in their order.
pub proof fn lemma_kept_in_order(s: Seq<Segment>, min_us: int)
    requires
        forall|i: int, j: int| 0 <= i < j < s.len() ==> #[trigger] s[i].start_us < #[trigger] s[j].start_us,
    ensures
        forall|i: int, j: int|
            0 <= i < j < s.filter_map(keep_if_long(min_us)).len() ==> #[trigger] s.filter_map(
                keep_if_long(min_us),
            )[i].start_us < #[trigger] s.filter_map(keep_if_long(min_us))[j].start_us,
        s.len() > 0 ==> forall|k: int|
            0 <= k < s.filter_map(keep_if_long(min_us)).len() ==> #[trigger] s.filter_map(
                keep_if_long(min_us),
            )[k].start_us <= s.last().start_us,
    decreases s.len(),
{
    if s.len() > 0 {
        let rest = s.drop_last();
        lemma_kept_in_order(rest, min_us);
        let f = s.filter_map(keep_if_long(min_us));
        let fr = rest.filter_map(keep_if_long(min_us));
        if rest.len() > 0 {
            assert(rest.last().start_us < s.last().start_us);
        } else {
            assert(fr.len() == 0);
        }
        assert forall|k: int| 0 <= k < fr.len() implies #[trigger] fr[k].start_us < s.last().start_us by {
        }
        if s.last().duration_us >= min_us {
            assert(f == fr + seq![s.last()]);
        } else {
            assert(f == fr);
        }
    }
}

/// Every segment lasts at least the minimum note length.
pub proof fn lemma_segments_long_enough(frames: Seq<PitchFrame>, min_us: int, gap: int)
    ensures
        forall|k: int|
            0 <= k < segments_spec(frames, min_us, gap).len() ==> #[trigger] segments_spec(
                frames,
                min_us,
                gap,
            )[k].duration_us >= min_us,
{
    lemma_kept_long_enough(all_segments(frames, gap), min_us);
}

/// When the frames come in time order, so do the segments.
pub proof fn lemma_segments_in_time_order(frames: Seq<PitchFrame>, min_us: int, gap: int)
    requires
        frames_in_range(frames),
        forall|i: int, j: int| 0 <= i < j < frames.len() ==> #[trigger] frames[i].time_us < #[trigger] frames[j].time_us,
    ensures
        forall|i: int, j: int|
            0 <= i < j < segments_spec(frames, min_us, gap).len() ==> #[trigger] segments_spec(
                frames,
                min_us,
                gap,
            )[i].start_us < #[trigger] segments_spec(frames, min_us, gap)[j].start_us,
{
    let fr = smoothed(frames);
    let q = quantize_spec(fr);
    let step = frame_step_spec(frames);
    let n = fr.len() as int;
    lemma_median_in_range(frames);
    assert forall|k: int| 0 <= k < n implies #[trigger] fr[k].time_us == frames[k].time_us by {
        assert(median_spec(frames)[k].in_range());
    }
    let all = all_segments(frames, gap);
    if n > 0 {
        lemma_runs_shape(fr, q, step, gap, n);
        let rs = runs(fr, q, step, gap, n);
        assert forall|r: int| 0 <= r < rs.len() implies 0 <= #[trigger] rs[r].0 < n by {
            if r < rs.len() - 1 {
                assert(rs[r].1 <= rs[rs.len() - 1].0);
            }
        }
        assert forall|i: int, j: int| 0 <= i < j < all.len() implies #[trigger] all[i].start_us
            < #[trigger] all[j].start_us by {
            assert(rs[i].0 < rs[i].1 <= rs[j].0);
            assert(all[i].start_us == fr[rs[i].0].time_us);
            assert(all[j].start_us == fr[rs[j].0].time_us);
            assert(frames[rs[i].0].time_us < frames[rs[j].0].time_us);
        }
    } else {
        assert(all.len() == 0);
    }
    lemma_kept_in_order(all, min_us);
}

proof fn lemma_runs_one(fr: Seq<PitchFrame>, q: Seq<u8>, step: int, gap: int, m: int)
    requires
        1 <= m,
        forall|i: int| 1 <= i < m ==> #[trigger] joins(fr, q, step, gap, i),
    ensures
        runs(fr, q, step, gap, m) == seq![(0int, m)],
    decreases m,
{
    if m == 1 {
        assert(runs(fr, q, step, gap, 0) =~= Seq::<(int, int)>::empty());
        assert(runs(fr, q, step, gap, 1) =~= seq![(0int, 1int)]);
    } else {
        lemma_runs_one(fr, q, step, gap, m - 1);
        assert(joins(fr, q, step, gap, m - 1));
        assert(runs(fr, q, step, gap, m) =~= seq![(0int, m)]);
    }
}

proof fn lemma_cents_total_steady(fr: Seq<PitchFrame>, note: int, c: int, b: int)
    requires
        0 <= b <= fr.len(),
        forall|i: int| 0 <= i < b ==> #[trigger] fr[i].pitch_cents == c,
    ensures
        cents_total(fr, note, 0, b) == b * (c - 100 * note),
    decreases b,
{
    if b == 0 {
        assert(0 * (c - 100 * note) == 0) by (nonlinear_arith);
    } else {
        lemma_cents_total_steady(fr, note, c, b - 1);
        assert(fr[b - 1].pitch_cents == c);
        assert(cents_total(fr, note, 0, b) == cents_total(fr, note, 0, b - 1) + (fr[b - 1].pitch_cents - 100
            * note));
        assert(b * (c - 100 * note) == (b - 1) * (c - 100 * note) + (c - 100 * note)) by (nonlinear_arith);
    }
}

proof fn lemma_times_rise(frames: Seq<PitchFrame>, step: int, j: int)
    requires
        0 <= j < frames.len(),
        step >= 0,
        forall|i: int| 0 < i < frames.len() ==> #[trigger] frames[i].time_us == frames[i - 1].time_us + step,
    ensures
        frames[j].time_us >= frames[0].time_us,
    decreases j,
{
    if j > 0 {
        lemma_times_rise(frames, step, j - 1);
    }
}

proof fn lemma_keep_single(seg: Segment, min_us: int)
    ensures
        seq![seg].filter_map(keep_if_long(min_us)) == (if seg.duration_us >= min_us {
            seq![seg]
        } else {
            Seq::<Segment>::empty()
        }),
{
    let one = seq![seg];
    let f = keep_if_long(min_us);
    assert(one.drop_last() =~= Seq::<Segment>::empty());
    assert(one.len() == 1);
    assert(one.last() == seg);
    assert(one.drop_last().filter_map(f) =~= Seq::<Segment>::empty());
    if seg.duration_us >= min_us {
        assert(f(seg) == Some(seg));
        assert(seq![seg].filter_map(keep_if_long(min_us)) =~= seq![seg]);
    } else {
        assert(f(seg) is None);
        assert(seq![seg].filter_map(keep_if_long(min_us)) =~= Seq::<Segment>::empty());
    }
}

proof fn lemma_smoothed_single_glitch(frames: Seq<PitchFrame>, c: i32, k: int)
    requires
        frames.len() >= 3,
        0 <= k < frames.len(),
        forall|i: int| 0 <= i < frames.len() && i != k ==> #[trigger] frames[i].pitch_cents == c,
    ensures
        smoothed(frames).len() == frames.len(),
        forall|i: int|
            0 <= i < frames.len() ==> #[trigger] smoothed(frames)[i].pitch_cents == c
                && smoothed(frames)[i].time_us == frames[i].time_us,
{
    let n = frames.len() as int;
    let fm = median_spec(frames);
    lemma_median_removes_single_outlier(frames, c, k);
    assert forall|i: int| 0 < i < n implies -1100 < #[trigger] fm[i].pitch_cents - fm[i - 1].pitch_cents
        < 1100 by {
        assert(fm[i] == (PitchFrame { time_us: frames[i].time_us, pitch_cents: c }));
        assert(fm[i - 1] == (PitchFrame { time_us: frames[i - 1].time_us, pitch_cents: c }));
    }
    lemma_no_leaps_no_change(fm);
    assert forall|i: int| 0 <= i < n implies #[trigger] smoothed(frames)[i].pitch_cents == c
        && smoothed(frames)[i].time_us == frames[i].time_us by {
        assert(fm[i] == (PitchFrame { time_us: frames[i].time_us, pitch_cents: c }));
    }
}

/// The run decomposition of a glitch-smoothed steady melody: one segment.
proof fn lemma_single_glitch_all_segments(
    frames: Seq<PitchFrame>,
    c: i32,
    k: int,
    step: int,
    gap: int,
)
    requires
        frames.len() >= 3,
        frames_in_range(frames),
        -MAX_CENTS <= c <= MAX_CENTS,
        0 <= k < frames.len(),
        forall|i: int| 0 <= i < frames.len() && i != k ==> #[trigger] frames[i].pitch_cents == c,
        step >= 0,
        gap >= 0,
        forall|i: int| 0 < i < frames.len() ==> #[trigger] frames[i].time_us == frames[i - 1].time_us + step,
    ensures
        all_segments(frames, gap) == seq![
            (Segment {
                start_us: frames[0].time_us,
                duration_us: (frames.last().time_us - frames[0].time_us + step) as u64,
                midi_note: nearest_note(c as int) as u8,
                cents_sum: (frames.len() * (c - 100 * nearest_note(c as int))) as i128,
                frame_count: frames.len() as usize,
            }),
        ],
{
    let n = frames.len() as int;
    lemma_smoothed_single_glitch(frames, c, k);
    let fr = smoothed(frames);
    let q = quantize_spec(fr);
    let note = nearest_note(c as int);
    assert forall|i: int| 0 <= i < n implies #[trigger] q[i] == note by {
        lemma_steady_pitch_one_note(fr, c, i);
    }
    let st = frame_step_spec(frames);
    assert(frames[1].time_us == frames[0].time_us + step);
    assert(st == step);
    assert forall|i: int| 1 <= i < n implies #[trigger] joins(fr, q, st, gap, i) by {
        assert(q[i] == note && q[i - 1] == note);
        assert(fr[i].time_us == frames[i].time_us);
        assert(fr[i - 1].time_us == frames[i - 1].time_us);
    }
    lemma_runs_one(fr, q, st, gap, n);
    lemma_cents_total_steady(fr, note, c as int, n);
    lemma_times_rise(frames, step, n - 1);
    let seg = run_segment(fr, q, st, (0int, n));
    assert(fr[n - 1].time_us == frames.last().time_us);
    assert(fr[0].time_us == frames[0].time_us);
    assert(all_segments(frames, gap) =~= seq![seg]);
    assert(seg == (Segment {
        start_us: frames[0].time_us,
        duration_us: (frames.last().time_us - frames[0].time_us + step) as u64,
        midi_note: note as u8,
        cents_sum: (n * (c - 100 * note)) as i128,
        frame_count: n as usize,
    }));
}

/// A single glitch does not split a note: frames evenly spaced by `step`, all at
/// pitch `c` but for one frame anywhere (at least three frames), form exactly
/// one segment on the nearest note of `c`, spanning every frame, with the
/// deviation of `c` summed over all frames; it is kept when it lasts at least
/// `min_us`.
#[verifier::rlimit(60)]
pub proof fn lemma_single_glitch_one_segment(
    frames: Seq<PitchFrame>,
    c: i32,
    k: int,
    step: int,
    min_us: int,
    gap: int,
)
    requires
        frames.len() >= 3,
        frames_in_range(frames),
        -MAX_CENTS <= c <= MAX_CENTS,
        0 <= k < frames.len(),
        forall|i: int| 0 <= i < frames.len() && i != k ==> #[trigger] frames[i].pitch_cents == c,
        step >= 0,
        gap >= 0,
        forall|i: int| 0 < i < frames.len() ==> #[trigger] frames[i].time_us == frames[i - 1].time_us + step,
    ensures
        segments_spec(frames, min_us, gap) == (if frames.last().time_us - frames[0].time_us + step
            >= min_us {
            seq![
                (Segment {
                    start_us: frames[0].time_us,
                    duration_us: (frames.last().time_us - frames[0].time_us + step) as u64,
                    midi_note: nearest_note(c as int) as u8,
                    cents_sum: (frames.len() * (c - 100 * nearest_note(c as int))) as i128,
                    frame_count: frames.len() as usize,
                }),
            ]
        } else {
            Seq::<Segment>::empty()
        }),
{
    lemma_single_glitch_all_segments(frames, c, k, step, gap);
    let n = frames.len() as int;
    lemma_times_rise(frames, step, n - 1);
    assert(frames[1].in_range());
    assert(frames[n - 1].in_range());
    assert(frames[1].time_us == frames[0].time_us + step);
    assert(0 <= frames.last().time_us - frames[0].time_us + step <= u64::MAX);
    lemma_keep_single(
        Segment {
            start_us: frames[0].time_us,
            duration_us: (frames.last().time_us - frames[0].time_us + step) as u64,
            midi_note: nearest_note(c as int) as u8,
            cents_sum: (frames.len() * (c - 100 * nearest_note(c as int))) as i128,
            frame_count: frames.len() as usize,
        },
        min_us,
    );
}

/// `note` keeps the timing and deviation of `seg`, and holds `seg`'s note moved
/// by `transpose` semitones.
pub open spec fn keeps_segment(note: NoteEvent, seg: Segment, transpose: int) -> bool {
    &&& note.start_us == seg.start_us
    &&& note.duration_us == seg.duration_us
    &&& note.cents_sum == seg.cents_sum
    &&& note.frame_count == seg.frame_count
    &&& note.midi_note == seg.midi_note + transpose
}

/// Placing notes keeps each segment's timing and deviation: every placed note
/// comes from a segment with the same start, duration, deviation sum and frame
/// count, and its note is that segment's note shifted by `transpose`.
pub proof fn lemma_placed_notes_keep_timing(segs: Seq<Segment>, profile: OtamatoneProfile, transpose: int)
    ensures
        forall|k: int|
            #![trigger segs.filter_map(place_segment(profile, transpose))[k]]
            0 <= k < segs.filter_map(place_segment(profile, transpose)).len() ==> exists|i: int|
                #![trigger segs[i]]
                0 <= i < segs.len() && keeps_segment(
                    segs.filter_map(place_segment(profile, transpose))[k],
                    segs[i],
                    transpose,
                ),
    decreases segs.len(),
{
    let f = place_segment(profile, transpose);
    if segs.len() > 0 {
        let rest = segs.drop_last();
        lemma_placed_notes_keep_timing(rest, profile, transpose);
        let fm = segs.filter_map(f);
        let fr = rest.filter_map(f);
        let last = segs.len() - 1;
        match f(segs.last()) {
            Some(x) => {
                assert(fm == fr + seq![x]);
            },
            None => {
                assert(fm == fr);
            },
        }
        assert forall|k: int|
            #![trigger segs.filter_map(place_segment(profile, transpose))[k]]
            0 <= k < segs.filter_map(place_segment(profile, transpose)).len() implies exists|i: int|
                #![trigger segs[i]]
                0 <= i < segs.len() && keeps_segment(
                    segs.filter_map(place_segment(profile, transpose))[k],
                    segs[i],
                    transpose,
                ) by {
            assert(fm == segs.filter_map(place_segment(profile, transpose)));
            if k < fr.len() {
                assert(fm[k] == fr[k]);
                let i = choose|i: int| #![trigger rest[i]] 0 <= i < rest.len() && keeps_segment(fr[k], rest[i], transpose);
                assert(rest[i] == segs[i]);
                assert(keeps_segment(fm[k], segs[i], transpose));
            } else {
                assert(f(segs.last()) is Some);
                assert(fm[k] == f(segs.last()).unwrap());
                assert(segs[last] == segs.last());
                assert(keeps_segment(fm[k], segs[last], transpose));
            }
        }
    }
}

/// Runs never cross a frame that does not join its predecessor.
proof fn lemma_runs_split_at(fr: Seq<PitchFrame>, q: Seq<u8>, step: int, gap: int, m: int, i: int)
    requires
        1 <= i,
        !joins(fr, q, step, gap, i),
    ensures
        forall|r: int|
            0 <= r < runs(fr, q, step, gap, m).len() ==> #[trigger] runs(fr, q, step, gap, m)[r].1 <= i
                || runs(fr, q, step, gap, m)[r].0 >= i,
    decreases m,
{
    if m > 0 {
        lemma_runs_split_at(fr, q, step, gap, m - 1, i);
        let r = runs(fr, q, step, gap, m - 1);
        let rm = runs(fr, q, step, gap, m);
        if m >= 2 && joins(fr, q, step, gap, m - 1) {
            lemma_runs_shape(fr, q, step, gap, m - 1);
            assert(rm == r.update(r.len() - 1, (r.last().0, m)));
            assert(r[r.len() - 1].1 <= i || r[r.len() - 1].0 >= i);
        } else {
            assert(rm == r.push((m - 1, m)));
        }
    }
}

/// Every element of the kept segments is one of the segments it was kept from.
proof fn lemma_kept_from(s: Seq<Segment>, min_us: int)
    ensures
        forall|k: int|
            #![trigger s.filter_map(keep_if_long(min_us))[k]]
            0 <= k < s.filter_map(keep_if_long(min_us)).len() ==> exists|j: int|
                #![trigger s[j]]
                0 <= j < s.len() && s.filter_map(keep_if_long(min_us))[k] == s[j],
    decreases s.len(),
{
    if s.len() > 0 {
        let rest = s.drop_last();
        lemma_kept_from(rest, min_us);
        let f = s.filter_map(keep_if_long(min_us));
        let fr = rest.filter_map(keep_if_long(min_us));
        if s.last().duration_us >= min_us {
            assert(f == fr + seq![s.last()]);
        } else {
            assert(f == fr);
        }
        assert forall|k: int|
            #![trigger s.filter_map(keep_if_long(min_us))[k]]
            0 <= k < s.filter_map(keep_if_long(min_us)).len() implies exists|j: int|
                #![trigger s[j]]
                0 <= j < s.len() && s.filter_map(keep_if_long(min_us))[k] == s[j] by {
            if k < fr.len() {
                assert(f[k] == fr[k]);
                let j = choose|j: int| #![trigger rest[j]] 0 <= j < rest.len() && fr[k] == rest[j];
                assert(rest[j] == s[j]);
            } else {
                assert(s[s.len() - 1] == s.last());
            }
        }
    }
}

/// Smoothing keeps every frame's time.
proof fn lemma_smoothed_times(frames: Seq<PitchFrame>)
    ensures
        smoothed(frames).len() == frames.len(),
        forall|k: int| 0 <= k < frames.len() ==> #[trigger] smoothed(frames)[k].time_us == frames[k].time_us,
{
    let m = median_spec(frames);
    assert forall|k: int| 0 <= k < frames.len() implies #[trigger] smoothed(frames)[k].time_us
        == frames[k].time_us by {
        assert(m[k].time_us == frames[k].time_us);
    }
}

/// A run that lies wholly before frame `i` ends within one spacing after frame
/// `i - 1`; one that lies wholly from frame `i` on starts at or after it.
proof fn lemma_run_avoids_silence(
    frames: Seq<PitchFrame>,
    fr: Seq<PitchFrame>,
    q: Seq<u8>,
    step: int,
    i: int,
    a: int,
    b: int,
)
    requires
        frames_in_range(frames),
        forall|x: int, y: int| 0 <= x < y < frames.len() ==> #[trigger] frames[x].time_us < #[trigger] frames[y].time_us,
        fr.len() == frames.len(),
        forall|k: int| 0 <= k < frames.len() ==> #[trigger] fr[k].time_us == frames[k].time_us,
        1 <= i < frames.len(),
        0 <= a < b <= frames.len(),
        b <= i || a >= i,
        0 <= step <= MAX_TIME_US,
    ensures
        run_segment(fr, q, step, (a, b)).start_us >= frames[i].time_us || run_segment(fr, q, step, (a, b)).start_us
            + run_segment(fr, q, step, (a, b)).duration_us <= frames[i - 1].time_us + step,
{
    assert(fr[a].time_us == frames[a].time_us);
    assert(fr[b - 1].time_us == frames[b - 1].time_us);
    assert(frames[a].in_range() && frames[b - 1].in_range());
    if b <= i {
        if a < b - 1 {
            assert(frames[a].time_us < frames[b - 1].time_us);
        }
        if b - 1 < i - 1 {
            assert(frames[b - 1].time_us < frames[i - 1].time_us);
        }
    } else if a > i {
        assert(frames[i].time_us < frames[a].time_us);
    }
}

/// A silence longer than the merge gap ends every note: when the frames come
/// in time order and frame `i` starts more than one frame spacing plus `gap`
/// after frame `i - 1`, every segment either starts at or after frame `i` or
/// ends within one frame spacing after frame `i - 1`; no segment bridges the
/// silence.
pub proof fn lemma_silence_splits_notes(frames: Seq<PitchFrame>, min_us: int, gap: int, i: int)
    requires
        frames_in_range(frames),
        forall|a: int, b: int| 0 <= a < b < frames.len() ==> #[trigger] frames[a].time_us < #[trigger] frames[b].time_us,
        1 <= i < frames.len(),
        frames[i].time_us > frames[i - 1].time_us + (frames[1].time_us - frames[0].time_us) + gap,
    ensures
        forall|k: int|
            0 <= k < segments_spec(frames, min_us, gap).len() ==> #[trigger] segments_spec(
                frames,
                min_us,
                gap,
            )[k].start_us >= frames[i].time_us || segments_spec(frames, min_us, gap)[k].start_us
                + segments_spec(frames, min_us, gap)[k].duration_us <= frames[i - 1].time_us + (
            frames[1].time_us - frames[0].time_us),
{
    let n = frames.len() as int;
    let fr = smoothed(frames);
    let q = quantize_spec(fr);
    let step = frame_step_spec(frames);
    assert(frames[0].time_us < frames[1].time_us);
    assert(frames[0].in_range() && frames[1].in_range());
    assert(step == frames[1].time_us - frames[0].time_us);
    lemma_smoothed_times(frames);
    assert(!joins(fr, q, step, gap, i));
    lemma_runs_split_at(fr, q, step, gap, n, i);
    lemma_runs_shape(fr, q, step, gap, n);
    let rs = runs(fr, q, step, gap, n);
    let all = all_segments(frames, gap);
    assert forall|j: int| 0 <= j < all.len() implies #[trigger] all[j].start_us >= frames[i].time_us
        || all[j].start_us + all[j].duration_us <= frames[i - 1].time_us + step by {
        if j > 0 {
            assert(rs[0].1 <= rs[j].0);
            assert(rs[0].0 < rs[0].1);
        }
        if j < rs.len() - 1 {
            assert(rs[j].1 <= rs[rs.len() - 1].0);
        }
        assert(all[j] == run_segment(fr, q, step, rs[j]));
        lemma_run_avoids_silence(frames, fr, q, step, i, rs[j].0, rs[j].1);
    }
    lemma_kept_from(all, min_us);
    let segs = segments_spec(frames, min_us, gap);
    assert forall|k: int| 0 <= k < segs.len() implies #[trigger] segs[k].start_us >= frames[i].time_us
        || segs[k].start_us + segs[k].duration_us <= frames[i - 1].time_us + step by {
        let j = choose|j: int| #![trigger all[j]] 0 <= j < all.len() && segs[k] == all[j];
    }
}

/// A short silence does not split a note: frames in time order, all at pitch
/// `c`, each starting at most one frame spacing plus `gap` after the one
/// before, form exactly one segment on the nearest note of `c`, from the first
/// frame to one spacing after the last, with the deviation of `c` summed over
/// all frames; it is kept when it lasts at least `min_us`.
#[verifier::rlimit(40)]
pub proof fn lemma_short_silence_bridged(frames: Seq<PitchFrame>, c: i32, min_us: int, gap: int)
    requires
        frames.len() >= 2,
        frames_in_range(frames),
        -MAX_CENTS <= c <= MAX_CENTS,
        forall|i: int| 0 <= i < frames.len() ==> #[trigger] frames[i].pitch_cents == c,
        forall|a: int, b: int| 0 <= a < b < frames.len() ==> #[trigger] frames[a].time_us < #[trigger] frames[b].time_us,
        forall|i: int|
            1 <= i < frames.len() ==> #[trigger] frames[i].time_us <= frames[i - 1].time_us + (frames[1].time_us
                - frames[0].time_us) + gap,
    ensures
        segments_spec(frames, min_us, gap) == (if frames.last().time_us - frames[0].time_us + (
        frames[1].time_us - frames[0].time_us) >= min_us {
            seq![
                (Segment {
                    start_us: frames[0].time_us,
                    duration_us: (frames.last().time_us - frames[0].time_us + (frames[1].time_us
                        - frames[0].time_us)) as u64,
                    midi_note: nearest_note(c as int) as u8,
                    cents_sum: (frames.len() * (c - 100 * nearest_note(c as int))) as i128,
                    frame_count: frames.len() as usize,
                }),
            ]
        } else {
            Seq::<Segment>::empty()
        }),
{
    let n = frames.len() as int;
    lemma_median_keeps_steady_pitch(frames, c);
    assert forall|k: int| 0 < k < n implies -1100 < #[trigger] frames[k].pitch_cents - frames[k - 1].pitch_cents
        < 1100 by {
        assert(frames[k - 1].pitch_cents == c);
    }
    lemma_no_leaps_no_change(frames);
    let fr = smoothed(frames);
    assert(fr == frames);
    let q = quantize_spec(fr);
    let note = nearest_note(c as int);
    assert forall|i: int| 0 <= i < n implies #[trigger] q[i] == note by {
        lemma_steady_pitch_one_note(fr, c, i);
    }
    let step = frame_step_spec(frames);
    assert(frames[0].time_us < frames[1].time_us);
    assert(frames[0].in_range() && frames[1].in_range() && frames[n - 1].in_range());
    assert(step == frames[1].time_us - frames[0].time_us);
    assert forall|i: int| 1 <= i < n implies #[trigger] joins(fr, q, step, gap, i) by {
        assert(q[i] == note && q[i - 1] == note);
    }
    lemma_runs_one(fr, q, step, gap, n);
    lemma_cents_total_steady(fr, note, c as int, n);
    assert(frames[0].time_us < frames[n - 1].time_us);
    let seg = Segment {
        start_us: frames[0].time_us,
        duration_us: (frames.last().time_us - frames[0].time_us + step) as u64,
        midi_note: note as u8,
        cents_sum: (n * (c - 100 * note)) as i128,
        frame_count: n as usize,
    };
    assert(run_segment(fr, q, step, (0int, n)) == seg);
    assert(all_segments(frames, gap) =~= seq![seg]);
    lemma_keep_single(seg, min_us);
}

} // verus!
