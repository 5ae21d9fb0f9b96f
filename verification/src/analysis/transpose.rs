use vstd::prelude::*;
use crate::model::OtamatoneProfile;

verus! {

/// The octave shifts tried when fitting a melody into the instrument's range,
/// in the order in which ties are resolved.
pub open spec fn candidate_shifts() -> Seq<int> {
    seq![-24, -12, 0, 12, 24]
}

/// Whether `note` shifted by `shift` semitones falls outside `[min, max]`.
pub open spec fn shifted_outside(note: int, shift: int, min: int, max: int) -> bool {
    note + shift < min || note + shift > max
}

/// How many of `notes` fall outside `[min, max]` after shifting by `shift`.
pub open spec fn outside_count(notes: Seq<u8>, shift: int, min: int, max: int) -> nat
    decreases notes.len(),
{
    if notes.len() == 0 {
        0
    } else {
        outside_count(notes.drop_last(), shift, min, max)
            + if shifted_outside(notes.last() as int, shift, min, max) { 1nat } else { 0nat }
    }
}

/// `a` ranks strictly before `b`: fewer notes outside the range, or as many and a
/// smaller shift.
pub open spec fn better_fit(out_a: nat, shift_a: int, out_b: nat, shift_b: int) -> bool {
    out_a < out_b || (out_a == out_b && abs(shift_a) < abs(shift_b))
}

pub open spec fn abs(x: int) -> int {
    if x < 0 { -x } else { x }
}

/// The shift that `suggested_transpose` picks: the first candidate whose
/// (notes outside, size of shift) is smallest.
pub open spec fn is_suggested_shift(notes: Seq<u8>, min: int, max: int, shift: int) -> bool {
    exists|k: int|
        0 <= k < 5 && #[trigger] candidate_shifts()[k] == shift && {
            &&& forall|j: int|
                0 <= j < k ==> better_fit(
                    outside_count(notes, shift, min, max),
                    shift,
                    outside_count(notes, candidate_shifts()[j], min, max),
                    candidate_shifts()[j],
                )
            &&& forall|j: int|
                k < j < 5 ==> !better_fit(
                    outside_count(notes, candidate_shifts()[j], min, max),
                    candidate_shifts()[j],
                    outside_count(notes, shift, min, max),
                    shift,
                )
        }
}

fn count_outside(notes: &[u8], shift: i8, min: u8, max: u8) -> (count: usize)
    ensures
        count == outside_count(notes@, shift as int, min as int, max as int),
{
    let mut count: usize = 0;
    let mut i: usize = 0;
    while i < notes.len()
        invariant
            i <= notes.len(),
            count == outside_count(notes@.take(i as int), shift as int, min as int, max as int),
            count <= i,
        decreases notes.len() - i,
    {
        assert(notes@.take(i as int + 1).drop_last() =~= notes@.take(i as int));
        let shifted: i16 = notes[i] as i16 + shift as i16;
        if shifted < min as i16 || shifted > max as i16 {
            count = count + 1;
        }
        i = i + 1;
    }
    assert(notes@.take(notes.len() as int) =~= notes@);
    count
}

/// The octave shift (one of -24, -12, 0, 12, 24 semitones) that leaves the
/// fewest of `notes` outside the profile's playable range; among equally good
/// shifts the smaller one, and among those the first in that order.
pub fn suggested_transpose(notes: &[u8], profile: &OtamatoneProfile) -> (shift: i8)
    ensures
        is_suggested_shift(notes@, profile.midi_min as int, profile.midi_max as int, shift as int),
{
    let ghost min = profile.midi_min as int;
    let ghost max = profile.midi_max as int;
    let shifts: [i8; 5] = [-24, -12, 0, 12, 24];
    assert(forall|k: int| 0 <= k < 5 ==> shifts@[k] as int == #[trigger] candidate_shifts()[k]);
    let mut best: i8 = shifts[0];
    let mut best_out: usize = count_outside(notes, best, profile.midi_min, profile.midi_max);
    let mut best_k: usize = 0;
    let mut k: usize = 1;
    while k < 5
        invariant
            1 <= k <= 5,
            best_k < k,
            shifts@.len() == 5,
            forall|k: int| 0 <= k < 5 ==> shifts@[k] as int == #[trigger] candidate_shifts()[k],
            forall|k: int| 0 <= k < 5 ==> -24 <= #[trigger] shifts@[k] <= 24,
            best == shifts@[best_k as int],
            best_out == outside_count(notes@, best as int, min, max),
            min == profile.midi_min as int,
            max == profile.midi_max as int,
            forall|j: int|
                0 <= j < best_k ==> better_fit(
                    outside_count(notes@, best as int, min, max),
                    best as int,
                    outside_count(notes@, candidate_shifts()[j], min, max),
                    candidate_shifts()[j],
                ),
            forall|j: int|
                best_k < j < k ==> !better_fit(
                    outside_count(notes@, candidate_shifts()[j], min, max),
                    candidate_shifts()[j],
                    outside_count(notes@, best as int, min, max),
                    best as int,
                ),
        decreases 5 - k,
    {
        let shift = shifts[k];
        let out = count_outside(notes, shift, profile.midi_min, profile.midi_max);
        let shift_size: i8 = if shift < 0 { -shift } else { shift };
        let best_size: i8 = if best < 0 { -best } else { best };
        if out < best_out || (out == best_out && shift_size < best_size) {
            best = shift;
            best_out = out;
            best_k = k;
        }
        k = k + 1;
    }
    assert(candidate_shifts()[best_k as int] == best as int);
    best
}

proof fn lemma_all_inside_count_zero(notes: Seq<u8>, min: int, max: int)
    requires
        forall|i: int| 0 <= i < notes.len() ==> min <= #[trigger] notes[i] <= max,
    ensures
        outside_count(notes, 0, min, max) == 0,
    decreases notes.len(),
{
    if notes.len() > 0 {
        lemma_all_inside_count_zero(notes.drop_last(), min, max);
    }
}

/// A melody that already lies within the playable range is not shifted.
pub proof fn lemma_fitting_melody_not_shifted(notes: Seq<u8>, min: int, max: int, shift: int)
    requires
        forall|i: int| 0 <= i < notes.len() ==> min <= #[trigger] notes[i] <= max,
        is_suggested_shift(notes, min, max, shift),
    ensures
        shift == 0,
{
    lemma_all_inside_count_zero(notes, min, max);
    let k = choose|k: int|
        0 <= k < 5 && #[trigger] candidate_shifts()[k] == shift && {
            &&& forall|j: int|
                0 <= j < k ==> better_fit(
                    outside_count(notes, shift, min, max),
                    shift,
                    outside_count(notes, candidate_shifts()[j], min, max),
                    candidate_shifts()[j],
                )
            &&& forall|j: int|
                k < j < 5 ==> !better_fit(
                    outside_count(notes, candidate_shifts()[j], min, max),
                    candidate_shifts()[j],
                    outside_count(notes, shift, min, max),
                    shift,
                )
        };
    assert(candidate_shifts()[2] == 0);
    if k < 2 {
        assert(better_fit(
            outside_count(notes, shift, min, max),
            shift,
            outside_count(notes, candidate_shifts()[2], min, max),
            candidate_shifts()[2],
        ));
    } else if k > 2 {
        assert(!better_fit(
            outside_count(notes, candidate_shifts()[2], min, max),
            candidate_shifts()[2],
            outside_count(notes, shift, min, max),
            shift,
        ));
        assert(candidate_shifts()[k] != 0);
    }
}

/// The suggested shift is determined by the notes and the range: two shifts
/// that both meet the rule are the same.
pub proof fn lemma_suggested_shift_unique(notes: Seq<u8>, min: int, max: int, a: int, b: int)
    requires
        is_suggested_shift(notes, min, max, a),
        is_suggested_shift(notes, min, max, b),
    ensures
        a == b,
{
    let ka = choose|k: int|
        0 <= k < 5 && #[trigger] candidate_shifts()[k] == a && {
            &&& forall|j: int|
                0 <= j < k ==> better_fit(
                    outside_count(notes, a, min, max),
                    a,
                    outside_count(notes, candidate_shifts()[j], min, max),
                    candidate_shifts()[j],
                )
            &&& forall|j: int|
                k < j < 5 ==> !better_fit(
                    outside_count(notes, candidate_shifts()[j], min, max),
                    candidate_shifts()[j],
                    outside_count(notes, a, min, max),
                    a,
                )
        };
    let kb = choose|k: int|
        0 <= k < 5 && #[trigger] candidate_shifts()[k] == b && {
            &&& forall|j: int|
                0 <= j < k ==> better_fit(
                    outside_count(notes, b, min, max),
                    b,
                    outside_count(notes, candidate_shifts()[j], min, max),
                    candidate_shifts()[j],
                )
            &&& forall|j: int|
                k < j < 5 ==> !better_fit(
                    outside_count(notes, candidate_shifts()[j], min, max),
                    candidate_shifts()[j],
                    outside_count(notes, b, min, max),
                    b,
                )
        };
    if ka < kb {
        assert(candidate_shifts()[ka] == a);
    } else if kb < ka {
        assert(candidate_shifts()[kb] == b);
    }
}

/// The out-of-range count counts every note: it is the number of notes whose
/// shifted value lies below `min` or above `max`.
pub proof fn lemma_outside_count_counts_every_note(notes: Seq<u8>, shift: int, min: int, max: int)
    ensures
        outside_count(notes, shift, min, max) == notes.filter(
            |x: u8| x + shift < min || x + shift > max,
        ).len(),
    decreases notes.len(),
{
    reveal(Seq::filter);
    if notes.len() > 0 {
        lemma_outside_count_counts_every_note(notes.drop_last(), shift, min, max);
    }
}

proof fn lemma_count_zero_all_inside(notes: Seq<u8>, shift: int, min: int, max: int)
    requires
        outside_count(notes, shift, min, max) == 0,
    ensures
        forall|i: int| 0 <= i < notes.len() ==> min <= #[trigger] notes[i] + shift <= max,
    decreases notes.len(),
{
    if notes.len() > 0 {
        lemma_count_zero_all_inside(notes.drop_last(), shift, min, max);
        assert forall|i: int| 0 <= i < notes.len() implies min <= #[trigger] notes[i] + shift <= max by {
            if i < notes.len() - 1 {
                assert(notes[i] == notes.drop_last()[i]);
            }
        }
    }
}

proof fn lemma_all_inside_count_zero_at(notes: Seq<u8>, shift: int, min: int, max: int)
    requires
        forall|i: int| 0 <= i < notes.len() ==> min <= #[trigger] notes[i] + shift <= max,
    ensures
        outside_count(notes, shift, min, max) == 0,
    decreases notes.len(),
{
    if notes.len() > 0 {
        lemma_all_inside_count_zero_at(notes.drop_last(), shift, min, max);
        assert(min <= notes[notes.len() - 1] + shift <= max);
    }
}

/// When some candidate shift fits every note into the range, the suggested
/// shift fits every note too.
pub proof fn lemma_suggested_fits_every_note_when_possible(
    notes: Seq<u8>,
    min: int,
    max: int,
    shift: int,
    k_fit: int,
)
    requires
        is_suggested_shift(notes, min, max, shift),
        0 <= k_fit < 5,
        forall|i: int| 0 <= i < notes.len() ==> min <= #[trigger] notes[i] + candidate_shifts()[k_fit] <= max,
    ensures
        forall|i: int| 0 <= i < notes.len() ==> min <= #[trigger] notes[i] + shift <= max,
{
    lemma_all_inside_count_zero_at(notes, candidate_shifts()[k_fit], min, max);
    let k = choose|k: int|
        0 <= k < 5 && #[trigger] candidate_shifts()[k] == shift && {
            &&& forall|j: int|
                0 <= j < k ==> better_fit(
                    outside_count(notes, shift, min, max),
                    shift,
                    outside_count(notes, candidate_shifts()[j], min, max),
                    candidate_shifts()[j],
                )
            &&& forall|j: int|
                k < j < 5 ==> !better_fit(
                    outside_count(notes, candidate_shifts()[j], min, max),
                    candidate_shifts()[j],
                    outside_count(notes, shift, min, max),
                    shift,
                )
        };
    if k_fit < k {
        assert(better_fit(
            outside_count(notes, shift, min, max),
            shift,
            outside_count(notes, candidate_shifts()[k_fit], min, max),
            candidate_shifts()[k_fit],
        ));
    } else if k_fit > k {
        assert(!better_fit(
            outside_count(notes, candidate_shifts()[k_fit], min, max),
            candidate_shifts()[k_fit],
            outside_count(notes, shift, min, max),
            shift,
        ));
    }
    assert(outside_count(notes, shift, min, max) == 0);
    lemma_count_zero_all_inside(notes, shift, min, max);
}

/// The suggested shift is one of the five octave shifts and fits best: no
/// octave shift leaves fewer notes outside `[min, max]`, and one that leaves
/// as many is no smaller.
pub proof fn lemma_suggested_shift_fits_best(notes: Seq<u8>, min: int, max: int, shift: int, c: int)
    requires
        is_suggested_shift(notes, min, max, shift),
        c == -24 || c == -12 || c == 0 || c == 12 || c == 24,
    ensures
        shift == -24 || shift == -12 || shift == 0 || shift == 12 || shift == 24,
        notes.filter(|x: u8| x + shift < min || x + shift > max).len() <= notes.filter(
            |x: u8| x + c < min || x + c > max,
        ).len(),
        notes.filter(|x: u8| x + shift < min || x + shift > max).len() == notes.filter(
            |x: u8| x + c < min || x + c > max,
        ).len() ==> shift * shift <= c * c,
{
    lemma_outside_count_counts_every_note(notes, shift, min, max);
    lemma_outside_count_counts_every_note(notes, c, min, max);
    let k = choose|k: int|
        0 <= k < 5 && #[trigger] candidate_shifts()[k] == shift && {
            &&& forall|j: int|
                0 <= j < k ==> better_fit(
                    outside_count(notes, shift, min, max),
                    shift,
                    outside_count(notes, candidate_shifts()[j], min, max),
                    candidate_shifts()[j],
                )
            &&& forall|j: int|
                k < j < 5 ==> !better_fit(
                    outside_count(notes, candidate_shifts()[j], min, max),
                    candidate_shifts()[j],
                    outside_count(notes, shift, min, max),
                    shift,
                )
        };
    let j: int = if c == -24 {
        0
    } else if c == -12 {
        1
    } else if c == 0 {
        2
    } else if c == 12 {
        3
    } else {
        4
    };
    assert(candidate_shifts()[j] == c);
    if j < k {
        assert(better_fit(
            outside_count(notes, shift, min, max),
            shift,
            outside_count(notes, candidate_shifts()[j], min, max),
            candidate_shifts()[j],
        ));
    } else if j > k {
        assert(!better_fit(
            outside_count(notes, candidate_shifts()[j], min, max),
            candidate_shifts()[j],
            outside_count(notes, shift, min, max),
            shift,
        ));
    }
    assert(abs(shift) <= abs(c) ==> shift * shift <= c * c) by (nonlinear_arith);
}

} // verus!
