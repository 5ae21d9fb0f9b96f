use vstd::prelude::*;
use crate::model::PitchFrame;

verus! {

/// The MIDI note nearest to `cents` (halves rounded up), kept within 0..=127.
pub open spec fn nearest_note(cents: int) -> int {
    if cents < 0 {
        0
    } else if (cents + 50) / 100 > 127 {
        127
    } else {
        (cents + 50) / 100
    }
}

/// Hysteresis: the note held at frame `i`. The first frame takes its nearest
/// note; a later frame keeps the previous frame's note unless its pitch is more
/// than 60 cents away from it, in which case it takes its own nearest note.
pub open spec fn held_note(frames: Seq<PitchFrame>, i: int) -> int
    decreases i,
{
    if i <= 0 {
        nearest_note(frames[0].pitch_cents as int)
    } else {
        let prev = held_note(frames, i - 1);
        let c = frames[i].pitch_cents as int;
        if c - 100 * prev > 60 || 100 * prev - c > 60 {
            nearest_note(c)
        } else {
            prev
        }
    }
}

/// The held note of every frame.
pub open spec fn quantize_spec(frames: Seq<PitchFrame>) -> Seq<u8> {
    Seq::new(frames.len(), |i: int| held_note(frames, i) as u8)
}

/// Every held note is a MIDI note (0..=127).
pub proof fn lemma_held_note_range(frames: Seq<PitchFrame>, i: int)
    ensures
        0 <= held_note(frames, i) <= 127,
    decreases i,
{
    if i > 0 {
        lemma_held_note_range(frames, i - 1);
    }
}

fn nearest(cents: i64) -> (note: u8)
    requires
        -0x1_0000_0000 <= cents <= 0x1_0000_0000,
    ensures
        note as int == nearest_note(cents as int),
{
    if cents < 0 {
        0
    } else if (cents + 50) / 100 > 127 {
        127
    } else {
        ((cents + 50) / 100) as u8
    }
}

/// Semitone quantisation with hysteresis: each frame's note is the previous
/// frame's note while its pitch stays within 60 cents of it, and its own nearest
/// note once it strays further.
pub fn quantize_notes(frames: &[PitchFrame]) -> (notes: Vec<u8>)
    ensures
        notes@ == quantize_spec(frames@),
{
    let n = frames.len();
    let mut notes: Vec<u8> = Vec::new();
    let mut i: usize = 0;
    while i < n
        invariant
            n == frames@.len(),
            i <= n,
            notes@.len() == i,
            forall|k: int| 0 <= k < i ==> #[trigger] notes@[k] == quantize_spec(frames@)[k],
        decreases n - i,
    {
        let c = frames[i].pitch_cents as i64;
        let note = if i == 0 {
            nearest(c)
        } else {
            let prev = notes[i - 1] as i64;
            proof {
                lemma_held_note_range(frames@, i - 1);
            }
            if c - 100 * prev > 60 || 100 * prev - c > 60 {
                nearest(c)
            } else {
                notes[i - 1]
            }
        };
        proof {
            lemma_held_note_range(frames@, i as int);
        }
        notes.push(note);
        i = i + 1;
    }
    assert(notes@ =~= quantize_spec(frames@));
    notes
}

/// Hysteresis: a frame whose pitch stays within 60 cents of the note held at
/// the previous frame holds that same note.
pub proof fn lemma_small_wobble_keeps_note(frames: Seq<PitchFrame>, i: int)
    requires
        0 < i < frames.len(),
        -60 <= frames[i].pitch_cents - 100 * quantize_spec(frames)[i - 1] <= 60,
    ensures
        quantize_spec(frames)[i] == quantize_spec(frames)[i - 1],
{
    lemma_held_note_range(frames, i - 1);
}

/// A note changes only when the pitch strays more than 60 cents from the held
/// note, and then to the pitch's own nearest note.
pub proof fn lemma_note_changes_only_on_large_moves(frames: Seq<PitchFrame>, i: int)
    requires
        0 < i < frames.len(),
        quantize_spec(frames)[i] != quantize_spec(frames)[i - 1],
    ensures
        frames[i].pitch_cents - 100 * quantize_spec(frames)[i - 1] > 60
            || 100 * quantize_spec(frames)[i - 1] - frames[i].pitch_cents > 60,
        quantize_spec(frames)[i] == nearest_note(frames[i].pitch_cents as int),
{
    lemma_held_note_range(frames, i - 1);
    lemma_held_note_range(frames, i);
}

/// A steady pitch is held on its nearest note throughout.
pub proof fn lemma_steady_pitch_one_note(frames: Seq<PitchFrame>, cents: i32, i: int)
    requires
        0 <= i < frames.len(),
        forall|k: int| 0 <= k < frames.len() ==> #[trigger] frames[k].pitch_cents == cents,
    ensures
        quantize_spec(frames)[i] == nearest_note(cents as int),
    decreases i,
{
    lemma_held_note_range(frames, i);
    if i > 0 {
        lemma_steady_pitch_one_note(frames, cents, i - 1);
        lemma_held_note_range(frames, i - 1);
    }
}

} // verus!
