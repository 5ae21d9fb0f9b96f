use vstd::prelude::*;
use crate::model::{PitchFrame, frames_in_range};

verus! {

/// `cents` lies an octave (1200 cents) above `base` when `dir == 1`, or below it
/// when `dir == -1`, give or take a semitone.
pub open spec fn octave_apart(cents: int, base: int, dir: int) -> bool {
    -100 <= cents - base - 1200 * dir <= 100
}

/// Frames `[i, j)` form an isolated octave jump in direction `dir`: there are
/// frames on both sides of them, and every one of them lies an octave (±1
/// semitone) away, in direction `dir`, from both the frame just before and the
/// frame just after.
pub open spec fn octave_section(frames: Seq<PitchFrame>, i: int, j: int, dir: int) -> bool {
    &&& 1 <= i < j < frames.len()
    &&& (dir == 1 || dir == -1)
    &&& forall|k: int|
        i <= k < j ==> {
            &&& octave_apart(
                #[trigger] frames[k].pitch_cents as int,
                frames[i - 1].pitch_cents as int,
                dir,
            )
            &&& octave_apart(frames[k].pitch_cents as int, frames[j].pitch_cents as int, dir)
        }
}

/// Frame `k` belongs to an isolated octave jump in direction `dir`.
pub open spec fn in_octave_section(frames: Seq<PitchFrame>, k: int, dir: int) -> bool {
    exists|i: int, j: int| i <= k < j && #[trigger] octave_section(frames, i, j, dir)
}

/// The octaves by which frame `k` is moved: -1 (down) inside an upward jump,
/// +1 (up) inside a downward jump, 0 elsewhere.
pub open spec fn octave_fix(frames: Seq<PitchFrame>, k: int) -> int {
    if in_octave_section(frames, k, 1) {
        -1
    } else if in_octave_section(frames, k, -1) {
        1
    } else {
        0
    }
}

/// `frames` with every isolated octave jump moved back by one octave.
pub open spec fn octave_spec(frames: Seq<PitchFrame>) -> Seq<PitchFrame> {
    Seq::new(
        frames.len(),
        |k: int|
            PitchFrame {
                time_us: frames[k].time_us,
                pitch_cents: (frames[k].pitch_cents + 1200 * octave_fix(frames, k)) as i32,
            },
    )
}

/// Two isolated octave jumps that share a frame are the same jump.
pub proof fn lemma_sections_unique(
    frames: Seq<PitchFrame>,
    k: int,
    i1: int,
    j1: int,
    d1: int,
    i2: int,
    j2: int,
    d2: int,
)
    requires
        octave_section(frames, i1, j1, d1),
        octave_section(frames, i2, j2, d2),
        i1 <= k < j1,
        i2 <= k < j2,
    ensures
        i1 == i2,
        j1 == j2,
        d1 == d2,
{
    let ck = frames[k].pitch_cents as int;
    assert(octave_apart(ck, frames[i1 - 1].pitch_cents as int, d1));
    assert(octave_apart(ck, frames[i2 - 1].pitch_cents as int, d2));
    if i1 < i2 {
        assert(octave_apart(frames[i2 - 1].pitch_cents as int, frames[i1 - 1].pitch_cents as int, d1));
    } else if i2 < i1 {
        assert(octave_apart(frames[i1 - 1].pitch_cents as int, frames[i2 - 1].pitch_cents as int, d2));
    }
    assert(i1 == i2);
    assert(d1 == d2);
    assert(octave_apart(ck, frames[j1].pitch_cents as int, d1));
    assert(octave_apart(ck, frames[j2].pitch_cents as int, d2));
    if j1 < j2 {
        assert(octave_apart(frames[j1].pitch_cents as int, frames[i1 - 1].pitch_cents as int, d1));
    } else if j2 < j1 {
        assert(octave_apart(frames[j2].pitch_cents as int, frames[i1 - 1].pitch_cents as int, d1));
    }
}

fn apart(cents: i32, base: i32, dir: i64) -> (r: bool)
    requires
        dir == 1 || dir == -1,
    ensures
        r == octave_apart(cents as int, base as int, dir as int),
{
    let d: i64 = cents as i64 - base as i64 - 1200 * dir;
    -100 <= d && d <= 100
}

/// Moves every isolated octave jump back to the octave of its surroundings: a
/// run of frames with frames on both sides, all lying an octave (±1 semitone)
/// above (or below) both the frame before and the frame after the run, is
/// shifted down (or up) by exactly 1200 cents. Other frames, and all times, are
/// kept.
pub fn correct_octave_jumps(frames: &[PitchFrame]) -> (corrected: Vec<PitchFrame>)
    requires
        frames_in_range(frames@),
    ensures
        corrected@ == octave_spec(frames@),
{
    let ghost fs = frames@;
    let n = frames.len();
    let mut out: Vec<PitchFrame> = Vec::new();
    let mut c: usize = 0;
    while c < n
        invariant
            c <= n,
            n == fs.len(),
            fs == frames@,
            out@ =~= fs.subrange(0, c as int),
        decreases n - c,
    {
        out.push(frames[c]);
        c = c + 1;
    }
    let mut p: usize = 1;
    while p < n && n - p > 1
        invariant
            1 <= p,
            n == fs.len(),
            fs == frames@,
            frames_in_range(fs),
            out@.len() == n,
            forall|k: int| 0 <= k < p && k < n ==> #[trigger] out@[k] == octave_spec(fs)[k],
            forall|k: int| p <= k < n ==> #[trigger] out@[k] == fs[k],
            forall|i: int, j: int, d: int|
                i < p < j && #[trigger] octave_section(fs, i, j, d) ==> false,
        decreases n - p,
    {
        let base = frames[p - 1].pitch_cents;
        let dir: i64 = if apart(frames[p].pitch_cents, base, 1) {
            1
        } else if apart(frames[p].pitch_cents, base, -1) {
            -1
        } else {
            0
        };
        let mut found = false;
        let mut j: usize = p + 1;
        if dir != 0 {
            while j < n && apart(frames[j].pitch_cents, base, dir)
                invariant
                    p < j <= n,
                    n == fs.len(),
                    fs == frames@,
                    dir == 1 || dir == -1,
                    base == fs[p - 1].pitch_cents,
                    octave_apart(fs[p as int].pitch_cents as int, base as int, dir as int),
                    forall|k: int| p <= k < j ==> octave_apart(#[trigger] fs[k].pitch_cents as int, base as int, dir as int),
                decreases n - j,
            {
                j = j + 1;
            }
            if j < n {
                let end = frames[j].pitch_cents;
                let mut all = true;
                let mut k: usize = p;
                while k < j
                    invariant
                        p <= k <= j,
                        j < n,
                        n == fs.len(),
                        fs == frames@,
                        dir == 1 || dir == -1,
                        end == fs[j as int].pitch_cents,
                        all == forall|m: int| p <= m < k ==> octave_apart(#[trigger] fs[m].pitch_cents as int, end as int, dir as int),
                    decreases j - k,
                {
                    if !apart(frames[k].pitch_cents, end, dir) {
                        all = false;
                    }
                    k = k + 1;
                }
                found = all;
            }
        }
        if found {
            assert(octave_section(fs, p as int, j as int, dir as int));
            let ghost p0 = p;
            let mut k: usize = p;
            while k < j
                invariant
                    p0 <= k <= j,
                    j < n,
                    1 <= p0,
                    n == fs.len(),
                    fs == frames@,
                    frames_in_range(fs),
                    dir == 1 || dir == -1,
                    octave_section(fs, p0 as int, j as int, dir as int),
                    out@.len() == n,
                    forall|m: int| 0 <= m < k ==> #[trigger] out@[m] == octave_spec(fs)[m],
                    forall|m: int| k <= m < n ==> #[trigger] out@[m] == fs[m],
                decreases j - k,
            {
                proof {
                    assert(in_octave_section(fs, k as int, dir as int));
                    if dir == -1 && in_octave_section(fs, k as int, 1) {
                        let (i2, j2) = choose|i2: int, j2: int| i2 <= k < j2 && #[trigger] octave_section(fs, i2, j2, 1);
                        lemma_sections_unique(fs, k as int, p0 as int, j as int, -1, i2, j2, 1);
                    }
                    assert(fs[k as int].in_range());
                }
                let shifted = PitchFrame {
                    time_us: frames[k].time_us,
                    pitch_cents: (frames[k].pitch_cents as i64 - 1200 * dir) as i32,
                };
                out.set(k, shifted);
                k = k + 1;
            }
            proof {
                assert forall|i: int, jj: int, d: int|
                    i < j < jj && #[trigger] octave_section(fs, i, jj, d) implies false by {
                    if i <= j - 1 {
                        lemma_sections_unique(fs, j - 1, p as int, j as int, dir as int, i, jj, d);
                    } else {
                        assert(i < p);
                        assert(p < jj);
                    }
                }
            }
            p = j;
        } else {
            proof {
                assert forall|d: int| !in_octave_section(fs, p as int, d) by {
                    if in_octave_section(fs, p as int, d) {
                        let (i2, j2) = choose|i2: int, j2: int| i2 <= p < j2 && #[trigger] octave_section(fs, i2, j2, d);
                        assert(i2 == p);
                        let b = fs[p - 1].pitch_cents as int;
                        assert(octave_apart(fs[p as int].pitch_cents as int, b, d));
                        assert(dir == d);
                        assert(octave_apart(fs[p as int].pitch_cents as int, fs[j2].pitch_cents as int, d));
                        assert(!octave_apart(fs[j2].pitch_cents as int, b, d));
                        if j < j2 {
                            assert(octave_apart(fs[j as int].pitch_cents as int, b, d));
                        }
                        assert(j == j2);
                        assert(forall|m: int| p <= m < j ==> octave_apart(#[trigger] fs[m].pitch_cents as int, fs[j2].pitch_cents as int, d));
                    }
                }
                assert(octave_fix(fs, p as int) == 0);
            }
            p = p + 1;
        }
    }
    proof {
        assert forall|k: int| p <= k < n implies #[trigger] out@[k] == octave_spec(fs)[k] by {
            assert forall|d: int| !in_octave_section(fs, k, d) by {
                if in_octave_section(fs, k, d) {
                    let (i2, j2) = choose|i2: int, j2: int| i2 <= k < j2 && #[trigger] octave_section(fs, i2, j2, d);
                }
            }
        }
    }
    assert(out@ =~= octave_spec(fs));
    out
}

/// Octave correction moves a frame by exactly one octave or not at all, and
/// keeps every frame's time.
pub proof fn lemma_octave_moves_whole_octaves(frames: Seq<PitchFrame>, k: int)
    requires
        0 <= k < frames.len(),
        frames_in_range(frames),
    ensures
        octave_spec(frames)[k].time_us == frames[k].time_us,
        octave_spec(frames)[k].pitch_cents == frames[k].pitch_cents
            || octave_spec(frames)[k].pitch_cents == frames[k].pitch_cents + 1200
            || octave_spec(frames)[k].pitch_cents == frames[k].pitch_cents - 1200,
{
    assert(frames[k].in_range());
}

/// A melody whose neighbouring frames never lie 11 semitones or more apart is
/// left exactly as it is.
pub proof fn lemma_no_leaps_no_change(frames: Seq<PitchFrame>)
    requires
        forall|k: int|
            0 < k < frames.len() ==> -1100 < #[trigger] frames[k].pitch_cents - frames[k - 1].pitch_cents
                < 1100,
    ensures
        octave_spec(frames) == frames,
{
    assert forall|k: int| 0 <= k < frames.len() implies #[trigger] octave_spec(frames)[k] == frames[k] by {
        assert forall|d: int| !in_octave_section(frames, k, d) by {
            if in_octave_section(frames, k, d) {
                let (i, j) = choose|i: int, j: int| i <= k < j && #[trigger] octave_section(frames, i, j, d);
                assert(octave_apart(frames[i].pitch_cents as int, frames[i - 1].pitch_cents as int, d));
            }
        }
    }
    assert(octave_spec(frames) =~= frames);
}

/// An isolated octave jump is repaired: a run of frames `[i, j)` with frames on
/// both sides, every one of which lies 1200 ± 100 cents above (`dir == 1`) or
/// below (`dir == -1`) both the frame just before the run and the frame just
/// after it, is moved back by exactly 1200 cents, at unchanged times. A single
/// such frame (`j == i + 1`) is one case.
pub proof fn lemma_octave_run_repaired(frames: Seq<PitchFrame>, i: int, j: int, dir: int)
    requires
        frames_in_range(frames),
        1 <= i < j < frames.len(),
        dir == 1 || dir == -1,
        forall|k: int|
            i <= k < j ==> -100 <= #[trigger] frames[k].pitch_cents - frames[i - 1].pitch_cents - 1200
                * dir <= 100 && -100 <= frames[k].pitch_cents - frames[j].pitch_cents - 1200 * dir <= 100,
    ensures
        forall|k: int|
            i <= k < j ==> #[trigger] octave_spec(frames)[k].pitch_cents == frames[k].pitch_cents - 1200
                * dir && octave_spec(frames)[k].time_us == frames[k].time_us,
{
    assert(octave_section(frames, i, j, dir));
    assert forall|k: int| i <= k < j implies #[trigger] octave_spec(frames)[k].pitch_cents
        == frames[k].pitch_cents - 1200 * dir && octave_spec(frames)[k].time_us == frames[k].time_us by {
        assert(in_octave_section(frames, k, dir));
        if dir == -1 && in_octave_section(frames, k, 1) {
            let (i2, j2) = choose|i2: int, j2: int| i2 <= k < j2 && #[trigger] octave_section(frames, i2, j2, 1);
            lemma_sections_unique(frames, k, i, j, -1, i2, j2, 1);
        }
        assert(frames[k].in_range());
    }
}

/// A one-frame octave error is repaired: a frame `k` with a frame on each side,
/// lying 1200 ± 100 cents above both neighbours, is moved down by exactly 1200
/// cents; one lying 1200 ± 100 cents below both is moved up by exactly 1200
/// cents. Its time is unchanged.
pub proof fn lemma_single_octave_jump_repaired(frames: Seq<PitchFrame>, k: int)
    requires
        frames_in_range(frames),
        0 < k < frames.len() - 1,
    ensures
        (1100 <= frames[k].pitch_cents - frames[k - 1].pitch_cents <= 1300 && 1100 <= frames[k].pitch_cents
            - frames[k + 1].pitch_cents <= 1300) ==> octave_spec(frames)[k].pitch_cents
            == frames[k].pitch_cents - 1200,
        (1100 <= frames[k - 1].pitch_cents - frames[k].pitch_cents <= 1300 && 1100 <= frames[k + 1].pitch_cents
            - frames[k].pitch_cents <= 1300) ==> octave_spec(frames)[k].pitch_cents
            == frames[k].pitch_cents + 1200,
        octave_spec(frames)[k].time_us == frames[k].time_us,
{
    if 1100 <= frames[k].pitch_cents - frames[k - 1].pitch_cents <= 1300 && 1100 <= frames[k].pitch_cents
        - frames[k + 1].pitch_cents <= 1300 {
        lemma_octave_run_repaired(frames, k, k + 1, 1);
    }
    if 1100 <= frames[k - 1].pitch_cents - frames[k].pitch_cents <= 1300 && 1100 <= frames[k + 1].pitch_cents
        - frames[k].pitch_cents <= 1300 {
        lemma_octave_run_repaired(frames, k, k + 1, -1);
    }
}

/// The first and the last frame are never moved: an octave jump needs a frame
/// on each side of it.
pub proof fn lemma_ends_never_moved(frames: Seq<PitchFrame>)
    requires
        frames.len() > 0,
    ensures
        octave_spec(frames)[0] == frames[0],
        octave_spec(frames).last() == frames.last(),
{
    let n = frames.len() as int;
    assert forall|d: int| !in_octave_section(frames, 0, d) && !in_octave_section(frames, n - 1, d) by {
        if in_octave_section(frames, 0, d) {
            let (i, j) = choose|i: int, j: int| i <= 0 < j && #[trigger] octave_section(frames, i, j, d);
        }
        if in_octave_section(frames, n - 1, d) {
            let (i, j) = choose|i: int, j: int| i <= n - 1 < j && #[trigger] octave_section(frames, i, j, d);
        }
    }
}

} // verus!
