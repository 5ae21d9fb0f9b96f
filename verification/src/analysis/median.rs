use vstd::prelude::*;
use vstd::multiset::Multiset;
use vstd::relations::{sorted_by, total_ordering};
use vstd::seq_lib::{lemma_sorted_unique, lemma_multiset_commutative, to_multiset_build, to_multiset_remove};
use crate::model::{PitchFrame, frames_in_range};

verus! {

/// The order in which pitches are sorted.
pub open spec fn cents_le() -> spec_fn(i32, i32) -> bool {
    |a: i32, b: i32| a <= b
}

/// First index of the five-frame window centred on `i`.
pub open spec fn window_start(i: int) -> int {
    if i >= 2 { i - 2 } else { 0 }
}

/// One past the last index of the five-frame window centred on `i`, cut at `n`.
pub open spec fn window_end(i: int, n: int) -> int {
    if i + 3 <= n { i + 3 } else { n }
}

/// The pitches of the window centred on frame `i`.
pub open spec fn window_cents(frames: Seq<PitchFrame>, i: int) -> Seq<i32> {
    frames.subrange(window_start(i), window_end(i, frames.len() as int)).map_values(
        |f: PitchFrame| f.pitch_cents,
    )
}

/// The median of the window centred on frame `i`: the middle element (the upper
/// one of the two middles for an even count) of the sorted window.
pub open spec fn median_at(frames: Seq<PitchFrame>, i: int) -> i32 {
    let w = window_cents(frames, i);
    w.sort_by(cents_le())[w.len() as int / 2]
}

/// `frames` with every pitch replaced by the median of its five-frame window.
pub open spec fn median_spec(frames: Seq<PitchFrame>) -> Seq<PitchFrame> {
    Seq::new(
        frames.len(),
        |i: int| PitchFrame { time_us: frames[i].time_us, pitch_cents: median_at(frames, i) },
    )
}

pub proof fn lemma_cents_le_total()
    ensures
        total_ordering(cents_le()),
{
}

/// `values` in ascending order.
fn sort_cents(values: Vec<i32>) -> (sorted: Vec<i32>)
    ensures
        sorted@ == values@.sort_by(cents_le()),
{
    let ghost input = values@;
    let mut work = values;
    let mut out: Vec<i32> = Vec::new();
    proof {
        broadcast use vstd::multiset::group_multiset_axioms;
        out@.to_multiset_ensures();
        assert(out@.to_multiset() =~= Multiset::empty());
    }
    while work.len() > 0
        invariant
            out@.to_multiset().add(work@.to_multiset()) =~= input.to_multiset(),
            sorted_by(out@, cents_le()),
            forall|a: int, b: int|
                0 <= a < out@.len() && 0 <= b < work@.len() ==> out@[a] <= work@[b],
        decreases work.len(),
    {
        let mut m: usize = 0;
        let mut k: usize = 1;
        while k < work.len()
            invariant
                0 < work.len(),
                m < work.len(),
                k <= work.len(),
                forall|j: int| 0 <= j < k ==> work@[m as int] <= work@[j],
            decreases work.len() - k,
        {
            if work[k] < work[m] {
                m = k;
            }
            k = k + 1;
        }
        let ghost before = work@;
        let x = work.remove(m);
        let ghost out_before = out@;
        out.push(x);
        proof {
            broadcast use vstd::multiset::group_multiset_axioms;
            to_multiset_remove(before, m as int);
            before.to_multiset_ensures();
            assert(before.contains(x));
            to_multiset_build(out_before, x);
            assert(out@ == out_before.push(x));
            assert(forall|b: int| 0 <= b < work@.len() ==> x <= work@[b]) by {
                assert forall|b: int| 0 <= b < work@.len() implies x <= work@[b] by {
                    if b < m {
                        assert(work@[b] == before[b]);
                    } else {
                        assert(work@[b] == before[b + 1]);
                    }
                }
            }
            assert forall|a: int, b: int|
                0 <= a < out@.len() && 0 <= b < work@.len() implies out@[a] <= work@[b] by {
                if b < m {
                    assert(work@[b] == before[b]);
                } else {
                    assert(work@[b] == before[b + 1]);
                }
            }
        }
    }
    proof {
        broadcast use vstd::multiset::group_multiset_axioms;
        work@.to_multiset_ensures();
        assert(work@.to_multiset() =~= Multiset::empty());
        assert(out@.to_multiset() =~= input.to_multiset());
        lemma_cents_le_total();
        input.lemma_sort_by_ensures(cents_le());
        lemma_sorted_unique(out@, input.sort_by(cents_le()), cents_le());
    }
    out
}

/// Replaces each frame's pitch by the median of the five frames around it
/// (two before, itself, two after, fewer at either end), which removes isolated
/// outliers; frame times are kept.
pub fn median_filter(frames: &[PitchFrame]) -> (filtered: Vec<PitchFrame>)
    ensures
        filtered@ == median_spec(frames@),
{
    let n = frames.len();
    let mut out: Vec<PitchFrame> = Vec::new();
    let mut i: usize = 0;
    while i < n
        invariant
            n == frames@.len(),
            i <= n,
            out@.len() == i,
            forall|k: int| 0 <= k < i ==> #[trigger] out@[k] == median_spec(frames@)[k],
        decreases n - i,
    {
        let lo: usize = if i >= 2 { i - 2 } else { 0 };
        let hi: usize = if n - i >= 3 { i + 3 } else { n };
        let mut window: Vec<i32> = Vec::new();
        let mut k: usize = lo;
        while k < hi
            invariant
                lo <= k <= hi,
                hi <= n,
                n == frames@.len(),
                window@ =~= frames@.subrange(lo as int, k as int).map_values(
                    |f: PitchFrame| f.pitch_cents,
                ),
            decreases hi - k,
        {
            window.push(frames[k].pitch_cents);
            k = k + 1;
        }
        assert(window@ =~= window_cents(frames@, i as int));
        let sorted = sort_cents(window);
        proof {
            window_cents(frames@, i as int).lemma_sort_by_ensures(cents_le());
            lemma_cents_le_total();
        }
        assert(sorted@.len() == window_cents(frames@, i as int).len()) by {
            window_cents(frames@, i as int).to_multiset_ensures();
            sorted@.to_multiset_ensures();
        }
        let mid = sorted[sorted.len() / 2];
        out.push(PitchFrame { time_us: frames[i].time_us, pitch_cents: mid });
        i = i + 1;
    }
    assert(out@ =~= median_spec(frames@));
    out
}

/// Each smoothed pitch is one of the pitches of its window, so smoothing keeps
/// frames in range.
pub proof fn lemma_median_in_range(frames: Seq<PitchFrame>)
    requires
        frames_in_range(frames),
    ensures
        frames_in_range(median_spec(frames)),
        median_spec(frames).len() == frames.len(),
        forall|i: int| 0 <= i < frames.len() ==> #[trigger] median_spec(frames)[i].time_us == frames[i].time_us,
{
    assert forall|i: int| 0 <= i < frames.len() implies #[trigger] median_spec(frames)[i].in_range() by {
        let w = window_cents(frames, i);
        let lo = window_start(i);
        lemma_cents_le_total();
        w.lemma_sort_by_ensures(cents_le());
        w.to_multiset_ensures();
        w.sort_by(cents_le()).to_multiset_ensures();
        let sorted = w.sort_by(cents_le());
        let x = sorted[w.len() as int / 2];
        assert(sorted.contains(x));
        assert(w.contains(x));
        let idx = choose|idx: int| 0 <= idx < w.len() && w[idx] == x;
        assert(w[idx] == frames[lo + idx].pitch_cents);
        assert(frames[lo + idx].in_range());
        assert(frames[i].in_range());
        assert(median_spec(frames)[i].pitch_cents == x);
        assert(median_spec(frames)[i].time_us == frames[i].time_us);
    }
}

/// Smoothing picks, for each frame, one of the pitches of its own window.
pub proof fn lemma_median_from_window(frames: Seq<PitchFrame>, i: int)
    requires
        0 <= i < frames.len(),
    ensures
        exists|j: int|
            window_start(i) <= j < window_end(i, frames.len() as int) && #[trigger] frames[j].pitch_cents
                == median_spec(frames)[i].pitch_cents,
{
    let w = window_cents(frames, i);
    let lo = window_start(i);
    lemma_cents_le_total();
    w.lemma_sort_by_ensures(cents_le());
    w.to_multiset_ensures();
    w.sort_by(cents_le()).to_multiset_ensures();
    let x = w.sort_by(cents_le())[w.len() as int / 2];
    assert(w.sort_by(cents_le()).contains(x));
    let idx = choose|idx: int| 0 <= idx < w.len() && w[idx] == x;
    assert(frames[lo + idx].pitch_cents == median_spec(frames)[i].pitch_cents);
}

/// A steady pitch passes through smoothing unchanged.
pub proof fn lemma_median_keeps_steady_pitch(frames: Seq<PitchFrame>, cents: i32)
    requires
        forall|i: int| 0 <= i < frames.len() ==> #[trigger] frames[i].pitch_cents == cents,
    ensures
        median_spec(frames) == frames,
{
    assert forall|i: int| 0 <= i < frames.len() implies #[trigger] median_spec(frames)[i] == frames[i] by {
        lemma_median_from_window(frames, i);
        let j = choose|j: int|
            window_start(i) <= j < window_end(i, frames.len() as int) && #[trigger] frames[j].pitch_cents
                == median_spec(frames)[i].pitch_cents;
        assert(frames[j].pitch_cents == cents);
        assert(median_spec(frames)[i].pitch_cents == frames[i].pitch_cents);
        assert(median_spec(frames)[i].time_us == frames[i].time_us);
    }
    assert(median_spec(frames) =~= frames);
}

/// In a window of at least three pitches that all equal `c` but for the one at
/// `p`, the median is `c`.
pub proof fn lemma_window_median_one_outlier(w: Seq<i32>, c: i32, p: int)
    requires
        3 <= w.len(),
        0 <= p < w.len(),
        forall|j: int| 0 <= j < w.len() && j != p ==> #[trigger] w[j] == c,
    ensures
        w.sort_by(cents_le())[w.len() as int / 2] == c,
{
    broadcast use vstd::multiset::group_multiset_axioms;

    let n = w.len() as int;
    let g = w[p];
    let a = Seq::new(p as nat, |j: int| c);
    let b = Seq::new((n - p - 1) as nat, |j: int| c);
    let cs = a + b;
    assert(w.take(p) =~= a);
    assert(w.skip(p + 1) =~= b);
    assert(w =~= (a + seq![g]) + b);
    lemma_multiset_commutative(a + seq![g], b);
    lemma_multiset_commutative(a, seq![g]);
    lemma_multiset_commutative(a, b);
    let t = if g <= c { seq![g] + cs } else { cs + seq![g] };
    if g <= c {
        lemma_multiset_commutative(seq![g], cs);
    } else {
        lemma_multiset_commutative(cs, seq![g]);
    }
    assert(w.to_multiset() =~= t.to_multiset());
    assert(sorted_by(t, cents_le()));
    lemma_cents_le_total();
    w.lemma_sort_by_ensures(cents_le());
    lemma_sorted_unique(t, w.sort_by(cents_le()), cents_le());
    assert(t[n / 2] == c);
}

/// Smoothing removes a single outlier: when every frame but frame `k` has pitch
/// `c` (and there are at least three frames), every smoothed frame has pitch
/// `c`, at its own time.
pub proof fn lemma_median_removes_single_outlier(frames: Seq<PitchFrame>, c: i32, k: int)
    requires
        frames.len() >= 3,
        0 <= k < frames.len(),
        forall|i: int| 0 <= i < frames.len() && i != k ==> #[trigger] frames[i].pitch_cents == c,
    ensures
        forall|i: int|
            0 <= i < frames.len() ==> #[trigger] median_spec(frames)[i] == (PitchFrame {
                time_us: frames[i].time_us,
                pitch_cents: c,
            }),
{
    let n = frames.len() as int;
    assert forall|i: int| 0 <= i < n implies #[trigger] median_spec(frames)[i] == (PitchFrame {
        time_us: frames[i].time_us,
        pitch_cents: c,
    }) by {
        let lo = window_start(i);
        let hi = window_end(i, n);
        let w = window_cents(frames, i);
        assert(w.len() == hi - lo);
        let p = if lo <= k < hi { k - lo } else { 0 };
        assert forall|j: int| 0 <= j < w.len() && j != p implies #[trigger] w[j] == c by {
            assert(w[j] == frames[lo + j].pitch_cents);
            if lo + j == k {
                assert(j == p);
            }
        }
        lemma_window_median_one_outlier(w, c, p);
    }
}

/// In a window of five pitches that all equal `c` but for those at `p1` and
/// `p2`, the median is `c`.
pub proof fn lemma_window_median_two_outliers(w: Seq<i32>, c: i32, p1: int, p2: int)
    requires
        w.len() == 5,
        0 <= p1 < p2 < 5,
        forall|j: int| 0 <= j < 5 && j != p1 && j != p2 ==> #[trigger] w[j] == c,
    ensures
        w.sort_by(cents_le())[2] == c,
{
    broadcast use vstd::multiset::group_multiset_axioms;

    let g1 = w[p1];
    let g2 = w[p2];
    let a = Seq::new(p1 as nat, |j: int| c);
    let b = Seq::new((p2 - p1 - 1) as nat, |j: int| c);
    let d = Seq::new((4 - p2) as nat, |j: int| c);
    let ccc = seq![c, c, c];
    let s1 = a + seq![g1];
    let s2 = s1 + b;
    let s3 = s2 + seq![g2];
    assert(w =~= s3 + d);
    assert(ccc =~= (a + b) + d);
    lemma_multiset_commutative(s3, d);
    lemma_multiset_commutative(s2, seq![g2]);
    lemma_multiset_commutative(s1, b);
    lemma_multiset_commutative(a, seq![g1]);
    lemma_multiset_commutative(a + b, d);
    lemma_multiset_commutative(a, b);
    let lo = if g1 <= g2 { g1 } else { g2 };
    let hi = if g1 <= g2 { g2 } else { g1 };
    lemma_multiset_commutative(seq![lo], seq![hi]);
    lemma_multiset_commutative(seq![g1], seq![g2]);
    let t = if hi <= c {
        (seq![lo] + seq![hi]) + ccc
    } else if lo <= c {
        (seq![lo] + ccc) + seq![hi]
    } else {
        (ccc + seq![lo]) + seq![hi]
    };
    if hi <= c {
        lemma_multiset_commutative(seq![lo] + seq![hi], ccc);
    } else if lo <= c {
        lemma_multiset_commutative(seq![lo], ccc);
        lemma_multiset_commutative(seq![lo] + ccc, seq![hi]);
    } else {
        lemma_multiset_commutative(ccc, seq![lo]);
        lemma_multiset_commutative(ccc + seq![lo], seq![hi]);
    }
    assert(w.to_multiset() =~= t.to_multiset());
    assert(sorted_by(t, cents_le()));
    lemma_cents_le_total();
    w.lemma_sort_by_ensures(cents_le());
    lemma_sorted_unique(t, w.sort_by(cents_le()), cents_le());
    assert(t[2] == c);
}

/// Smoothing removes two outliers: when every frame but frames `k1` and `k2`
/// has pitch `c`, every frame with two frames on each side of it is smoothed to
/// pitch `c`, at its own time.
pub proof fn lemma_median_removes_two_outliers(frames: Seq<PitchFrame>, c: i32, k1: int, k2: int)
    requires
        forall|i: int| 0 <= i < frames.len() && i != k1 && i != k2 ==> #[trigger] frames[i].pitch_cents == c,
    ensures
        forall|i: int|
            2 <= i < frames.len() - 2 ==> #[trigger] median_spec(frames)[i] == (PitchFrame {
                time_us: frames[i].time_us,
                pitch_cents: c,
            }),
{
    let n = frames.len() as int;
    assert forall|i: int| 2 <= i < n - 2 implies #[trigger] median_spec(frames)[i] == (PitchFrame {
        time_us: frames[i].time_us,
        pitch_cents: c,
    }) by {
        let lo = i - 2;
        let w = window_cents(frames, i);
        assert(window_start(i) == lo);
        assert(window_end(i, n) == i + 3);
        assert(w.len() == 5);
        let q1 = k1 - lo;
        let q2 = k2 - lo;
        let in1 = 0 <= q1 < 5;
        let in2 = 0 <= q2 < 5 && q2 != q1;
        let (p1, p2) = if in1 && in2 {
            if q1 < q2 { (q1, q2) } else { (q2, q1) }
        } else if in1 {
            if q1 == 0 { (0int, 1int) } else { (0int, q1) }
        } else if 0 <= q2 < 5 {
            if q2 == 0 { (0int, 1int) } else { (0int, q2) }
        } else {
            (0int, 1int)
        };
        assert forall|j: int| 0 <= j < 5 && j != p1 && j != p2 implies #[trigger] w[j] == c by {
            assert(w[j] == frames[lo + j].pitch_cents);
        }
        lemma_window_median_two_outliers(w, c, p1, p2);
    }
}

} // verus!
