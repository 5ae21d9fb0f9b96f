use vstd::prelude::*;
use crate::model::{NeckPosition, OtamatoneProfile, default_calibration_point};

verus! {

/// Calibration point `i` is the first one at `midi`.
pub open spec fn first_exact(cal: Seq<(u8, u32)>, midi: int, i: int) -> bool {
    &&& 0 <= i < cal.len()
    &&& cal[i].0 == midi
    &&& forall|j: int| 0 <= j < i ==> #[trigger] cal[j].0 != midi
}

/// `midi` lies strictly between calibration points `i` and `i + 1`.
pub open spec fn between(cal: Seq<(u8, u32)>, midi: int, i: int) -> bool {
    cal[i].0 < midi < cal[i + 1].0
}

/// Calibration points `i` and `i + 1` are the first neighbouring pair that
/// `midi` lies strictly between.
pub open spec fn first_bracket(cal: Seq<(u8, u32)>, midi: int, i: int) -> bool {
    &&& 0 <= i && i + 1 < cal.len()
    &&& between(cal, midi, i)
    &&& forall|j: int| 0 <= j < i ==> !#[trigger] between(cal, midi, j)
}

/// Where calibration point `point` lies on a neck of `neck_length` units.
pub open spec fn point_position(point: (u8, u32), neck_length: int) -> NeckPosition {
    NeckPosition { numerator: point.1 as u64, denominator: neck_length as u64 }
}

/// `span` times the position, in neck units, of `midi` on the straight line
/// through `left` and `right`, where `span` is `right.0 - left.0`.
pub open spec fn interpolate_numerator(left: (u8, u32), right: (u8, u32), midi: int) -> int {
    left.1 * (right.0 - midi) + right.1 * (midi - left.0)
}

/// The exact position of `midi` on the straight line through calibration points
/// `left` and `right`, on a neck of `neck_length` units.
pub open spec fn interpolate(left: (u8, u32), right: (u8, u32), midi: int, neck_length: int) -> NeckPosition {
    NeckPosition {
        numerator: interpolate_numerator(left, right, midi) as u64,
        denominator: ((right.0 - left.0) * neck_length) as u64,
    }
}

/// Where `midi` is pressed on the neck of `profile`: nothing outside the
/// playable range or without calibration; the position of the first calibration
/// point at `midi` if there is one; otherwise the linear interpolation between
/// the first pair of neighbouring points around it; otherwise nothing.
pub open spec fn neck_position_spec(profile: OtamatoneProfile, midi: int) -> Option<NeckPosition> {
    let cal = profile.calibration@;
    if midi < profile.midi_min || midi > profile.midi_max || cal.len() == 0 {
        None
    } else if exists|i: int| first_exact(cal, midi, i) {
        Some(point_position(cal[choose|i: int| first_exact(cal, midi, i)], profile.neck_length as int))
    } else if exists|i: int| first_bracket(cal, midi, i) {
        let i = choose|i: int| first_bracket(cal, midi, i);
        Some(interpolate(cal[i], cal[i + 1], midi, profile.neck_length as int))
    } else {
        None
    }
}

/// The interpolated position lies between the two calibration positions (all
/// scaled by the span between the two calibration notes).
pub proof fn lemma_interpolate_between(left: (u8, u32), right: (u8, u32), midi: int)
    requires
        left.0 < midi < right.0,
    ensures
        left.1 <= right.1 ==> left.1 * (right.0 - left.0) <= interpolate_numerator(left, right, midi)
            <= right.1 * (right.0 - left.0),
        right.1 <= left.1 ==> right.1 * (right.0 - left.0) <= interpolate_numerator(left, right, midi)
            <= left.1 * (right.0 - left.0),
        0 <= interpolate_numerator(left, right, midi) <= 0xffff_ffff * 255,
{
    let x = right.0 - midi;
    let y = midi - left.0;
    let l = left.1 as int;
    let r = right.1 as int;
    let num = l * x + r * y;
    let den = x + y;
    assert(den == right.0 - left.0);
    if l <= r {
        assert(l * den <= num <= r * den) by (nonlinear_arith)
            requires
                l <= r,
                x > 0,
                y > 0,
                den == x + y,
                num == l * x + r * y,
                0 <= l;
    } else {
        assert(r * den <= num <= l * den) by (nonlinear_arith)
            requires
                r <= l,
                x > 0,
                y > 0,
                den == x + y,
                num == l * x + r * y,
                0 <= r;
    }
    assert(0 <= num <= 0xffff_ffff * 255) by (nonlinear_arith)
        requires
            num == l * x + r * y,
            0 <= l <= 0xffff_ffff,
            0 <= r <= 0xffff_ffff,
            x > 0,
            y > 0,
            x + y <= 255;
}

/// Where `midi` is pressed on the neck: `None` outside the profile's playable
/// range or without calibration (never clamped), the calibration position at
/// an exact calibration note, and otherwise the exact linear interpolation
/// between the first pair of neighbouring calibration points around `midi`.
pub fn neck_position(profile: &OtamatoneProfile, midi: u8) -> (position: Option<NeckPosition>)
    ensures
        position == neck_position_spec(*profile, midi as int),
{
    let ghost cal = profile.calibration@;
    if midi < profile.midi_min || midi > profile.midi_max || profile.calibration.len() == 0 {
        return None;
    }
    let points = &profile.calibration;
    let n = points.len();
    let mut i: usize = 0;
    while i < n
        invariant
            n == cal.len(),
            cal == points@,
            cal == profile.calibration@,
            profile.midi_min <= midi <= profile.midi_max,
            cal.len() > 0,
            i <= n,
            forall|j: int| 0 <= j < i ==> #[trigger] cal[j].0 != midi,
        decreases n - i,
    {
        if points[i].0 == midi {
            proof {
                assert(first_exact(cal, midi as int, i as int));
                let c = choose|c: int| first_exact(cal, midi as int, c);
                if c < i {
                    assert(cal[c].0 != midi);
                } else if c > i {
                    assert(cal[i as int].0 != midi);
                }
                assert(c == i);
            }
            return Some(NeckPosition { numerator: points[i].1 as u64, denominator: profile.neck_length as u64 });
        }
        i = i + 1;
    }
    assert(!exists|c: int| first_exact(cal, midi as int, c));
    let mut i: usize = 0;
    while i < n - 1
        invariant
            n >= 1,
            n == cal.len(),
            cal == points@,
            cal == profile.calibration@,
            profile.midi_min <= midi <= profile.midi_max,
            cal.len() > 0,
            forall|j: int| 0 <= j < i ==> !#[trigger] between(cal, midi as int, j),
            forall|j: int| 0 <= j < n ==> #[trigger] cal[j].0 != midi,
        decreases n - i,
    {
        let (left_note, left_position) = points[i];
        let (right_note, right_position) = points[i + 1];
        if midi > left_note && midi < right_note {
            let x = (right_note - midi) as u64;
            let y = (midi - left_note) as u64;
            let span = (right_note - left_note) as u64;
            assert(left_position as u64 * x <= 0xffff_ffff * 255) by (nonlinear_arith)
                requires
                    x <= 255;
            assert(right_position as u64 * y <= 0xffff_ffff * 255) by (nonlinear_arith)
                requires
                    y <= 255;
            assert(span * profile.neck_length as u64 <= 255 * 0xffff_ffff) by (nonlinear_arith)
                requires
                    span <= 255;
            let num = left_position as u64 * x + right_position as u64 * y;
            let den = span * profile.neck_length as u64;
            proof {
                assert(first_bracket(cal, midi as int, i as int));
                let c = choose|c: int| first_bracket(cal, midi as int, c);
                if c < i {
                    assert(!between(cal, midi as int, c));
                } else if c > i {
                    assert(!between(cal, midi as int, i as int));
                }
                assert(c == i);
                assert(!exists|e: int| first_exact(cal, midi as int, e));
                assert(num as int == interpolate_numerator(cal[i as int], cal[i + 1], midi as int));
            }
            return Some(NeckPosition { numerator: num, denominator: den });
        }
        i = i + 1;
    }
    assert(!exists|c: int| first_bracket(cal, midi as int, c));
    None
}

/// Calibration notes strictly ascend.
pub open spec fn calibration_ascending(cal: Seq<(u8, u32)>) -> bool {
    forall|i: int, j: int| 0 <= i < j < cal.len() ==> #[trigger] cal[i].0 < #[trigger] cal[j].0
}

proof fn lemma_first_exact_exists(cal: Seq<(u8, u32)>, midi: int, i: int)
    requires
        0 <= i < cal.len(),
        cal[i].0 == midi,
    ensures
        exists|e: int| first_exact(cal, midi, e),
    decreases i,
{
    if forall|j: int| 0 <= j < i ==> #[trigger] cal[j].0 != midi {
        assert(first_exact(cal, midi, i));
    } else {
        let j = choose|j: int| 0 <= j < i && #[trigger] cal[j].0 == midi;
        lemma_first_exact_exists(cal, midi, j);
    }
}

proof fn lemma_first_bracket_exists(cal: Seq<(u8, u32)>, midi: int, i: int)
    requires
        0 <= i && i + 1 < cal.len(),
        between(cal, midi, i),
    ensures
        exists|b: int| first_bracket(cal, midi, b),
    decreases i,
{
    if forall|j: int| 0 <= j < i ==> !#[trigger] between(cal, midi, j) {
        assert(first_bracket(cal, midi, i));
    } else {
        let j = choose|j: int| 0 <= j < i && #[trigger] between(cal, midi, j);
        lemma_first_bracket_exists(cal, midi, j);
    }
}

proof fn lemma_all_below(cal: Seq<(u8, u32)>, midi: int, j: int)
    requires
        0 <= j < cal.len(),
        cal[0].0 <= midi,
        forall|i: int| 0 <= i < cal.len() ==> #[trigger] cal[i].0 != midi,
        forall|i: int| 0 <= i && i + 1 < cal.len() ==> !#[trigger] between(cal, midi, i),
    ensures
        cal[j].0 < midi,
    decreases j,
{
    if j > 0 {
        lemma_all_below(cal, midi, j - 1);
        assert(!between(cal, midi, j - 1));
        assert(cal[j].0 != midi);
    } else {
        assert(cal[0].0 != midi);
    }
}

/// A profile whose ascending calibration spans its whole playable range gives
/// every playable note a place on the neck.
pub proof fn lemma_spanning_calibration_places_every_note(profile: OtamatoneProfile, midi: int)
    requires
        profile.calibration@.len() > 0,
        calibration_ascending(profile.calibration@),
        profile.calibration@[0].0 <= profile.midi_min,
        profile.calibration@.last().0 >= profile.midi_max,
        profile.midi_min <= midi <= profile.midi_max,
    ensures
        neck_position_spec(profile, midi) is Some,
{
    let cal = profile.calibration@;
    if exists|i: int| 0 <= i < cal.len() && #[trigger] cal[i].0 == midi {
        let i = choose|i: int| 0 <= i < cal.len() && #[trigger] cal[i].0 == midi;
        lemma_first_exact_exists(cal, midi, i);
    } else if exists|i: int| 0 <= i && i + 1 < cal.len() && #[trigger] between(cal, midi, i) {
        let i = choose|i: int| 0 <= i && i + 1 < cal.len() && #[trigger] between(cal, midi, i);
        lemma_first_bracket_exists(cal, midi, i);
        assert(!exists|e: int| first_exact(cal, midi, e));
    } else {
        lemma_all_below(cal, midi, cal.len() - 1);
    }
}

/// A profile calibrated like the standard one (A3 to A5, one point per
/// semitone, evenly spaced on a neck 24 units long) places note `midi` exactly
/// `(midi - 57) / 24` of the way up the neck, and has no place for notes outside
/// A3..A5.
pub proof fn lemma_standard_calibration_is_linear(profile: OtamatoneProfile, midi: int)
    requires
        profile.midi_min == 57,
        profile.midi_max == 81,
        profile.neck_length == 24,
        profile.calibration@.len() == 25,
        forall|k: int| 0 <= k < 25 ==> #[trigger] profile.calibration@[k] == default_calibration_point(k),
    ensures
        neck_position_spec(profile, midi) == if 57 <= midi <= 81 {
            Some(NeckPosition { numerator: (midi - 57) as u64, denominator: 24 })
        } else {
            None::<NeckPosition>
        },
{
    let cal = profile.calibration@;
    if 57 <= midi <= 81 {
        let k = midi - 57;
        assert(cal[k] == default_calibration_point(k));
        assert forall|j: int| 0 <= j < k implies #[trigger] cal[j].0 != midi by {
            assert(cal[j] == default_calibration_point(j));
        }
        assert(first_exact(cal, midi, k));
        let c = choose|c: int| first_exact(cal, midi, c);
        if c > k {
            assert(cal[k].0 != midi);
        } else if c < k {
            assert(cal[c] == default_calibration_point(c));
        }
        assert(c == k);
    }
}

/// Calibration positions never move back down the neck.
pub open spec fn positions_ascending(cal: Seq<(u8, u32)>) -> bool {
    forall|i: int, j: int| 0 <= i < j < cal.len() ==> #[trigger] cal[i].1 <= #[trigger] cal[j].1
}

/// Position `a` is no further up the neck than position `b`.
pub open spec fn no_higher(a: NeckPosition, b: NeckPosition) -> bool {
    a.numerator * b.denominator <= b.numerator * a.denominator
}

/// A placed note's position in parts: it is `n / (s * neck_length)` with
/// `s >= 1`, taken from calibration point `lo` alone (`lo == hi`, `s == 1`) or
/// interpolated between points `lo` and `hi == lo + 1` (`s` their note span).
proof fn lemma_position_parts(profile: OtamatoneProfile, midi: int) -> (parts: (int, int, int, int))
    requires
        neck_position_spec(profile, midi) is Some,
        positions_ascending(profile.calibration@),
    ensures
        ({
            let (n, s, lo, hi) = parts;
            let cal = profile.calibration@;
            let pos = neck_position_spec(profile, midi).unwrap();
            &&& 0 <= lo <= hi < cal.len()
            &&& hi <= lo + 1
            &&& s >= 1
            &&& pos.numerator as int == n
            &&& pos.denominator as int == s * profile.neck_length
            &&& cal[lo].0 <= midi <= cal[hi].0
            &&& (lo == hi ==> s == 1 && n == cal[lo].1 && cal[lo].0 == midi)
            &&& (lo < hi ==> cal[lo].0 < midi < cal[hi].0 && s == cal[hi].0 - cal[lo].0 && n
                == interpolate_numerator(cal[lo], cal[hi], midi))
            &&& cal[lo].1 * s <= n <= cal[hi].1 * s
        }),
{
    let cal = profile.calibration@;
    let len = profile.neck_length as int;
    if exists|i: int| first_exact(cal, midi, i) {
        let i = choose|i: int| first_exact(cal, midi, i);
        (cal[i].1 as int, 1int, i, i)
    } else {
        let i = choose|i: int| first_bracket(cal, midi, i);
        assert(first_bracket(cal, midi, i));
        lemma_interpolate_between(cal[i], cal[i + 1], midi);
        assert(cal[i].1 <= cal[i + 1].1);
        let span = (cal[i + 1].0 - cal[i].0) as int;
        assert(0 <= span * len <= 255 * 0xffff_ffff) by (nonlinear_arith)
            requires
                0 < span <= 255,
                0 <= len <= 0xffff_ffff;
        (interpolate_numerator(cal[i], cal[i + 1], midi), span, i, i + 1)
    }
}

/// Comparing two positions given in units times spans `s1`, `s2`: if the first
/// is at most `a`, `a <= b`, and `b` is at most the second, the first is no
/// higher.
proof fn lemma_chain(n1: int, s1: int, a: int, b: int, n2: int, s2: int, len: int)
    requires
        s1 > 0,
        s2 > 0,
        len >= 0,
        n1 <= a * s1,
        a <= b,
        b * s2 <= n2,
    ensures
        n1 * (s2 * len) <= n2 * (s1 * len),
{
    assert(n1 * s2 <= n2 * s1) by (nonlinear_arith)
        requires
            s1 > 0,
            s2 > 0,
            n1 <= a * s1,
            a <= b,
            b * s2 <= n2;
    assert(n1 * (s2 * len) <= n2 * (s1 * len)) by (nonlinear_arith)
        requires
            n1 * s2 <= n2 * s1,
            len >= 0;
}

/// With ascending calibration notes and positions, a higher note is never
/// pressed lower on the neck.
pub proof fn lemma_neck_position_monotone(profile: OtamatoneProfile, m1: int, m2: int)
    requires
        calibration_ascending(profile.calibration@),
        positions_ascending(profile.calibration@),
        m1 <= m2,
        neck_position_spec(profile, m1) is Some,
        neck_position_spec(profile, m2) is Some,
    ensures
        no_higher(neck_position_spec(profile, m1).unwrap(), neck_position_spec(profile, m2).unwrap()),
{
    let cal = profile.calibration@;
    let len = profile.neck_length as int;
    let (n1, s1, lo1, hi1) = lemma_position_parts(profile, m1);
    let (n2, s2, lo2, hi2) = lemma_position_parts(profile, m2);
    if hi1 <= lo2 {
        if hi1 < lo2 {
            assert(cal[hi1].1 <= cal[lo2].1);
        }
        lemma_chain(n1, s1, cal[hi1].1 as int, cal[lo2].1 as int, n2, s2, len);
    } else {
        // The two notes share one interpolation segment.
        assert(lo1 == lo2 && hi1 == hi2 && lo1 + 1 == hi1) by {
            if lo1 == hi1 {
                assert(cal[lo2].0 < m2);
                if lo2 < lo1 {
                    assert(cal[hi2].0 <= cal[lo1].0);
                }
            } else if lo2 == hi2 {
                assert(cal[lo2].0 == m2);
                assert(m1 < cal[hi1].0);
                if lo2 < lo1 {
                    assert(cal[lo2].0 < cal[lo1].0);
                }
            } else {
                if lo2 < lo1 {
                    assert(cal[hi2].0 <= cal[lo1].0);
                }
            }
        }
        let l = cal[lo1].1 as int;
        let r = cal[hi1].1 as int;
        let lo = cal[lo1].0 as int;
        let hi = cal[hi1].0 as int;
        assert(n2 - n1 == (r - l) * (m2 - m1)) by (nonlinear_arith)
            requires
                n1 == l * (hi - m1) + r * (m1 - lo),
                n2 == l * (hi - m2) + r * (m2 - lo);
        assert((r - l) * (m2 - m1) >= 0) by (nonlinear_arith)
            requires
                r >= l,
                m2 >= m1;
        assert(n1 * (s2 * len) <= n2 * (s1 * len)) by (nonlinear_arith)
            requires
                n1 <= n2,
                s1 == s2,
                s1 > 0,
                len >= 0;
    }
}

} // verus!
