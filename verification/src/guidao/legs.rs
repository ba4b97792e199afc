//! Band cases 1 (triple top / triple bottom divergence) and 2 (1.618 expansion) on
//! strokes, segments and big segments.

use vstd::prelude::*;

use crate::guidao::BandPoint;
use crate::guidao::StrokeForTracking;
use crate::segments::segs_in_range;
use crate::types::Fractal;
use crate::types::Stroke;

verus! {

/// Legs between consecutive fractals among the first `n`: bottom->top legs when `up`,
/// top->bottom legs otherwise; anchored at the later (`bar_at_end`) or earlier fractal.
pub open spec fn fractal_legs(ff: Seq<Fractal>, n: int, up: bool, bar_at_end: bool) -> Seq<
    StrokeForTracking,
>
    decreases n,
{
    if n <= 1 || n > ff.len() {
        Seq::empty()
    } else {
        let r = fractal_legs(ff, n - 1, up, bar_at_end);
        let prev = ff[n - 2];
        let curr = ff[n - 1];
        let is_leg = if up {
            !prev.is_top && curr.is_top
        } else {
            prev.is_top && !curr.is_top
        };
        if is_leg {
            r.push(
                StrokeForTracking {
                    high: if up {
                        curr.price
                    } else {
                        prev.price
                    },
                    low: if up {
                        prev.price
                    } else {
                        curr.price
                    },
                    bar_index: if bar_at_end {
                        curr.bar_index
                    } else {
                        prev.bar_index
                    },
                },
            )
        } else {
            r
        }
    }
}

/// Legs of direction `up` among the first `n` virtual strokes.
pub open spec fn stroke_legs(vs: Seq<Stroke>, n: int, up: bool, bar_at_end: bool) -> Seq<
    StrokeForTracking,
>
    decreases n,
{
    if n <= 0 || n > vs.len() {
        Seq::empty()
    } else {
        let r = stroke_legs(vs, n - 1, up, bar_at_end);
        let s = vs[n - 1];
        if s.is_up == up {
            r.push(
                StrokeForTracking {
                    high: if up {
                        s.end_price
                    } else {
                        s.start_price
                    },
                    low: if up {
                        s.start_price
                    } else {
                        s.end_price
                    },
                    bar_index: if bar_at_end {
                        s.end_bar
                    } else {
                        s.start_bar
                    },
                },
            )
        } else {
            r
        }
    }
}

/// A segment seen as one stroke from its first stroke's start to its last stroke's end.
pub open spec fn seg_stroke(strokes: Seq<Stroke>, seg: (usize, usize, bool)) -> Stroke {
    Stroke {
        start_price: strokes[seg.0 as int].start_price,
        end_price: strokes[seg.1 as int].end_price,
        start_bar: strokes[seg.0 as int].start_bar,
        end_bar: strokes[seg.1 as int].end_bar,
        is_up: seg.2,
    }
}

pub open spec fn seg_strokes(strokes: Seq<Stroke>, segs: Seq<(usize, usize, bool)>) -> Seq<Stroke> {
    Seq::new(segs.len(), |k: int| seg_stroke(strokes, segs[k]))
}

/// A big segment seen as one stroke, when its segments and strokes exist.
pub open spec fn big_stroke(
    strokes: Seq<Stroke>,
    segs: Seq<(usize, usize, bool)>,
    big: (usize, usize, bool),
) -> Option<Stroke> {
    if big.0 < segs.len() && big.1 < segs.len() && segs[big.0 as int].0 < strokes.len()
        && segs[big.1 as int].1 < strokes.len() {
        Some(
            Stroke {
                start_price: strokes[segs[big.0 as int].0 as int].start_price,
                end_price: strokes[segs[big.1 as int].1 as int].end_price,
                start_bar: strokes[segs[big.0 as int].0 as int].start_bar,
                end_bar: strokes[segs[big.1 as int].1 as int].end_bar,
                is_up: big.2,
            },
        )
    } else {
        None
    }
}

/// The resolvable big segments among the first `n`, as strokes.
pub open spec fn big_strokes(
    strokes: Seq<Stroke>,
    segs: Seq<(usize, usize, bool)>,
    bigs: Seq<(usize, usize, bool)>,
    n: int,
) -> Seq<Stroke>
    decreases n,
{
    if n <= 0 || n > bigs.len() {
        Seq::empty()
    } else {
        let r = big_strokes(strokes, segs, bigs, n - 1);
        match big_stroke(strokes, segs, bigs[n - 1]) {
            Some(s) => r.push(s),
            None => r,
        }
    }
}

/// Triple divergence points among the first `n` legs: for upper bands a top followed by
/// two lower tops; for lower bands a bottom followed by two higher bottoms.
pub open spec fn triple_points(legs: Seq<StrokeForTracking>, n: int, upper: bool) -> Seq<BandPoint>
    decreases n,
{
    if n <= 2 || n > legs.len() {
        Seq::empty()
    } else {
        let r = triple_points(legs, n - 1, upper);
        let first = legs[n - 3];
        let second = legs[n - 2];
        let third = legs[n - 1];
        if upper && third.high < first.high && second.high < first.high {
            r.push(BandPoint { value: first.high, bar_index: first.bar_index })
        } else if !upper && third.low > first.low && second.low > first.low {
            r.push(BandPoint { value: first.low, bar_index: first.bar_index })
        } else {
            r
        }
    }
}

/// The second leg's height is at least 1.618 times the first's.
pub open spec fn expands(first: StrokeForTracking, second: StrokeForTracking) -> bool {
    (second.high - second.low) * 1000 >= (first.high - first.low) * 1618
}

/// Expansion points among the first `n` legs: the first leg's high (upper band, the second
/// leg starting lower) or low (lower band, the second leg starting higher).
pub open spec fn expansion_points(legs: Seq<StrokeForTracking>, n: int, upper: bool) -> Seq<BandPoint>
    decreases n,
{
    if n <= 1 || n > legs.len() {
        Seq::empty()
    } else {
        let r = expansion_points(legs, n - 1, upper);
        let first = legs[n - 2];
        let second = legs[n - 1];
        if expands(first, second) && upper && first.high > second.high {
            r.push(BandPoint { value: first.high, bar_index: first.bar_index })
        } else if expands(first, second) && !upper && first.low < second.low {
            r.push(BandPoint { value: first.low, bar_index: first.bar_index })
        } else {
            r
        }
    }
}

/// Case 1 at stroke level: triple divergence points and the legs tracked (both empty
/// with fewer than three fractals or three legs).
pub open spec fn stroke_band_case1(ff: Seq<Fractal>, upper: bool) -> (Seq<BandPoint>, Seq<StrokeForTracking>) {
    let legs = fractal_legs(ff, ff.len() as int, upper, true);
    if ff.len() < 3 || legs.len() < 3 {
        (Seq::empty(), Seq::empty())
    } else {
        (triple_points(legs, legs.len() as int, upper), legs)
    }
}

/// Case 2 at stroke level: expansion points on down strokes (upper band, anchored at their
/// start) or up strokes (lower band, anchored at their end).
pub open spec fn stroke_band_case2(ff: Seq<Fractal>, upper: bool) -> Seq<BandPoint> {
    let legs = fractal_legs(ff, ff.len() as int, !upper, !upper);
    if ff.len() < 3 {
        Seq::empty()
    } else {
        expansion_points(legs, legs.len() as int, upper)
    }
}

/// Case 1 on legs of virtual strokes: with fewer than three groups nothing; with fewer
/// than three legs no point but the legs.
pub open spec fn leg_band_case1(vs: Seq<Stroke>, groups: nat, upper: bool) -> (Seq<BandPoint>, Seq<
    StrokeForTracking,
>) {
    let legs = stroke_legs(vs, vs.len() as int, upper, true);
    if groups < 3 {
        (Seq::empty(), Seq::empty())
    } else if legs.len() < 3 {
        (Seq::empty(), legs)
    } else {
        (triple_points(legs, legs.len() as int, upper), legs)
    }
}

/// Case 2 on legs of virtual strokes (nothing with fewer than two groups).
pub open spec fn leg_band_case2(vs: Seq<Stroke>, groups: nat, upper: bool) -> Seq<BandPoint> {
    let legs = stroke_legs(vs, vs.len() as int, !upper, !upper);
    if groups < 2 {
        Seq::empty()
    } else {
        expansion_points(legs, legs.len() as int, upper)
    }
}

/// Case 1 at segment level.
pub open spec fn seg_band_case1(strokes: Seq<Stroke>, segs: Seq<(usize, usize, bool)>, upper: bool) -> (
    Seq<BandPoint>,
    Seq<StrokeForTracking>,
) {
    leg_band_case1(seg_strokes(strokes, segs), segs.len(), upper)
}

/// Case 2 at segment level.
pub open spec fn seg_band_case2(strokes: Seq<Stroke>, segs: Seq<(usize, usize, bool)>, upper: bool) -> Seq<
    BandPoint,
> {
    leg_band_case2(seg_strokes(strokes, segs), segs.len(), upper)
}

/// Case 1 at big segment level.
pub open spec fn bigseg_band_case1(
    strokes: Seq<Stroke>,
    segs: Seq<(usize, usize, bool)>,
    bigs: Seq<(usize, usize, bool)>,
    upper: bool,
) -> (Seq<BandPoint>, Seq<StrokeForTracking>) {
    leg_band_case1(big_strokes(strokes, segs, bigs, bigs.len() as int), bigs.len(), upper)
}

/// Case 2 at big segment level.
pub open spec fn bigseg_band_case2(
    strokes: Seq<Stroke>,
    segs: Seq<(usize, usize, bool)>,
    bigs: Seq<(usize, usize, bool)>,
    upper: bool,
) -> Seq<BandPoint> {
    leg_band_case2(big_strokes(strokes, segs, bigs, bigs.len() as int), bigs.len(), upper)
}


/// At most one leg per virtual stroke.
pub proof fn lemma_stroke_legs_len(vs: Seq<Stroke>, n: int, up: bool, bar_at_end: bool)
    ensures
        stroke_legs(vs, n, up, bar_at_end).len() <= if n < 0 { 0 } else { n },
    decreases n,
{
    if n > 0 && n <= vs.len() {
        lemma_stroke_legs_len(vs, n - 1, up, bar_at_end);
    }
}

/// At most one stroke per big segment.
pub proof fn lemma_big_strokes_len(
    strokes: Seq<Stroke>,
    segs: Seq<(usize, usize, bool)>,
    bigs: Seq<(usize, usize, bool)>,
    n: int,
)
    ensures
        big_strokes(strokes, segs, bigs, n).len() <= if n < 0 { 0 } else { n },
    decreases n,
{
    if n > 0 && n <= bigs.len() {
        lemma_big_strokes_len(strokes, segs, bigs, n - 1);
    }
}

fn fractal_legs_exec(ff: &[Fractal], up: bool, bar_at_end: bool) -> (r: Vec<StrokeForTracking>)
    ensures
        r@ == fractal_legs(ff@, ff@.len() as int, up, bar_at_end),
{
    let mut out: Vec<StrokeForTracking> = Vec::new();
    let total = ff.len();
    let mut i: usize = 1;
    if total < 2 {
        return out;
    }
    while i < total
        invariant
            total == ff.len(),
            1 <= i <= total,
            out@ == fractal_legs(ff@, i as int, up, bar_at_end),
        decreases total - i,
    {
        let prev = ff[i - 1];
        let curr = ff[i];
        let is_leg = if up {
            !prev.is_top && curr.is_top
        } else {
            prev.is_top && !curr.is_top
        };
        if is_leg {
            out.push(
                StrokeForTracking {
                    high: if up {
                        curr.price
                    } else {
                        prev.price
                    },
                    low: if up {
                        prev.price
                    } else {
                        curr.price
                    },
                    bar_index: if bar_at_end {
                        curr.bar_index
                    } else {
                        prev.bar_index
                    },
                },
            );
        }
        i = i + 1;
    }
    out
}

fn stroke_legs_exec(vs: &[Stroke], up: bool, bar_at_end: bool) -> (r: Vec<StrokeForTracking>)
    ensures
        r@ == stroke_legs(vs@, vs@.len() as int, up, bar_at_end),
{
    let mut out: Vec<StrokeForTracking> = Vec::new();
    let mut k: usize = 0;
    while k < vs.len()
        invariant
            k <= vs.len(),
            out@ == stroke_legs(vs@, k as int, up, bar_at_end),
        decreases vs.len() - k,
    {
        let s = vs[k];
        if s.is_up == up {
            out.push(
                StrokeForTracking {
                    high: if up {
                        s.end_price
                    } else {
                        s.start_price
                    },
                    low: if up {
                        s.start_price
                    } else {
                        s.end_price
                    },
                    bar_index: if bar_at_end {
                        s.end_bar
                    } else {
                        s.start_bar
                    },
                },
            );
        }
        k = k + 1;
    }
    out
}

pub fn seg_strokes_exec(strokes: &[Stroke], segs: &[(usize, usize, bool)]) -> (r: Vec<Stroke>)
    requires
        segs_in_range(strokes@.len(), segs@),
    ensures
        r@ == seg_strokes(strokes@, segs@),
{
    let mut out: Vec<Stroke> = Vec::new();
    let mut k: usize = 0;
    while k < segs.len()
        invariant
            segs_in_range(strokes@.len(), segs@),
            k <= segs.len(),
            out.len() == k,
            forall|m: int| 0 <= m < k ==> out@[m] == seg_stroke(strokes@, segs@[m]),
        decreases segs.len() - k,
    {
        let (si, ei, is_up) = segs[k];
        out.push(
            Stroke {
                start_price: strokes[si].start_price,
                end_price: strokes[ei].end_price,
                start_bar: strokes[si].start_bar,
                end_bar: strokes[ei].end_bar,
                is_up,
            },
        );
        k = k + 1;
    }
    assert(out@ =~= seg_strokes(strokes@, segs@));
    out
}

pub fn big_strokes_exec(strokes: &[Stroke], segs: &[(usize, usize, bool)], bigs: &[(usize, usize, bool)]) -> (r:
    Vec<Stroke>)
    ensures
        r@ == big_strokes(strokes@, segs@, bigs@, bigs@.len() as int),
{
    let mut out: Vec<Stroke> = Vec::new();
    let mut k: usize = 0;
    while k < bigs.len()
        invariant
            k <= bigs.len(),
            out@ == big_strokes(strokes@, segs@, bigs@, k as int),
        decreases bigs.len() - k,
    {
        let (bs, be, is_up) = bigs[k];
        if bs < segs.len() && be < segs.len() {
            let si = segs[bs].0;
            let ei = segs[be].1;
            if si < strokes.len() && ei < strokes.len() {
                out.push(
                    Stroke {
                        start_price: strokes[si].start_price,
                        end_price: strokes[ei].end_price,
                        start_bar: strokes[si].start_bar,
                        end_bar: strokes[ei].end_bar,
                        is_up,
                    },
                );
            }
        }
        k = k + 1;
    }
    out
}

fn triple_points_exec(legs: &[StrokeForTracking], upper: bool) -> (r: Vec<BandPoint>)
    ensures
        r@ == triple_points(legs@, legs@.len() as int, upper),
{
    let mut out: Vec<BandPoint> = Vec::new();
    let n = legs.len();
    if n < 3 {
        return out;
    }
    let mut i: usize = 2;
    while i < n
        invariant
            n == legs.len(),
            2 <= i <= n,
            out@ == triple_points(legs@, i as int, upper),
        decreases n - i,
    {
        let first = legs[i - 2];
        let second = legs[i - 1];
        let third = legs[i];
        if upper && third.high < first.high && second.high < first.high {
            out.push(BandPoint { value: first.high, bar_index: first.bar_index });
        } else if !upper && third.low > first.low && second.low > first.low {
            out.push(BandPoint { value: first.low, bar_index: first.bar_index });
        }
        i = i + 1;
    }
    out
}

fn expands_exec(first: StrokeForTracking, second: StrokeForTracking) -> (r: bool)
    ensures
        r == expands(first, second),
{
    let first_space: i128 = first.high as i128 - first.low as i128;
    let second_space: i128 = second.high as i128 - second.low as i128;
    second_space * 1000 >= first_space * 1618
}

fn expansion_points_exec(legs: &[StrokeForTracking], upper: bool) -> (r: Vec<BandPoint>)
    ensures
        r@ == expansion_points(legs@, legs@.len() as int, upper),
{
    let mut out: Vec<BandPoint> = Vec::new();
    let n = legs.len();
    if n < 2 {
        return out;
    }
    let mut i: usize = 1;
    while i < n
        invariant
            n == legs.len(),
            1 <= i <= n,
            out@ == expansion_points(legs@, i as int, upper),
        decreases n - i,
    {
        let first = legs[i - 1];
        let second = legs[i];
        let e = expands_exec(first, second);
        if e && upper && first.high > second.high {
            out.push(BandPoint { value: first.high, bar_index: first.bar_index });
        } else if e && !upper && first.low < second.low {
            out.push(BandPoint { value: first.low, bar_index: first.bar_index });
        }
        i = i + 1;
    }
    out
}

// ===== Stroke level =====

/// Case 1 upper band: triple-top divergence on up strokes; also returns the up strokes
/// used for tracking (both empty with fewer than three up strokes).
pub fn calc_upper_band_case1(final_fractals: &[Fractal]) -> (r: (Vec<BandPoint>, Vec<StrokeForTracking>))
    ensures
        (r.0@, r.1@) == stroke_band_case1(final_fractals@, true),
{
    if final_fractals.len() < 3 {
        return (Vec::new(), Vec::new());
    }
    let legs = fractal_legs_exec(final_fractals, true, true);
    if legs.len() < 3 {
        return (Vec::new(), Vec::new());
    }
    let points = triple_points_exec(legs.as_slice(), true);
    (points, legs)
}

/// Case 1 lower band: triple-bottom divergence on down strokes; also returns the down
/// strokes used for tracking (both empty with fewer than three down strokes).
pub fn calc_lower_band_case1(final_fractals: &[Fractal]) -> (r: (Vec<BandPoint>, Vec<StrokeForTracking>))
    ensures
        (r.0@, r.1@) == stroke_band_case1(final_fractals@, false),
{
    if final_fractals.len() < 3 {
        return (Vec::new(), Vec::new());
    }
    let legs = fractal_legs_exec(final_fractals, false, true);
    if legs.len() < 3 {
        return (Vec::new(), Vec::new());
    }
    let points = triple_points_exec(legs.as_slice(), false);
    (points, legs)
}

/// Case 2 upper band: a down stroke at least 1.618 times the previous one, starting below
/// it, marks the previous one's high (at its start bar).
pub fn calc_upper_band_case2(final_fractals: &[Fractal]) -> (r: Vec<BandPoint>)
    ensures
        r@ == stroke_band_case2(final_fractals@, true),
{
    if final_fractals.len() < 3 {
        return Vec::new();
    }
    let legs = fractal_legs_exec(final_fractals, false, false);
    expansion_points_exec(legs.as_slice(), true)
}

/// Case 2 lower band: an up stroke at least 1.618 times the previous one, starting above
/// it, marks the previous one's low.
pub fn calc_lower_band_case2(final_fractals: &[Fractal]) -> (r: Vec<BandPoint>)
    ensures
        r@ == stroke_band_case2(final_fractals@, false),
{
    if final_fractals.len() < 3 {
        return Vec::new();
    }
    let legs = fractal_legs_exec(final_fractals, true, true);
    expansion_points_exec(legs.as_slice(), false)
}

// ===== Segment level =====

/// Case 1 upper band on up segments; with fewer than three up segments no point, but the
/// up segments are still returned.
pub fn calc_seg_upper_band_case1(segments: &[(usize, usize, bool)], strokes: &[Stroke]) -> (r: (
    Vec<BandPoint>,
    Vec<StrokeForTracking>,
))
    requires
        segments.len() >= 3 ==> segs_in_range(strokes@.len(), segments@),
    ensures
        (r.0@, r.1@) == seg_band_case1(strokes@, segments@, true),
{
    if segments.len() < 3 {
        return (Vec::new(), Vec::new());
    }
    let vs = seg_strokes_exec(strokes, segments);
    let legs = stroke_legs_exec(vs.as_slice(), true, true);
    if legs.len() < 3 {
        return (Vec::new(), legs);
    }
    let points = triple_points_exec(legs.as_slice(), true);
    (points, legs)
}

/// Case 1 lower band on down segments (mirror of [`calc_seg_upper_band_case1`]).
pub fn calc_seg_lower_band_case1(segments: &[(usize, usize, bool)], strokes: &[Stroke]) -> (r: (
    Vec<BandPoint>,
    Vec<StrokeForTracking>,
))
    requires
        segments.len() >= 3 ==> segs_in_range(strokes@.len(), segments@),
    ensures
        (r.0@, r.1@) == seg_band_case1(strokes@, segments@, false),
{
    if segments.len() < 3 {
        return (Vec::new(), Vec::new());
    }
    let vs = seg_strokes_exec(strokes, segments);
    let legs = stroke_legs_exec(vs.as_slice(), false, true);
    if legs.len() < 3 {
        return (Vec::new(), legs);
    }
    let points = triple_points_exec(legs.as_slice(), false);
    (points, legs)
}

/// Case 2 upper band on down segments (anchored at their start bar).
pub fn calc_seg_upper_band_case2(segments: &[(usize, usize, bool)], strokes: &[Stroke]) -> (r: Vec<
    BandPoint,
>)
    requires
        segments.len() >= 2 ==> segs_in_range(strokes@.len(), segments@),
    ensures
        r@ == seg_band_case2(strokes@, segments@, true),
{
    if segments.len() < 2 {
        return Vec::new();
    }
    let vs = seg_strokes_exec(strokes, segments);
    let legs = stroke_legs_exec(vs.as_slice(), false, false);
    expansion_points_exec(legs.as_slice(), true)
}

/// Case 2 lower band on up segments (anchored at their end bar).
pub fn calc_seg_lower_band_case2(segments: &[(usize, usize, bool)], strokes: &[Stroke]) -> (r: Vec<
    BandPoint,
>)
    requires
        segments.len() >= 2 ==> segs_in_range(strokes@.len(), segments@),
    ensures
        r@ == seg_band_case2(strokes@, segments@, false),
{
    if segments.len() < 2 {
        return Vec::new();
    }
    let vs = seg_strokes_exec(strokes, segments);
    let legs = stroke_legs_exec(vs.as_slice(), true, true);
    expansion_points_exec(legs.as_slice(), false)
}

// ===== Big segment level =====

/// Case 1 upper band on up big segments (those that resolve to strokes).
pub fn calc_bigseg_upper_band_case1(
    big_segments: &[(usize, usize, bool)],
    segments: &[(usize, usize, bool)],
    strokes: &[Stroke],
) -> (r: (Vec<BandPoint>, Vec<StrokeForTracking>))
    ensures
        (r.0@, r.1@) == bigseg_band_case1(strokes@, segments@, big_segments@, true),
{
    if big_segments.len() < 3 {
        return (Vec::new(), Vec::new());
    }
    let vs = big_strokes_exec(strokes, segments, big_segments);
    let legs = stroke_legs_exec(vs.as_slice(), true, true);
    if legs.len() < 3 {
        return (Vec::new(), legs);
    }
    let points = triple_points_exec(legs.as_slice(), true);
    (points, legs)
}

/// Case 1 lower band on down big segments.
pub fn calc_bigseg_lower_band_case1(
    big_segments: &[(usize, usize, bool)],
    segments: &[(usize, usize, bool)],
    strokes: &[Stroke],
) -> (r: (Vec<BandPoint>, Vec<StrokeForTracking>))
    ensures
        (r.0@, r.1@) == bigseg_band_case1(strokes@, segments@, big_segments@, false),
{
    if big_segments.len() < 3 {
        return (Vec::new(), Vec::new());
    }
    let vs = big_strokes_exec(strokes, segments, big_segments);
    let legs = stroke_legs_exec(vs.as_slice(), false, true);
    if legs.len() < 3 {
        return (Vec::new(), legs);
    }
    let points = triple_points_exec(legs.as_slice(), false);
    (points, legs)
}

/// Case 2 upper band on down big segments (anchored at their start bar).
pub fn calc_bigseg_upper_band_case2(
    big_segments: &[(usize, usize, bool)],
    segments: &[(usize, usize, bool)],
    strokes: &[Stroke],
) -> (r: Vec<BandPoint>)
    ensures
        r@ == bigseg_band_case2(strokes@, segments@, big_segments@, true),
{
    if big_segments.len() < 2 {
        return Vec::new();
    }
    let vs = big_strokes_exec(strokes, segments, big_segments);
    let legs = stroke_legs_exec(vs.as_slice(), false, false);
    expansion_points_exec(legs.as_slice(), true)
}

/// Case 2 lower band on up big segments (anchored at their end bar).
pub fn calc_bigseg_lower_band_case2(
    big_segments: &[(usize, usize, bool)],
    segments: &[(usize, usize, bool)],
    strokes: &[Stroke],
) -> (r: Vec<BandPoint>)
    ensures
        r@ == bigseg_band_case2(strokes@, segments@, big_segments@, false),
{
    if big_segments.len() < 2 {
        return Vec::new();
    }
    let vs = big_strokes_exec(strokes, segments, big_segments);
    let legs = stroke_legs_exec(vs.as_slice(), true, true);
    expansion_points_exec(legs.as_slice(), false)
}


// ===== Mirror symmetry of case 1 =====

/// Fractals with negated prices and swapped directions.
pub open spec fn mirror_fractals(ff: Seq<Fractal>) -> Seq<Fractal> {
    Seq::new(
        ff.len(),
        |k: int|
            Fractal {
                price: (-ff[k].price) as i64,
                is_top: !ff[k].is_top,
                bar_index: ff[k].bar_index,
                merged_index: ff[k].merged_index,
                time: ff[k].time,
            },
    )
}

/// Band points with negated values.
pub open spec fn mirror_points(ps: Seq<BandPoint>) -> Seq<BandPoint> {
    Seq::new(ps.len(), |k: int| BandPoint { value: (-ps[k].value) as i64, bar_index: ps[k].bar_index })
}

/// Tracked legs with negated prices (the negated low becomes the high).
pub open spec fn mirror_legs(ls: Seq<StrokeForTracking>) -> Seq<StrokeForTracking> {
    Seq::new(
        ls.len(),
        |k: int|
            StrokeForTracking {
                high: (-ls[k].low) as i64,
                low: (-ls[k].high) as i64,
                bar_index: ls[k].bar_index,
            },
    )
}

proof fn lemma_mirror_fractal_legs(ff: Seq<Fractal>, n: int)
    requires
        forall|k: int| 0 <= k < ff.len() ==> (#[trigger] ff[k]).price != i64::MIN,
    ensures
        fractal_legs(ff, n, false, true) == mirror_legs(
            fractal_legs(mirror_fractals(ff), n, true, true),
        ),
        forall|k: int|
            0 <= k < fractal_legs(mirror_fractals(ff), n, true, true).len() ==> (
            #[trigger] fractal_legs(mirror_fractals(ff), n, true, true)[k]).high != i64::MIN,
    decreases n,
{
    let g = mirror_fractals(ff);
    if !(n <= 1 || n > ff.len()) {
        lemma_mirror_fractal_legs(ff, n - 1);
        let r = fractal_legs(ff, n - 1, false, true);
        let u = fractal_legs(g, n - 1, true, true);
        let prev = ff[n - 2];
        let curr = ff[n - 1];
        assert(g[n - 2].price == -prev.price && g[n - 1].price == -curr.price);
        assert(g[n - 2].is_top == !prev.is_top && g[n - 1].is_top == !curr.is_top);
        let a = fractal_legs(ff, n, false, true);
        let b = fractal_legs(g, n, true, true);
        assert(a =~= mirror_legs(b)) by {
            if prev.is_top && !curr.is_top {
                assert(a == r.push(
                    StrokeForTracking { high: prev.price, low: curr.price, bar_index: curr.bar_index },
                ));
                assert(b == u.push(
                    StrokeForTracking {
                        high: g[n - 1].price,
                        low: g[n - 2].price,
                        bar_index: g[n - 1].bar_index,
                    },
                ));
                assert forall|k: int| 0 <= k < a.len() implies a[k] == mirror_legs(b)[k] by {
                    if k < r.len() {
                        assert(a[k] == r[k] && b[k] == u[k]);
                    }
                }
            } else {
                assert(a == r && b == u);
            }
        }
        assert forall|k: int| 0 <= k < b.len() implies (#[trigger] b[k]).high != i64::MIN by {
            if k < u.len() {
                assert(b[k] == u[k]);
            }
        }
    }
}

proof fn lemma_mirror_triple_points(legs: Seq<StrokeForTracking>, n: int)
    requires
        forall|k: int| 0 <= k < legs.len() ==> (#[trigger] legs[k]).high != i64::MIN,
    ensures
        triple_points(mirror_legs(legs), n, false) == mirror_points(triple_points(legs, n, true)),
    decreases n,
{
    if !(n <= 2 || n > legs.len()) {
        lemma_mirror_triple_points(legs, n - 1);
        let m = mirror_legs(legs);
        let r = triple_points(m, n - 1, false);
        let u = triple_points(legs, n - 1, true);
        let a = triple_points(m, n, false);
        let b = triple_points(legs, n, true);
        let (f, s, t) = (legs[n - 3], legs[n - 2], legs[n - 1]);
        assert(m[n - 3].low == -f.high && m[n - 2].low == -s.high && m[n - 1].low == -t.high);
        assert(a =~= mirror_points(b)) by {
            if t.high < f.high && s.high < f.high {
                assert(b == u.push(BandPoint { value: f.high, bar_index: f.bar_index }));
                assert(a == r.push(BandPoint { value: m[n - 3].low, bar_index: m[n - 3].bar_index }));
                assert forall|k: int| 0 <= k < a.len() implies a[k] == mirror_points(b)[k] by {
                    if k < r.len() {
                        assert(a[k] == r[k] && b[k] == u[k]);
                    }
                }
            } else {
                assert(a == r && b == u);
            }
        }
    }
}

/// Law: case 1 of the lower stroke band is the mirror image of case 1 of the upper band on
/// negated prices (points and tracked legs alike), for prices whose negation is an `i64`.
pub proof fn lemma_case1_mirror(ff: Seq<Fractal>)
    requires
        forall|k: int| 0 <= k < ff.len() ==> (#[trigger] ff[k]).price != i64::MIN,
    ensures
        stroke_band_case1(ff, false).0 == mirror_points(stroke_band_case1(mirror_fractals(ff), true).0),
        stroke_band_case1(ff, false).1 == mirror_legs(stroke_band_case1(mirror_fractals(ff), true).1),
{
    let g = mirror_fractals(ff);
    lemma_mirror_fractal_legs(ff, ff.len() as int);
    let legs = fractal_legs(g, g.len() as int, true, true);
    lemma_mirror_triple_points(legs, legs.len() as int);
    if ff.len() < 3 || legs.len() < 3 {
        assert(mirror_points(Seq::<BandPoint>::empty()) =~= Seq::<BandPoint>::empty());
        assert(mirror_legs(Seq::<StrokeForTracking>::empty()) =~= Seq::<StrokeForTracking>::empty());
    }
}


// ===== What case 1 selects =====

/// Leg `k` starts a triple divergence: for an upper band both following legs have a lower
/// high than leg `k`; for a lower band both following legs have a higher low.
pub open spec fn divergence_at(legs: Seq<StrokeForTracking>, k: int, upper: bool) -> bool {
    &&& 0 <= k
    &&& k + 2 < legs.len()
    &&& if upper {
        legs[k + 1].high < legs[k].high && legs[k + 2].high < legs[k].high
    } else {
        legs[k + 1].low > legs[k].low && legs[k + 2].low > legs[k].low
    }
}

/// The band point leg `k` gives: its high (upper band) or low (lower band) at its bar.
pub open spec fn leg_point(legs: Seq<StrokeForTracking>, k: int, upper: bool) -> BandPoint {
    BandPoint { value: if upper { legs[k].high } else { legs[k].low }, bar_index: legs[k].bar_index }
}

/// `p` is the point of some leg that starts a triple divergence.
pub open spec fn from_divergence(legs: Seq<StrokeForTracking>, p: BandPoint, upper: bool) -> bool {
    exists|k: int| #[trigger] divergence_at(legs, k, upper) && p == leg_point(legs, k, upper)
}

/// `p` occurs in `pts`.
pub open spec fn has_point(pts: Seq<BandPoint>, p: BandPoint) -> bool {
    exists|m: int| 0 <= m < pts.len() && #[trigger] pts[m] == p
}

proof fn lemma_triple_points_exact(legs: Seq<StrokeForTracking>, n: int, upper: bool)
    requires
        n <= legs.len(),
    ensures
        forall|m: int|
            0 <= m < triple_points(legs, n, upper).len() ==> from_divergence(
                legs,
                #[trigger] triple_points(legs, n, upper)[m],
                upper,
            ),
        forall|k: int|
            #[trigger] divergence_at(legs, k, upper) && k + 2 < n ==> has_point(
                triple_points(legs, n, upper),
                leg_point(legs, k, upper),
            ),
    decreases n,
{
    if n > 2 {
        lemma_triple_points_exact(legs, n - 1, upper);
        let r = triple_points(legs, n - 1, upper);
        let t = triple_points(legs, n, upper);
        let k0 = n - 3;
        if divergence_at(legs, k0, upper) {
            assert(t == r.push(leg_point(legs, k0, upper)));
        } else {
            assert(t == r);
        }
        assert forall|m: int| 0 <= m < t.len() implies from_divergence(legs, #[trigger] t[m], upper) by {
            if m < r.len() {
                assert(t[m] == r[m]);
            } else {
                assert(divergence_at(legs, k0, upper));
            }
        }
        assert forall|k: int| #[trigger] divergence_at(legs, k, upper) && k + 2 < n implies has_point(
            t,
            leg_point(legs, k, upper),
        ) by {
            if k < k0 {
                let m = choose|m: int| 0 <= m < r.len() && #[trigger] r[m] == leg_point(legs, k, upper);
                assert(t[m] == r[m]);
            } else {
                assert(t[r.len() as int] == leg_point(legs, k0, upper));
            }
        }
    }
}

/// Law: the case 1 points of a stroke band are exactly the points of the returned legs
/// that start a triple divergence: each point is the high (upper) or low (lower) of a leg
/// whose next two legs both stay strictly below (upper) or above (lower) it, and every
/// such leg gives a point.
pub proof fn lemma_case1_points_are_divergences(ff: Seq<Fractal>, upper: bool)
    ensures
        ({
            let (pts, legs) = stroke_band_case1(ff, upper);
            &&& forall|m: int| 0 <= m < pts.len() ==> from_divergence(legs, #[trigger] pts[m], upper)
            &&& forall|k: int| #[trigger] divergence_at(legs, k, upper) ==> has_point(pts, leg_point(legs, k, upper))
        }),
{
    let legs = fractal_legs(ff, ff.len() as int, upper, true);
    lemma_triple_points_exact(legs, legs.len() as int, upper);
}

/// Law: the same at segment and big segment level (any legs of virtual strokes).
pub proof fn lemma_leg_case1_points_are_divergences(vs: Seq<Stroke>, groups: nat, upper: bool)
    ensures
        ({
            let (pts, legs) = leg_band_case1(vs, groups, upper);
            &&& forall|m: int| 0 <= m < pts.len() ==> from_divergence(legs, #[trigger] pts[m], upper)
            &&& forall|k: int| #[trigger] divergence_at(legs, k, upper) ==> has_point(pts, leg_point(legs, k, upper))
        }),
{
    let legs = stroke_legs(vs, vs.len() as int, upper, true);
    lemma_triple_points_exact(legs, legs.len() as int, upper);
}

/// Fractals `i` and `i + 1` form a leg of direction `up` (bottom then top when `up`,
/// top then bottom otherwise).
pub open spec fn leg_pair(ff: Seq<Fractal>, i: int, up: bool) -> bool {
    &&& 0 <= i
    &&& i + 1 < ff.len()
    &&& ff[i].is_top != up
    &&& ff[i + 1].is_top == up
}

/// `t` is the leg joining fractals `i` and `i + 1`: its high is the top's price, its low
/// the bottom's, and it is dated at the later (`bar_at_end`) or earlier fractal.
pub open spec fn joins(ff: Seq<Fractal>, i: int, t: StrokeForTracking, bar_at_end: bool) -> bool {
    let (top, bottom) = if ff[i].is_top { (ff[i], ff[i + 1]) } else { (ff[i + 1], ff[i]) };
    &&& t.high == top.price
    &&& t.low == bottom.price
    &&& t.bar_index == if bar_at_end { ff[i + 1].bar_index } else { ff[i].bar_index }
}

/// Some leg of `legs` joins the pair at `i`.
pub open spec fn leg_found(ff: Seq<Fractal>, legs: Seq<StrokeForTracking>, i: int, bar_at_end: bool) -> bool {
    exists|m: int| 0 <= m < legs.len() && joins(ff, i, #[trigger] legs[m], bar_at_end)
}

/// Some pair of direction `up` is joined by `t`.
pub open spec fn joins_some_pair(ff: Seq<Fractal>, t: StrokeForTracking, up: bool, bar_at_end: bool) -> bool {
    exists|i: int| #[trigger] leg_pair(ff, i, up) && joins(ff, i, t, bar_at_end)
}

proof fn lemma_fractal_legs_exact(ff: Seq<Fractal>, n: int, up: bool, bar_at_end: bool)
    requires
        n <= ff.len(),
    ensures
        forall|m: int|
            0 <= m < fractal_legs(ff, n, up, bar_at_end).len() ==> joins_some_pair(
                ff,
                #[trigger] fractal_legs(ff, n, up, bar_at_end)[m],
                up,
                bar_at_end,
            ),
        forall|i: int|
            #[trigger] leg_pair(ff, i, up) && i + 1 < n ==> leg_found(
                ff,
                fractal_legs(ff, n, up, bar_at_end),
                i,
                bar_at_end,
            ),
    decreases n,
{
    if n > 1 {
        lemma_fractal_legs_exact(ff, n - 1, up, bar_at_end);
        let r = fractal_legs(ff, n - 1, up, bar_at_end);
        let t = fractal_legs(ff, n, up, bar_at_end);
        let i0 = n - 2;
        if leg_pair(ff, i0, up) {
            assert(t.len() == r.len() + 1);
            assert(joins(ff, i0, t[r.len() as int], bar_at_end));
        } else {
            assert(t == r);
        }
        assert forall|m: int| 0 <= m < t.len() implies joins_some_pair(ff, #[trigger] t[m], up, bar_at_end) by {
            if m < r.len() {
                assert(t[m] == r[m]);
            } else {
                assert(leg_pair(ff, i0, up));
            }
        }
        assert forall|i: int| #[trigger] leg_pair(ff, i, up) && i + 1 < n implies leg_found(
            ff,
            t,
            i,
            bar_at_end,
        ) by {
            if i < i0 {
                let m = choose|m: int| 0 <= m < r.len() && joins(ff, i, #[trigger] r[m], bar_at_end);
                assert(t[m] == r[m]);
            } else {
                assert(joins(ff, i0, t[r.len() as int], bar_at_end));
            }
        }
    }
}

/// Law: the legs tracked by case 1 of a stroke band are exactly the consecutive final
/// fractal pairs of the band's direction (bottom then top for the upper band, top then
/// bottom for the lower), each with the top's price as high, the bottom's as low, dated at
/// the later fractal; none are returned below three fractals or three legs.
pub proof fn lemma_case1_legs_join_fractals(ff: Seq<Fractal>, upper: bool)
    ensures
        ({
            let legs = stroke_band_case1(ff, upper).1;
            &&& forall|m: int| 0 <= m < legs.len() ==> joins_some_pair(ff, #[trigger] legs[m], upper, true)
            &&& legs.len() > 0 ==> forall|i: int| #[trigger] leg_pair(ff, i, upper) ==> leg_found(ff, legs, i, true)
        }),
{
    lemma_fractal_legs_exact(ff, ff.len() as int, upper, true);
}

/// Law: case 2 of a stroke band looks at the legs of the other direction: every point is
/// the high (upper band) or low (lower band) of a leg that joins a consecutive fractal
/// pair of that direction and is followed by a leg that expands it at least 1.618 times and
/// starts lower (upper band) or higher (lower band).
pub proof fn lemma_case2_points_from_expansions(ff: Seq<Fractal>, upper: bool)
    ensures
        ({
            let legs = fractal_legs(ff, ff.len() as int, !upper, !upper);
            let pts = stroke_band_case2(ff, upper);
            &&& forall|m: int| 0 <= m < legs.len() ==> joins_some_pair(ff, #[trigger] legs[m], !upper, !upper)
            &&& forall|i: int| #[trigger] leg_pair_against(ff, i, upper) ==> leg_found(ff, legs, i, !upper)
            &&& forall|m: int| 0 <= m < pts.len() ==> #[trigger] expansion_from(legs, pts[m], upper)
            &&& ff.len() >= 3 ==> forall|k: int| #[trigger] expansion_at(legs, k, upper) ==> has_point(pts, leg_point(legs, k, upper))
        }),
{
    lemma_fractal_legs_exact(ff, ff.len() as int, !upper, !upper);
    let legs = fractal_legs(ff, ff.len() as int, !upper, !upper);
    lemma_expansion_points_exact(legs, legs.len() as int, upper);
    assert forall|i: int| #[trigger] leg_pair_against(ff, i, upper) implies leg_found(ff, legs, i, !upper) by {
        assert(leg_pair(ff, i, !upper));
    }
}

/// Fractals `i` and `i + 1` form a leg against the band's direction.
pub open spec fn leg_pair_against(ff: Seq<Fractal>, i: int, upper: bool) -> bool {
    leg_pair(ff, i, !upper)
}

/// Leg `k` is expanded by leg `k + 1` (height at least 1.618 times) and the next leg lies
/// lower (upper band: a lower high) or higher (lower band: a higher low).
pub open spec fn expansion_at(legs: Seq<StrokeForTracking>, k: int, upper: bool) -> bool {
    &&& 0 <= k
    &&& k + 1 < legs.len()
    &&& (legs[k + 1].high - legs[k + 1].low) * 1000 >= (legs[k].high - legs[k].low) * 1618
    &&& if upper {
        legs[k].high > legs[k + 1].high
    } else {
        legs[k].low < legs[k + 1].low
    }
}

/// `p` is the point of some leg that is expanded by the next one.
pub open spec fn expansion_from(legs: Seq<StrokeForTracking>, p: BandPoint, upper: bool) -> bool {
    exists|k: int| #[trigger] expansion_at(legs, k, upper) && p == leg_point(legs, k, upper)
}

proof fn lemma_expansion_points_exact(legs: Seq<StrokeForTracking>, n: int, upper: bool)
    requires
        n <= legs.len(),
    ensures
        forall|m: int|
            0 <= m < expansion_points(legs, n, upper).len() ==> #[trigger] expansion_from(
                legs,
                expansion_points(legs, n, upper)[m],
                upper,
            ),
        forall|k: int|
            #[trigger] expansion_at(legs, k, upper) && k + 1 < n ==> has_point(
                expansion_points(legs, n, upper),
                leg_point(legs, k, upper),
            ),
    decreases n,
{
    if n > 1 {
        lemma_expansion_points_exact(legs, n - 1, upper);
        let r = expansion_points(legs, n - 1, upper);
        let t = expansion_points(legs, n, upper);
        let k0 = n - 2;
        if expansion_at(legs, k0, upper) {
            assert(t == r.push(leg_point(legs, k0, upper)));
        } else {
            assert(t == r);
        }
        assert forall|m: int| 0 <= m < t.len() implies #[trigger] expansion_from(legs, t[m], upper) by {
            if m < r.len() {
                assert(t[m] == r[m]);
            } else {
                assert(expansion_at(legs, k0, upper));
            }
        }
        assert forall|k: int| #[trigger] expansion_at(legs, k, upper) && k + 1 < n implies has_point(
            t,
            leg_point(legs, k, upper),
        ) by {
            if k < k0 {
                let m = choose|m: int| 0 <= m < r.len() && #[trigger] r[m] == leg_point(legs, k, upper);
                assert(t[m] == r[m]);
            } else {
                assert(t[r.len() as int] == leg_point(legs, k0, upper));
            }
        }
    }
}

} // verus!
