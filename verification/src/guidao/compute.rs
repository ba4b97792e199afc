//! Band entry points: the four cases merged, ordered, track-followed and relocated to the
//! fractal confirmation bars, at stroke, segment and big segment level.

use vstd::prelude::*;

use crate::candles::merged_candles_spec;
use crate::candles::process_merged_candles;
use crate::guidao::legs::bigseg_band_case1;
use crate::guidao::legs::bigseg_band_case2;
use crate::guidao::legs::calc_bigseg_lower_band_case1;
use crate::guidao::legs::calc_bigseg_lower_band_case2;
use crate::guidao::legs::calc_bigseg_upper_band_case1;
use crate::guidao::legs::calc_bigseg_upper_band_case2;
use crate::guidao::legs::calc_lower_band_case1;
use crate::guidao::legs::calc_lower_band_case2;
use crate::guidao::legs::calc_seg_lower_band_case1;
use crate::guidao::legs::calc_seg_lower_band_case2;
use crate::guidao::legs::calc_seg_upper_band_case1;
use crate::guidao::legs::calc_seg_upper_band_case2;
use crate::guidao::legs::calc_upper_band_case1;
use crate::guidao::legs::calc_upper_band_case2;
use crate::guidao::legs::seg_band_case1;
use crate::guidao::legs::seg_band_case2;
use crate::guidao::legs::stroke_band_case1;
use crate::guidao::legs::stroke_band_case2;
use crate::guidao::tracking::apply_tracking;
use crate::guidao::tracking::relocate_band_lift_points;
use crate::guidao::tracking::relocate_spec;
use crate::guidao::tracking::sort_band_points;
use crate::guidao::tracking::sort_bp;
use crate::guidao::tracking::tracking_spec;
use crate::guidao::turns::big_signal_points;
use crate::guidao::turns::big_turns_spec;
use crate::guidao::turns::big_v_signals_spec;
use crate::guidao::turns::calc_bigseg_lower_band_case3;
use crate::guidao::turns::calc_bigseg_lower_band_case4;
use crate::guidao::turns::calc_bigseg_upper_band_case3;
use crate::guidao::turns::calc_bigseg_upper_band_case4;
use crate::guidao::turns::calc_lower_band_case3;
use crate::guidao::turns::calc_lower_band_case4;
use crate::guidao::turns::calc_seg_lower_band_case3;
use crate::guidao::turns::calc_seg_lower_band_case4;
use crate::guidao::turns::calc_seg_upper_band_case3;
use crate::guidao::turns::calc_seg_upper_band_case4;
use crate::guidao::turns::calc_upper_band_case3;
use crate::guidao::turns::calc_upper_band_case4;
use crate::guidao::turns::detect_big_seg_turn_signals;
use crate::guidao::turns::detect_big_v_signals;
use crate::guidao::turns::detect_segment_turn_signals;
use crate::guidao::turns::detect_segment_v_signals;
use crate::guidao::turns::detect_turn_signals;
use crate::guidao::turns::detect_v_signals;
use crate::guidao::turns::lemma_turns_in_range;
use crate::guidao::turns::segment_signal_points;
use crate::guidao::turns::segment_turns_spec;
use crate::guidao::turns::segment_v_signals_spec;
use crate::guidao::turns::stroke_signal_points;
use crate::guidao::turns::turns_spec;
use crate::guidao::turns::v_signals_spec;
use crate::guidao::BandPoint;
use crate::guidao::StrokeForTracking;
use crate::segments::bigs_in_range;
use crate::segments::project_big_segments;
use crate::segments::project_segments;
use crate::segments::segs_in_range;
use crate::types::Fractal;
use crate::types::Stroke;

verus! {

/// A band from its raw points (already ordered by bar): track-followed along `legs`, then
/// lifted points moved to their fractal's confirmation bar.
pub open spec fn finish_band(
    raw: Seq<BandPoint>,
    legs: Seq<StrokeForTracking>,
    highs: Seq<i64>,
    lows: Seq<i64>,
    ff: Seq<Fractal>,
    upper: bool,
) -> Seq<BandPoint> {
    relocate_spec(tracking_spec(raw, legs, upper), raw, merged_candles_spec(highs, lows), ff, upper)
}

/// Raw stroke-level band points: cases 1 to 4 together, ordered by bar (stable).
pub open spec fn stroke_band_raw(
    ff: Seq<Fractal>,
    strokes: Seq<Stroke>,
    segs: Seq<(usize, usize, bool)>,
    upper: bool,
) -> Seq<BandPoint> {
    let ts = turns_spec(strokes, segs);
    let vs = v_signals_spec(ts, strokes.len());
    sort_bp(
        stroke_band_case1(ff, upper).0 + stroke_band_case2(ff, upper) + stroke_signal_points(
            ts,
            strokes,
            upper,
            false,
            ts.len() as int,
        ) + stroke_signal_points(vs, strokes, upper, true, vs.len() as int),
    )
}

/// Stroke-level band (upper or lower).
pub open spec fn stroke_band_spec(
    ff: Seq<Fractal>,
    strokes: Seq<Stroke>,
    segs: Seq<(usize, usize, bool)>,
    highs: Seq<i64>,
    lows: Seq<i64>,
    upper: bool,
) -> Seq<BandPoint> {
    finish_band(
        stroke_band_raw(ff, strokes, segs, upper),
        stroke_band_case1(ff, upper).1,
        highs,
        lows,
        ff,
        upper,
    )
}

/// Raw segment-level band points.
pub open spec fn segment_band_raw(
    segs: Seq<(usize, usize, bool)>,
    bigs: Seq<(usize, usize, bool)>,
    strokes: Seq<Stroke>,
    upper: bool,
) -> Seq<BandPoint> {
    let ts = segment_turns_spec(strokes, segs, bigs);
    let vs = segment_v_signals_spec(ts);
    sort_bp(
        seg_band_case1(strokes, segs, upper).0 + seg_band_case2(strokes, segs, upper)
            + segment_signal_points(ts, segs, strokes, upper, false, ts.len() as int)
            + segment_signal_points(vs, segs, strokes, upper, true, vs.len() as int),
    )
}

/// Segment-level band (upper or lower).
pub open spec fn segment_band_spec(
    segs: Seq<(usize, usize, bool)>,
    bigs: Seq<(usize, usize, bool)>,
    strokes: Seq<Stroke>,
    highs: Seq<i64>,
    lows: Seq<i64>,
    ff: Seq<Fractal>,
    upper: bool,
) -> Seq<BandPoint> {
    finish_band(
        segment_band_raw(segs, bigs, strokes, upper),
        seg_band_case1(strokes, segs, upper).1,
        highs,
        lows,
        ff,
        upper,
    )
}

/// Raw big-segment-level band points.
pub open spec fn bigseg_band_raw(
    bigs: Seq<(usize, usize, bool)>,
    segs: Seq<(usize, usize, bool)>,
    strokes: Seq<Stroke>,
    sups: Seq<(usize, usize, bool)>,
    upper: bool,
) -> Seq<BandPoint> {
    let ts = big_turns_spec(strokes, segs, bigs, sups);
    let vs = big_v_signals_spec(ts);
    sort_bp(
        bigseg_band_case1(strokes, segs, bigs, upper).0 + bigseg_band_case2(
            strokes,
            segs,
            bigs,
            upper,
        ) + big_signal_points(ts, bigs, segs, strokes, upper, false, ts.len() as int)
            + big_signal_points(vs, bigs, segs, strokes, upper, true, vs.len() as int),
    )
}

/// Big-segment-level band (upper or lower).
pub open spec fn bigseg_band_spec(
    bigs: Seq<(usize, usize, bool)>,
    segs: Seq<(usize, usize, bool)>,
    strokes: Seq<Stroke>,
    sups: Seq<(usize, usize, bool)>,
    ff: Seq<Fractal>,
    highs: Seq<i64>,
    lows: Seq<i64>,
    upper: bool,
) -> Seq<BandPoint> {
    finish_band(
        bigseg_band_raw(bigs, segs, strokes, sups, upper),
        bigseg_band_case1(strokes, segs, bigs, upper).1,
        highs,
        lows,
        ff,
        upper,
    )
}

fn concat4(a: Vec<BandPoint>, b: Vec<BandPoint>, c: Vec<BandPoint>, d: Vec<BandPoint>) -> (r: Vec<
    BandPoint,
>)
    ensures
        r@ == a@ + b@ + c@ + d@,
{
    let mut r = a;
    let mut b = b;
    let mut c = c;
    let mut d = d;
    r.append(&mut b);
    r.append(&mut c);
    r.append(&mut d);
    r
}

/// Raw stroke-level points and tracked legs of both sides:
/// `(upper raw, up legs, lower raw, down legs)`.
pub(crate) fn stroke_raw_bands(
    final_fractals: &[Fractal],
    strokes: &[Stroke],
    segments: &[(usize, usize, bool)],
    highs: &[i64],
    lows: &[i64],
) -> (r: (Vec<BandPoint>, Vec<StrokeForTracking>, Vec<BandPoint>, Vec<StrokeForTracking>))
    ensures
        r.0@ == stroke_band_raw(final_fractals@, strokes@, segments@, true),
        r.1@ == stroke_band_case1(final_fractals@, true).1,
        r.2@ == stroke_band_raw(final_fractals@, strokes@, segments@, false),
        r.3@ == stroke_band_case1(final_fractals@, false).1,
{
    let (upper_c1, up_strokes) = calc_upper_band_case1(final_fractals);
    let upper_c2 = calc_upper_band_case2(final_fractals);
    let (lower_c1, down_strokes) = calc_lower_band_case1(final_fractals);
    let lower_c2 = calc_lower_band_case2(final_fractals);

    let turn_signals = detect_turn_signals(strokes, segments, highs, lows);
    let upper_c3 = calc_upper_band_case3(turn_signals.as_slice(), strokes);
    let lower_c3 = calc_lower_band_case3(turn_signals.as_slice(), strokes);

    let v_signals = detect_v_signals(turn_signals.as_slice(), strokes, highs, lows);
    let upper_c4 = calc_upper_band_case4(v_signals.as_slice(), strokes);
    let lower_c4 = calc_lower_band_case4(v_signals.as_slice(), strokes);

    let upper_all = concat4(upper_c1, upper_c2, upper_c3, upper_c4);
    let upper_raw = sort_band_points(upper_all.as_slice());
    let lower_all = concat4(lower_c1, lower_c2, lower_c3, lower_c4);
    let lower_raw = sort_band_points(lower_all.as_slice());
    (upper_raw, up_strokes, lower_raw, down_strokes)
}

/// Stroke-level bands `(upper, lower)`: cases 1 to 4, ordered by bar, track-followed along
/// the up (upper) or down (lower) strokes, lifted points moved to their confirmation bar.
pub fn compute_stroke_bands(
    final_fractals: &[Fractal],
    strokes: &[Stroke],
    segments: &[(usize, usize, bool)],
    highs: &[i64],
    lows: &[i64],
) -> (r: (Vec<BandPoint>, Vec<BandPoint>))
    requires
        lows.len() >= highs.len(),
    ensures
        r.0@ == stroke_band_spec(final_fractals@, strokes@, segments@, highs@, lows@, true),
        r.1@ == stroke_band_spec(final_fractals@, strokes@, segments@, highs@, lows@, false),
{
    let (upper_raw, up_strokes, lower_raw, down_strokes) = stroke_raw_bands(
        final_fractals,
        strokes,
        segments,
        highs,
        lows,
    );
    let merged = process_merged_candles(highs, lows);
    let upper_tracked = apply_tracking(upper_raw.as_slice(), up_strokes.as_slice(), true);
    let upper_band = relocate_band_lift_points(
        upper_tracked.as_slice(),
        upper_raw.as_slice(),
        merged.as_slice(),
        final_fractals,
        true,
    );
    let lower_tracked = apply_tracking(lower_raw.as_slice(), down_strokes.as_slice(), false);
    let lower_band = relocate_band_lift_points(
        lower_tracked.as_slice(),
        lower_raw.as_slice(),
        merged.as_slice(),
        final_fractals,
        false,
    );
    (upper_band, lower_band)
}

/// Raw segment-level points and tracked legs of both sides.
pub(crate) fn segment_raw_bands(
    segments: &[(usize, usize, bool)],
    big_segments: &[(usize, usize, bool)],
    strokes: &[Stroke],
    highs: &[i64],
    lows: &[i64],
) -> (r: (Vec<BandPoint>, Vec<StrokeForTracking>, Vec<BandPoint>, Vec<StrokeForTracking>))
    requires
        segments.len() >= 2 ==> segs_in_range(strokes@.len(), segments@),
    ensures
        r.0@ == segment_band_raw(segments@, big_segments@, strokes@, true),
        r.1@ == seg_band_case1(strokes@, segments@, true).1,
        r.2@ == segment_band_raw(segments@, big_segments@, strokes@, false),
        r.3@ == seg_band_case1(strokes@, segments@, false).1,
{
    let (upper_c1, seg_up) = calc_seg_upper_band_case1(segments, strokes);
    let upper_c2 = calc_seg_upper_band_case2(segments, strokes);
    let (lower_c1, seg_down) = calc_seg_lower_band_case1(segments, strokes);
    let lower_c2 = calc_seg_lower_band_case2(segments, strokes);

    let turns = detect_segment_turn_signals(segments, big_segments, strokes, highs, lows);
    proof {
        if segments.len() >= 2 {
            let v = project_segments(strokes@, segments@);
            lemma_turns_in_range(v, big_segments@);
            assert forall|m: int| 0 <= m < turns@.len() implies (#[trigger] turns@[m]).trigger_seg_idx
                < usize::MAX by {
                assert(turns@[m].trigger_seg_idx == turns_spec(v, big_segments@)[m].trigger_stroke_idx);
            }
        }
    }
    let upper_c3 = calc_seg_upper_band_case3(turns.as_slice(), segments, strokes);
    let lower_c3 = calc_seg_lower_band_case3(turns.as_slice(), segments, strokes);

    let v_signals = detect_segment_v_signals(turns.as_slice(), segments, strokes, highs, lows);
    let upper_c4 = calc_seg_upper_band_case4(v_signals.as_slice(), segments, strokes);
    let lower_c4 = calc_seg_lower_band_case4(v_signals.as_slice(), segments, strokes);

    let upper_all = concat4(upper_c1, upper_c2, upper_c3, upper_c4);
    let upper_raw = sort_band_points(upper_all.as_slice());
    let lower_all = concat4(lower_c1, lower_c2, lower_c3, lower_c4);
    let lower_raw = sort_band_points(lower_all.as_slice());
    (upper_raw, seg_up, lower_raw, seg_down)
}

/// Segment-level bands `(upper, lower)` (as [`compute_stroke_bands`], on segments).
pub fn compute_segment_bands(
    segments: &[(usize, usize, bool)],
    big_segments: &[(usize, usize, bool)],
    strokes: &[Stroke],
    highs: &[i64],
    lows: &[i64],
    final_fractals: &[Fractal],
) -> (r: (Vec<BandPoint>, Vec<BandPoint>))
    requires
        segments.len() >= 2 ==> segs_in_range(strokes@.len(), segments@),
        lows.len() >= highs.len(),
    ensures
        r.0@ == segment_band_spec(
            segments@,
            big_segments@,
            strokes@,
            highs@,
            lows@,
            final_fractals@,
            true,
        ),
        r.1@ == segment_band_spec(
            segments@,
            big_segments@,
            strokes@,
            highs@,
            lows@,
            final_fractals@,
            false,
        ),
{
    let (upper_raw, seg_up, lower_raw, seg_down) = segment_raw_bands(
        segments,
        big_segments,
        strokes,
        highs,
        lows,
    );
    let merged = process_merged_candles(highs, lows);
    let upper_tracked = apply_tracking(upper_raw.as_slice(), seg_up.as_slice(), true);
    let upper_band = relocate_band_lift_points(
        upper_tracked.as_slice(),
        upper_raw.as_slice(),
        merged.as_slice(),
        final_fractals,
        true,
    );
    let lower_tracked = apply_tracking(lower_raw.as_slice(), seg_down.as_slice(), false);
    let lower_band = relocate_band_lift_points(
        lower_tracked.as_slice(),
        lower_raw.as_slice(),
        merged.as_slice(),
        final_fractals,
        false,
    );
    (upper_band, lower_band)
}

/// Big-segment-level bands `(upper, lower, upper raw, lower raw)`: the raw points are the
/// four cases ordered by bar, before track-following.
pub fn compute_bigseg_bands(
    big_segments: &[(usize, usize, bool)],
    segments: &[(usize, usize, bool)],
    strokes: &[Stroke],
    superior_segments: &[(usize, usize, bool)],
    final_fractals: &[Fractal],
    highs: &[i64],
    lows: &[i64],
) -> (r: (Vec<BandPoint>, Vec<BandPoint>, Vec<BandPoint>, Vec<BandPoint>))
    requires
        big_segments.len() >= 2 ==> bigs_in_range(strokes@, segments@, big_segments@),
        lows.len() >= highs.len(),
    ensures
        r.0@ == bigseg_band_spec(
            big_segments@,
            segments@,
            strokes@,
            superior_segments@,
            final_fractals@,
            highs@,
            lows@,
            true,
        ),
        r.1@ == bigseg_band_spec(
            big_segments@,
            segments@,
            strokes@,
            superior_segments@,
            final_fractals@,
            highs@,
            lows@,
            false,
        ),
        r.2@ == bigseg_band_raw(big_segments@, segments@, strokes@, superior_segments@, true),
        r.3@ == bigseg_band_raw(big_segments@, segments@, strokes@, superior_segments@, false),
{
    let (upper_c1, big_up) = calc_bigseg_upper_band_case1(big_segments, segments, strokes);
    let upper_c2 = calc_bigseg_upper_band_case2(big_segments, segments, strokes);
    let (lower_c1, big_down) = calc_bigseg_lower_band_case1(big_segments, segments, strokes);
    let lower_c2 = calc_bigseg_lower_band_case2(big_segments, segments, strokes);

    let turns = detect_big_seg_turn_signals(big_segments, segments, strokes, superior_segments);
    proof {
        if big_segments.len() >= 2 {
            let v = project_big_segments(strokes@, segments@, big_segments@);
            lemma_turns_in_range(v, superior_segments@);
            assert forall|m: int| 0 <= m < turns@.len() implies (#[trigger] turns@[m]).trigger_seg_idx
                < usize::MAX by {
                assert(turns@[m].trigger_seg_idx == turns_spec(v, superior_segments@)[m].trigger_stroke_idx);
            }
        }
    }
    let upper_c3 = calc_bigseg_upper_band_case3(turns.as_slice(), big_segments, segments, strokes);
    let lower_c3 = calc_bigseg_lower_band_case3(turns.as_slice(), big_segments, segments, strokes);

    let v_signals = detect_big_v_signals(turns.as_slice());
    let upper_c4 = calc_bigseg_upper_band_case4(v_signals.as_slice(), big_segments, segments, strokes);
    let lower_c4 = calc_bigseg_lower_band_case4(v_signals.as_slice(), big_segments, segments, strokes);

    let merged = process_merged_candles(highs, lows);

    let upper_all = concat4(upper_c1, upper_c2, upper_c3, upper_c4);
    let upper_raw = sort_band_points(upper_all.as_slice());
    let upper_tracked = apply_tracking(upper_raw.as_slice(), big_up.as_slice(), true);
    let upper_band = relocate_band_lift_points(
        upper_tracked.as_slice(),
        upper_raw.as_slice(),
        merged.as_slice(),
        final_fractals,
        true,
    );

    let lower_all = concat4(lower_c1, lower_c2, lower_c3, lower_c4);
    let lower_raw = sort_band_points(lower_all.as_slice());
    let lower_tracked = apply_tracking(lower_raw.as_slice(), big_down.as_slice(), false);
    let lower_band = relocate_band_lift_points(
        lower_tracked.as_slice(),
        lower_raw.as_slice(),
        merged.as_slice(),
        final_fractals,
        false,
    );
    (upper_band, lower_band, upper_raw, lower_raw)
}

} // verus!
