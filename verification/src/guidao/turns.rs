//! Turn signals (case 3) and V signals (case 4) at stroke, segment and big segment level,
//! and the band points they give.
//!
//! A turn is a case 3 event of the segment builder run one level up: at stroke level the
//! events of the segment builder on the strokes, at segment level those of the builder on
//! the segments projected to strokes, at big segment level those on the big segments
//! projected to strokes.

use vstd::prelude::*;

use crate::candles::max_i64;
use crate::candles::min_i64;
use crate::guidao::BandPoint;
use crate::segments::bigs_in_range;
use crate::segments::case3_events_spec;
use crate::segments::collect_segment_case3_events;
use crate::segments::project_big_segments;
use crate::segments::project_big_segments_exec;
use crate::segments::project_segments;
use crate::segments::project_segments_exec;
use crate::segments::segs_in_range;
use crate::types::Stroke;

verus! {

/// Stroke-level turn: a stroke raised to a segment by case 3.
#[derive(Debug, Clone, Copy, PartialEq, Eq, Structural)]
pub struct TurnSignal {
    /// Base stroke of the case 3 event.
    pub stroke_idx: usize,
    /// Last stroke of the segment that holds the base.
    pub end_stroke_idx: usize,
    /// A down segment was established (turn short); otherwise an up one (turn long).
    pub is_turn_short: bool,
    /// The stroke that triggered case 3.
    pub trigger_stroke_idx: usize,
    /// Highest price over the strokes from the base to the end.
    pub a_high: i64,
    /// Lowest price over the strokes from the base to the end.
    pub a_low: i64,
}

/// Segment-level turn: a segment raised to a big segment by case 3.
#[derive(Debug, Clone, Copy, PartialEq, Eq, Structural)]
pub struct SegmentTurnSignal {
    pub seg_idx: usize,
    pub end_seg_idx: usize,
    pub is_turn_short: bool,
    pub a_high: i64,
    pub a_low: i64,
    /// The segment that triggered case 3.
    pub trigger_seg_idx: usize,
}

/// Big-segment-level turn: a big segment raised to a superior segment by case 3.
#[derive(Debug, Clone, Copy, PartialEq, Eq, Structural)]
pub struct BigSegmentTurnSignal {
    pub seg_idx: usize,
    pub end_seg_idx: usize,
    pub is_turn_short: bool,
    pub a_high: i64,
    pub a_low: i64,
    /// The big segment that triggered case 3.
    pub trigger_seg_idx: usize,
}

// ===== Turns on virtual strokes =====

/// End of the first group, at or after `k`, that holds `base`, has direction `dir` and
/// ends before `j`.
pub open spec fn group_end(
    groups: Seq<(usize, usize, bool)>,
    base: usize,
    dir: bool,
    j: usize,
    k: int,
) -> Option<usize>
    decreases groups.len() - k,
{
    if k < 0 || k >= groups.len() {
        None
    } else if groups[k].0 <= base && base <= groups[k].1 && groups[k].2 == dir && groups[k].1 < j {
        Some(groups[k].1)
    } else {
        group_end(groups, base, dir, j, k + 1)
    }
}

/// Highest start or end price over the virtual strokes `lo..=hi` (the least `i64` if none).
pub open spec fn span_high(v: Seq<Stroke>, lo: int, hi: int) -> i64
    decreases hi - lo + 1,
{
    if hi < lo {
        i64::MIN
    } else {
        max_i64(span_high(v, lo, hi - 1), max_i64(v[hi].start_price, v[hi].end_price))
    }
}

/// Lowest start or end price over the virtual strokes `lo..=hi` (the greatest `i64` if none).
pub open spec fn span_low(v: Seq<Stroke>, lo: int, hi: int) -> i64
    decreases hi - lo + 1,
{
    if hi < lo {
        i64::MAX
    } else {
        min_i64(span_low(v, lo, hi - 1), min_i64(v[hi].start_price, v[hi].end_price))
    }
}

/// The turn of one case 3 event `(trigger, base, base segment end, direction)`: its end is
/// the end of the group that holds the base (or the event's own end), capped at the last
/// virtual stroke.
pub open spec fn turn_of_event(
    v: Seq<Stroke>,
    groups: Seq<(usize, usize, bool)>,
    ev: (usize, usize, usize, bool),
) -> Option<TurnSignal> {
    let (j, base, end_i, is_up) = ev;
    if base >= v.len() || end_i >= v.len() {
        None
    } else {
        let e0 = match group_end(groups, base, v[base as int].is_up, j, 0) {
            Some(t) => t,
            None => end_i,
        };
        let e = if e0 <= v.len() - 1 {
            e0
        } else {
            (v.len() - 1) as usize
        };
        Some(
            TurnSignal {
                stroke_idx: base,
                end_stroke_idx: e,
                is_turn_short: !is_up,
                trigger_stroke_idx: j,
                a_high: span_high(v, base as int, e as int),
                a_low: span_low(v, base as int, e as int),
            },
        )
    }
}

/// Turns of the first `n` events.
pub open spec fn turns_upto(
    v: Seq<Stroke>,
    groups: Seq<(usize, usize, bool)>,
    evs: Seq<(usize, usize, usize, bool)>,
    n: int,
) -> Seq<TurnSignal>
    decreases n,
{
    if n <= 0 || n > evs.len() {
        Seq::empty()
    } else {
        let r = turns_upto(v, groups, evs, n - 1);
        match turn_of_event(v, groups, evs[n - 1]) {
            Some(t) => r.push(t),
            None => r,
        }
    }
}

/// Turns of the virtual strokes `v`, with `groups` the segments one level up.
pub open spec fn turns_spec(v: Seq<Stroke>, groups: Seq<(usize, usize, bool)>) -> Seq<TurnSignal> {
    let evs = case3_events_spec(v, true, true);
    turns_upto(v, groups, evs, evs.len() as int)
}

fn group_end_exec(groups: &[(usize, usize, bool)], base: usize, dir: bool, j: usize) -> (r: Option<
    usize,
>)
    ensures
        r == group_end(groups@, base, dir, j, 0),
{
    let mut k: usize = 0;
    while k < groups.len()
        invariant
            k <= groups.len(),
            group_end(groups@, base, dir, j, 0) == group_end(groups@, base, dir, j, k as int),
        decreases groups.len() - k,
    {
        let (s, t, d) = groups[k];
        if s <= base && base <= t && d == dir && t < j {
            return Some(t);
        }
        k = k + 1;
    }
    None
}

fn span_exec(v: &[Stroke], lo: usize, hi: usize) -> (r: (i64, i64))
    requires
        lo <= hi < v.len(),
    ensures
        r.0 == span_high(v@, lo as int, hi as int),
        r.1 == span_low(v@, lo as int, hi as int),
{
    let mut a_high: i64 = i64::MIN;
    let mut a_low: i64 = i64::MAX;
    let mut k: usize = lo;
    while k <= hi
        invariant
            lo <= k <= hi + 1,
            hi < v.len(),
            a_high == span_high(v@, lo as int, k as int - 1),
            a_low == span_low(v@, lo as int, k as int - 1),
        decreases hi + 1 - k,
    {
        let s = v[k];
        if s.start_price > a_high {
            a_high = s.start_price;
        }
        if s.end_price > a_high {
            a_high = s.end_price;
        }
        if s.start_price < a_low {
            a_low = s.start_price;
        }
        if s.end_price < a_low {
            a_low = s.end_price;
        }
        k = k + 1;
    }
    (a_high, a_low)
}

fn turns_exec(v: &[Stroke], groups: &[(usize, usize, bool)]) -> (r: Vec<TurnSignal>)
    ensures
        r@ == turns_spec(v@, groups@),
{
    let events = collect_segment_case3_events(v);
    let n = v.len();
    let mut out: Vec<TurnSignal> = Vec::new();
    let mut k: usize = 0;
    while k < events.len()
        invariant
            n == v.len(),
            events@ == case3_events_spec(v@, true, true),
            k <= events.len(),
            out@ == turns_upto(v@, groups@, events@, k as int),
        decreases events.len() - k,
    {
        let (j, base, end_i, is_up) = events[k];
        if base < n && end_i < n {
            let e0 = match group_end_exec(groups, base, v[base].is_up, j) {
                Some(t) => t,
                None => end_i,
            };
            let e = if e0 <= n - 1 {
                e0
            } else {
                n - 1
            };
            let (a_high, a_low) = if base <= e {
                span_exec(v, base, e)
            } else {
                (i64::MIN, i64::MAX)
            };
            out.push(
                TurnSignal {
                    stroke_idx: base,
                    end_stroke_idx: e,
                    is_turn_short: !is_up,
                    trigger_stroke_idx: j,
                    a_high,
                    a_low,
                },
            );
        }
        k = k + 1;
    }
    out
}

/// Stroke-level turn signals: the case 3 events of the segment builder on `strokes`, each
/// ending at the end of the segment of `segments` that holds its base.
pub fn detect_turn_signals(
    strokes: &[Stroke],
    segments: &[(usize, usize, bool)],
    _highs: &[i64],
    _lows: &[i64],
) -> (r: Vec<TurnSignal>)
    ensures
        r@ == turns_spec(strokes@, segments@),
{
    turns_exec(strokes, segments)
}

pub open spec fn as_segment_turn(t: TurnSignal) -> SegmentTurnSignal {
    SegmentTurnSignal {
        seg_idx: t.stroke_idx,
        end_seg_idx: t.end_stroke_idx,
        is_turn_short: t.is_turn_short,
        a_high: t.a_high,
        a_low: t.a_low,
        trigger_seg_idx: t.trigger_stroke_idx,
    }
}

pub open spec fn as_big_turn(t: TurnSignal) -> BigSegmentTurnSignal {
    BigSegmentTurnSignal {
        seg_idx: t.stroke_idx,
        end_seg_idx: t.end_stroke_idx,
        is_turn_short: t.is_turn_short,
        a_high: t.a_high,
        a_low: t.a_low,
        trigger_seg_idx: t.trigger_stroke_idx,
    }
}

/// Segment-level turns: none with fewer than two segments.
pub open spec fn segment_turns_spec(
    strokes: Seq<Stroke>,
    segs: Seq<(usize, usize, bool)>,
    bigs: Seq<(usize, usize, bool)>,
) -> Seq<SegmentTurnSignal> {
    if segs.len() < 2 {
        Seq::empty()
    } else {
        turns_spec(project_segments(strokes, segs), bigs).map_values(|t: TurnSignal| as_segment_turn(t))
    }
}

/// Big-segment-level turns: none with fewer than two big segments.
pub open spec fn big_turns_spec(
    strokes: Seq<Stroke>,
    segs: Seq<(usize, usize, bool)>,
    bigs: Seq<(usize, usize, bool)>,
    sups: Seq<(usize, usize, bool)>,
) -> Seq<BigSegmentTurnSignal> {
    if bigs.len() < 2 {
        Seq::empty()
    } else {
        turns_spec(project_big_segments(strokes, segs, bigs), sups).map_values(
            |t: TurnSignal| as_big_turn(t),
        )
    }
}

/// Segment-level turn signals: case 3 events of the big segment builder, with
/// `big_segments` giving each turn's end.
pub fn detect_segment_turn_signals(
    segments: &[(usize, usize, bool)],
    big_segments: &[(usize, usize, bool)],
    strokes: &[Stroke],
    _highs: &[i64],
    _lows: &[i64],
) -> (r: Vec<SegmentTurnSignal>)
    requires
        segments.len() >= 2 ==> segs_in_range(strokes@.len(), segments@),
    ensures
        r@ == segment_turns_spec(strokes@, segments@, big_segments@),
{
    if segments.len() < 2 {
        return Vec::new();
    }
    let projected = project_segments_exec(strokes, segments);
    let turns = turns_exec(projected.as_slice(), big_segments);
    let mut out: Vec<SegmentTurnSignal> = Vec::new();
    let mut k: usize = 0;
    while k < turns.len()
        invariant
            k <= turns.len(),
            out.len() == k,
            forall|m: int| 0 <= m < k ==> out@[m] == as_segment_turn(turns@[m]),
        decreases turns.len() - k,
    {
        let t = turns[k];
        out.push(
            SegmentTurnSignal {
                seg_idx: t.stroke_idx,
                end_seg_idx: t.end_stroke_idx,
                is_turn_short: t.is_turn_short,
                a_high: t.a_high,
                a_low: t.a_low,
                trigger_seg_idx: t.trigger_stroke_idx,
            },
        );
        k = k + 1;
    }
    assert(out@ =~= turns@.map_values(|t: TurnSignal| as_segment_turn(t)));
    out
}

/// Big-segment-level turn signals: case 3 events of the superior segment builder, with
/// `superior_segments` giving each turn's end.
pub fn detect_big_seg_turn_signals(
    big_segments: &[(usize, usize, bool)],
    segments: &[(usize, usize, bool)],
    strokes: &[Stroke],
    superior_segments: &[(usize, usize, bool)],
) -> (r: Vec<BigSegmentTurnSignal>)
    requires
        big_segments.len() >= 2 ==> bigs_in_range(strokes@, segments@, big_segments@),
    ensures
        r@ == big_turns_spec(strokes@, segments@, big_segments@, superior_segments@),
{
    if big_segments.len() < 2 {
        return Vec::new();
    }
    let projected = project_big_segments_exec(strokes, segments, big_segments);
    let turns = turns_exec(projected.as_slice(), superior_segments);
    let mut out: Vec<BigSegmentTurnSignal> = Vec::new();
    let mut k: usize = 0;
    while k < turns.len()
        invariant
            k <= turns.len(),
            out.len() == k,
            forall|m: int| 0 <= m < k ==> out@[m] == as_big_turn(turns@[m]),
        decreases turns.len() - k,
    {
        let t = turns[k];
        out.push(
            BigSegmentTurnSignal {
                seg_idx: t.stroke_idx,
                end_seg_idx: t.end_stroke_idx,
                is_turn_short: t.is_turn_short,
                a_high: t.a_high,
                a_low: t.a_low,
                trigger_seg_idx: t.trigger_stroke_idx,
            },
        );
        k = k + 1;
    }
    assert(out@ =~= turns@.map_values(|t: TurnSignal| as_big_turn(t)));
    out
}

// ===== V signals =====

/// Turn direction of the last signal, among the first `n`, whose trigger is `key`.
pub open spec fn trigger_dir(keys: Seq<(usize, bool)>, key: int, n: int) -> Option<bool>
    decreases n,
{
    if n <= 0 || n > keys.len() {
        None
    } else if keys[n - 1].0 == key {
        Some(keys[n - 1].1)
    } else {
        trigger_dir(keys, key, n - 1)
    }
}

/// The successor of trigger `j` is below the limit (no limit: it exists).
pub open spec fn below_limit(j: usize, limit: Option<usize>) -> bool {
    match limit {
        Some(c) => j + 1 < c,
        None => true,
    }
}

/// Positions, among the first `n`, of the signals whose trigger's successor triggers a
/// signal of the opposite turn (the last signal with that trigger decides).
pub open spec fn v_positions(keys: Seq<(usize, bool)>, limit: Option<usize>, n: int) -> Seq<usize>
    decreases n,
{
    if n <= 0 || n > keys.len() {
        Seq::empty()
    } else {
        let r = v_positions(keys, limit, n - 1);
        let j = keys[n - 1].0;
        if below_limit(j, limit) && trigger_dir(keys, j + 1, keys.len() as int) == Some(
            !keys[n - 1].1,
        ) {
            r.push((n - 1) as usize)
        } else {
            r
        }
    }
}

proof fn lemma_v_positions(keys: Seq<(usize, bool)>, limit: Option<usize>, n: int)
    requires
        0 <= n <= keys.len(),
        keys.len() <= usize::MAX,
    ensures
        forall|m: int|
            0 <= m < v_positions(keys, limit, n).len() ==> (#[trigger] v_positions(
                keys,
                limit,
                n,
            )[m]) < n && below_limit(keys[v_positions(keys, limit, n)[m] as int].0, limit),
    decreases n,
{
    if n > 0 {
        lemma_v_positions(keys, limit, n - 1);
        let r = v_positions(keys, limit, n - 1);
        let p = v_positions(keys, limit, n);
        assert forall|m: int| 0 <= m < p.len() implies (#[trigger] p[m]) < n && below_limit(
            keys[p[m] as int].0,
            limit,
        ) by {
            if m < r.len() {
                assert(p[m] == r[m]);
            } else {
                assert(p[m] == (n - 1) as usize);
            }
        }
    }
}

fn trigger_dir_exec(keys: &[(usize, bool)], key: usize) -> (r: Option<bool>)
    ensures
        r == trigger_dir(keys@, key as int, keys@.len() as int),
{
    let mut n: usize = keys.len();
    while n > 0
        invariant
            n <= keys.len(),
            trigger_dir(keys@, key as int, keys@.len() as int) == trigger_dir(
                keys@,
                key as int,
                n as int,
            ),
        decreases n,
    {
        if keys[n - 1].0 == key {
            return Some(keys[n - 1].1);
        }
        n = n - 1;
    }
    None
}

fn v_positions_exec(keys: &[(usize, bool)], limit: Option<usize>) -> (r: Vec<usize>)
    requires
        limit is None ==> forall|m: int| 0 <= m < keys.len() ==> (#[trigger] keys[m]).0 < usize::MAX,
    ensures
        r@ == v_positions(keys@, limit, keys@.len() as int),
{
    let mut out: Vec<usize> = Vec::new();
    let mut i: usize = 0;
    while i < keys.len()
        invariant
            i <= keys.len(),
            limit is None ==> forall|m: int| 0 <= m < keys.len() ==> (#[trigger] keys[m]).0
                < usize::MAX,
            out@ == v_positions(keys@, limit, i as int),
        decreases keys.len() - i,
    {
        let (j, short) = keys[i];
        let ok = match limit {
            Some(c) => c > 0 && j < c - 1,
            None => true,
        };
        if ok {
            match trigger_dir_exec(keys, j + 1) {
                Some(next_short) => {
                    if next_short != short {
                        out.push(i);
                    }
                },
                None => {},
            }
        }
        i = i + 1;
    }
    out
}

/// (trigger, turn short) of each stroke-level signal.
pub open spec fn stroke_keys(ts: Seq<TurnSignal>) -> Seq<(usize, bool)> {
    ts.map_values(|t: TurnSignal| (t.trigger_stroke_idx, t.is_turn_short))
}

/// (trigger, turn short) of each segment-level signal.
pub open spec fn segment_keys(ts: Seq<SegmentTurnSignal>) -> Seq<(usize, bool)> {
    ts.map_values(|t: SegmentTurnSignal| (t.trigger_seg_idx, t.is_turn_short))
}

/// (trigger, turn short) of each big-segment-level signal.
pub open spec fn big_keys(ts: Seq<BigSegmentTurnSignal>) -> Seq<(usize, bool)> {
    ts.map_values(|t: BigSegmentTurnSignal| (t.trigger_seg_idx, t.is_turn_short))
}

/// A V signal spans the trigger and its successor.
pub open spec fn as_v_signal(t: TurnSignal) -> TurnSignal {
    TurnSignal {
        stroke_idx: t.trigger_stroke_idx,
        end_stroke_idx: (t.trigger_stroke_idx + 1) as usize,
        is_turn_short: t.is_turn_short,
        trigger_stroke_idx: t.trigger_stroke_idx,
        a_high: t.a_high,
        a_low: t.a_low,
    }
}

pub open spec fn as_segment_v_signal(t: SegmentTurnSignal) -> SegmentTurnSignal {
    SegmentTurnSignal {
        seg_idx: t.trigger_seg_idx,
        end_seg_idx: (t.trigger_seg_idx + 1) as usize,
        is_turn_short: t.is_turn_short,
        a_high: t.a_high,
        a_low: t.a_low,
        trigger_seg_idx: t.trigger_seg_idx,
    }
}

pub open spec fn as_big_v_signal(t: BigSegmentTurnSignal) -> BigSegmentTurnSignal {
    BigSegmentTurnSignal {
        seg_idx: t.trigger_seg_idx,
        end_seg_idx: (t.trigger_seg_idx + 1) as usize,
        is_turn_short: t.is_turn_short,
        a_high: t.a_high,
        a_low: t.a_low,
        trigger_seg_idx: t.trigger_seg_idx,
    }
}

/// Stroke-level V signals: a turn whose trigger's next stroke (within the strokes)
/// triggers the opposite turn; none without turns or with fewer than two strokes.
pub open spec fn v_signals_spec(ts: Seq<TurnSignal>, stroke_count: nat) -> Seq<TurnSignal> {
    if ts.len() == 0 || stroke_count < 2 || stroke_count > usize::MAX {
        Seq::empty()
    } else {
        v_positions(stroke_keys(ts), Some(stroke_count as usize), ts.len() as int).map_values(
            |i: usize| as_v_signal(ts[i as int]),
        )
    }
}

/// Segment-level V signals.
pub open spec fn segment_v_signals_spec(ts: Seq<SegmentTurnSignal>) -> Seq<SegmentTurnSignal> {
    v_positions(segment_keys(ts), None, ts.len() as int).map_values(
        |i: usize| as_segment_v_signal(ts[i as int]),
    )
}

/// Big-segment-level V signals.
pub open spec fn big_v_signals_spec(ts: Seq<BigSegmentTurnSignal>) -> Seq<BigSegmentTurnSignal> {
    v_positions(big_keys(ts), None, ts.len() as int).map_values(
        |i: usize| as_big_v_signal(ts[i as int]),
    )
}

/// Stroke-level V signals: after a turn triggered by stroke `j`, stroke `j + 1` triggers
/// the opposite turn (V long after a turn short, V short after a turn long).
pub fn detect_v_signals(
    turn_signals: &[TurnSignal],
    strokes: &[Stroke],
    _highs: &[i64],
    _lows: &[i64],
) -> (r: Vec<TurnSignal>)
    ensures
        r@ == v_signals_spec(turn_signals@, strokes@.len()),
{
    let stroke_count = strokes.len();
    if turn_signals.len() == 0 || stroke_count < 2 {
        return Vec::new();
    }
    let mut keys: Vec<(usize, bool)> = Vec::new();
    let mut k: usize = 0;
    while k < turn_signals.len()
        invariant
            k <= turn_signals.len(),
            keys@ == stroke_keys(turn_signals@).take(k as int),
        decreases turn_signals.len() - k,
    {
        keys.push((turn_signals[k].trigger_stroke_idx, turn_signals[k].is_turn_short));
        proof {
            assert(stroke_keys(turn_signals@).take(k as int + 1) =~= stroke_keys(
                turn_signals@,
            ).take(k as int).push(stroke_keys(turn_signals@)[k as int]));
        }
        k = k + 1;
    }
    assert(keys@ =~= stroke_keys(turn_signals@));
    let pos = v_positions_exec(keys.as_slice(), Some(stroke_count));
    proof {
        lemma_v_positions(keys@, Some(stroke_count), keys@.len() as int);
    }
    let mut out: Vec<TurnSignal> = Vec::new();
    let mut m: usize = 0;
    while m < pos.len()
        invariant
            keys@ == stroke_keys(turn_signals@),
            pos@ == v_positions(keys@, Some(stroke_count), keys@.len() as int),
            forall|q: int|
                0 <= q < pos@.len() ==> (#[trigger] pos@[q]) < keys@.len() && below_limit(
                    keys@[pos@[q] as int].0,
                    Some(stroke_count),
                ),
            m <= pos.len(),
            out.len() == m,
            forall|q: int| 0 <= q < m ==> out@[q] == as_v_signal(turn_signals@[pos@[q] as int]),
        decreases pos.len() - m,
    {
        let t = turn_signals[pos[m]];
        assert(keys@[pos@[m as int] as int].0 == t.trigger_stroke_idx);
        out.push(
            TurnSignal {
                stroke_idx: t.trigger_stroke_idx,
                end_stroke_idx: t.trigger_stroke_idx + 1,
                is_turn_short: t.is_turn_short,
                trigger_stroke_idx: t.trigger_stroke_idx,
                a_high: t.a_high,
                a_low: t.a_low,
            },
        );
        m = m + 1;
    }
    assert(out@ =~= pos@.map_values(|i: usize| as_v_signal(turn_signals@[i as int])));
    out
}

/// Segment-level V signals (mirror of [`detect_v_signals`] one level up).
pub fn detect_segment_v_signals(
    seg_turn_signals: &[SegmentTurnSignal],
    _segments: &[(usize, usize, bool)],
    _strokes: &[Stroke],
    _highs: &[i64],
    _lows: &[i64],
) -> (r: Vec<SegmentTurnSignal>)
    requires
        forall|m: int|
            0 <= m < seg_turn_signals.len() ==> (#[trigger] seg_turn_signals[m]).trigger_seg_idx
                < usize::MAX,
    ensures
        r@ == segment_v_signals_spec(seg_turn_signals@),
{
    let ts = seg_turn_signals;
    let mut keys: Vec<(usize, bool)> = Vec::new();
    let mut k: usize = 0;
    while k < ts.len()
        invariant
            k <= ts.len(),
            keys@ == segment_keys(ts@).take(k as int),
        decreases ts.len() - k,
    {
        keys.push((ts[k].trigger_seg_idx, ts[k].is_turn_short));
        proof {
            assert(segment_keys(ts@).take(k as int + 1) =~= segment_keys(ts@).take(k as int).push(
                segment_keys(ts@)[k as int],
            ));
        }
        k = k + 1;
    }
    assert(keys@ =~= segment_keys(ts@));
    assert forall|m: int| 0 <= m < keys@.len() implies (#[trigger] keys@[m]).0 < usize::MAX by {
        assert(keys@[m].0 == ts@[m].trigger_seg_idx);
    }
    let pos = v_positions_exec(keys.as_slice(), None);
    proof {
        lemma_v_positions(keys@, None, keys@.len() as int);
    }
    let mut out: Vec<SegmentTurnSignal> = Vec::new();
    let mut m: usize = 0;
    while m < pos.len()
        invariant
            keys@ == segment_keys(ts@),
            forall|q: int| 0 <= q < ts.len() ==> (#[trigger] ts[q]).trigger_seg_idx < usize::MAX,
            pos@ == v_positions(keys@, None, keys@.len() as int),
            forall|q: int| 0 <= q < pos@.len() ==> (#[trigger] pos@[q]) < keys@.len(),
            m <= pos.len(),
            out.len() == m,
            forall|q: int| 0 <= q < m ==> out@[q] == as_segment_v_signal(ts@[pos@[q] as int]),
        decreases pos.len() - m,
    {
        let t = ts[pos[m]];
        out.push(
            SegmentTurnSignal {
                seg_idx: t.trigger_seg_idx,
                end_seg_idx: t.trigger_seg_idx + 1,
                is_turn_short: t.is_turn_short,
                a_high: t.a_high,
                a_low: t.a_low,
                trigger_seg_idx: t.trigger_seg_idx,
            },
        );
        m = m + 1;
    }
    assert(out@ =~= pos@.map_values(|i: usize| as_segment_v_signal(ts@[i as int])));
    out
}

/// Big-segment-level V signals (mirror of [`detect_v_signals`] two levels up).
pub fn detect_big_v_signals(big_turn_signals: &[BigSegmentTurnSignal]) -> (r: Vec<
    BigSegmentTurnSignal,
>)
    requires
        forall|m: int|
            0 <= m < big_turn_signals.len() ==> (#[trigger] big_turn_signals[m]).trigger_seg_idx
                < usize::MAX,
    ensures
        r@ == big_v_signals_spec(big_turn_signals@),
{
    let ts = big_turn_signals;
    let mut keys: Vec<(usize, bool)> = Vec::new();
    let mut k: usize = 0;
    while k < ts.len()
        invariant
            k <= ts.len(),
            keys@ == big_keys(ts@).take(k as int),
        decreases ts.len() - k,
    {
        keys.push((ts[k].trigger_seg_idx, ts[k].is_turn_short));
        proof {
            assert(big_keys(ts@).take(k as int + 1) =~= big_keys(ts@).take(k as int).push(
                big_keys(ts@)[k as int],
            ));
        }
        k = k + 1;
    }
    assert(keys@ =~= big_keys(ts@));
    assert forall|m: int| 0 <= m < keys@.len() implies (#[trigger] keys@[m]).0 < usize::MAX by {
        assert(keys@[m].0 == ts@[m].trigger_seg_idx);
    }
    let pos = v_positions_exec(keys.as_slice(), None);
    proof {
        lemma_v_positions(keys@, None, keys@.len() as int);
    }
    let mut out: Vec<BigSegmentTurnSignal> = Vec::new();
    let mut m: usize = 0;
    while m < pos.len()
        invariant
            keys@ == big_keys(ts@),
            forall|q: int| 0 <= q < ts.len() ==> (#[trigger] ts[q]).trigger_seg_idx < usize::MAX,
            pos@ == v_positions(keys@, None, keys@.len() as int),
            forall|q: int| 0 <= q < pos@.len() ==> (#[trigger] pos@[q]) < keys@.len(),
            m <= pos.len(),
            out.len() == m,
            forall|q: int| 0 <= q < m ==> out@[q] == as_big_v_signal(ts@[pos@[q] as int]),
        decreases pos.len() - m,
    {
        let t = ts[pos[m]];
        out.push(
            BigSegmentTurnSignal {
                seg_idx: t.trigger_seg_idx,
                end_seg_idx: t.trigger_seg_idx + 1,
                is_turn_short: t.is_turn_short,
                a_high: t.a_high,
                a_low: t.a_low,
                trigger_seg_idx: t.trigger_seg_idx,
            },
        );
        m = m + 1;
    }
    assert(out@ =~= pos@.map_values(|i: usize| as_big_v_signal(ts@[i as int])));
    out
}

// ===== Band points of case 3 (turns) and case 4 (V signals) =====

/// End point (price and bar) of stroke `idx`, if it exists.
pub open spec fn stroke_end_point(strokes: Seq<Stroke>, idx: usize) -> Option<BandPoint> {
    if idx < strokes.len() {
        Some(BandPoint { value: strokes[idx as int].end_price, bar_index: strokes[idx as int].end_bar })
    } else {
        None
    }
}

/// End point of segment `idx` (its last stroke's end), if it resolves.
pub open spec fn seg_end_point(
    segs: Seq<(usize, usize, bool)>,
    strokes: Seq<Stroke>,
    idx: usize,
) -> Option<BandPoint> {
    if idx < segs.len() {
        stroke_end_point(strokes, segs[idx as int].1)
    } else {
        None
    }
}

/// End point of big segment `idx` (its last segment's end), if it resolves.
pub open spec fn big_end_point(
    bigs: Seq<(usize, usize, bool)>,
    segs: Seq<(usize, usize, bool)>,
    strokes: Seq<Stroke>,
    idx: usize,
) -> Option<BandPoint> {
    if idx < bigs.len() {
        seg_end_point(segs, strokes, bigs[idx as int].1)
    } else {
        None
    }
}

/// Point of one stroke-level signal. Case 3: a turn short gives an upper point, a turn
/// long a lower point, at the end of the turn's segment. Case 4: a V short (after a turn
/// long) gives an upper point at the end of the up trigger stroke, a V long a lower point
/// at the end of the down trigger stroke.
pub open spec fn stroke_signal_point(t: TurnSignal, strokes: Seq<Stroke>, upper: bool, case4: bool) -> Option<
    BandPoint,
> {
    if !case4 {
        if t.is_turn_short == upper {
            stroke_end_point(strokes, t.end_stroke_idx)
        } else {
            None
        }
    } else if t.is_turn_short != upper && t.trigger_stroke_idx < strokes.len()
        && strokes[t.trigger_stroke_idx as int].is_up == upper {
        stroke_end_point(strokes, t.trigger_stroke_idx)
    } else {
        None
    }
}

/// Point of one segment-level signal (as [`stroke_signal_point`], on segments).
pub open spec fn segment_signal_point(
    t: SegmentTurnSignal,
    segs: Seq<(usize, usize, bool)>,
    strokes: Seq<Stroke>,
    upper: bool,
    case4: bool,
) -> Option<BandPoint> {
    if !case4 {
        if t.is_turn_short == upper {
            seg_end_point(segs, strokes, t.end_seg_idx)
        } else {
            None
        }
    } else if t.is_turn_short != upper && t.trigger_seg_idx < segs.len() && segs[t.trigger_seg_idx as int].2
        == upper {
        seg_end_point(segs, strokes, t.trigger_seg_idx)
    } else {
        None
    }
}

/// Point of one big-segment-level signal (as [`stroke_signal_point`], on big segments).
pub open spec fn big_signal_point(
    t: BigSegmentTurnSignal,
    bigs: Seq<(usize, usize, bool)>,
    segs: Seq<(usize, usize, bool)>,
    strokes: Seq<Stroke>,
    upper: bool,
    case4: bool,
) -> Option<BandPoint> {
    if !case4 {
        if t.is_turn_short == upper {
            big_end_point(bigs, segs, strokes, t.end_seg_idx)
        } else {
            None
        }
    } else if t.is_turn_short != upper && t.trigger_seg_idx < bigs.len() && bigs[t.trigger_seg_idx as int].2
        == upper {
        big_end_point(bigs, segs, strokes, t.trigger_seg_idx)
    } else {
        None
    }
}

/// Points of the first `n` stroke-level signals.
pub open spec fn stroke_signal_points(
    ts: Seq<TurnSignal>,
    strokes: Seq<Stroke>,
    upper: bool,
    case4: bool,
    n: int,
) -> Seq<BandPoint>
    decreases n,
{
    if n <= 0 || n > ts.len() {
        Seq::empty()
    } else {
        let r = stroke_signal_points(ts, strokes, upper, case4, n - 1);
        match stroke_signal_point(ts[n - 1], strokes, upper, case4) {
            Some(p) => r.push(p),
            None => r,
        }
    }
}

/// Points of the first `n` segment-level signals.
pub open spec fn segment_signal_points(
    ts: Seq<SegmentTurnSignal>,
    segs: Seq<(usize, usize, bool)>,
    strokes: Seq<Stroke>,
    upper: bool,
    case4: bool,
    n: int,
) -> Seq<BandPoint>
    decreases n,
{
    if n <= 0 || n > ts.len() {
        Seq::empty()
    } else {
        let r = segment_signal_points(ts, segs, strokes, upper, case4, n - 1);
        match segment_signal_point(ts[n - 1], segs, strokes, upper, case4) {
            Some(p) => r.push(p),
            None => r,
        }
    }
}

/// Points of the first `n` big-segment-level signals.
pub open spec fn big_signal_points(
    ts: Seq<BigSegmentTurnSignal>,
    bigs: Seq<(usize, usize, bool)>,
    segs: Seq<(usize, usize, bool)>,
    strokes: Seq<Stroke>,
    upper: bool,
    case4: bool,
    n: int,
) -> Seq<BandPoint>
    decreases n,
{
    if n <= 0 || n > ts.len() {
        Seq::empty()
    } else {
        let r = big_signal_points(ts, bigs, segs, strokes, upper, case4, n - 1);
        match big_signal_point(ts[n - 1], bigs, segs, strokes, upper, case4) {
            Some(p) => r.push(p),
            None => r,
        }
    }
}

fn stroke_end_point_exec(strokes: &[Stroke], idx: usize) -> (r: Option<BandPoint>)
    ensures
        r == stroke_end_point(strokes@, idx),
{
    if idx < strokes.len() {
        Some(BandPoint { value: strokes[idx].end_price, bar_index: strokes[idx].end_bar })
    } else {
        None
    }
}

fn seg_end_point_exec(segs: &[(usize, usize, bool)], strokes: &[Stroke], idx: usize) -> (r: Option<
    BandPoint,
>)
    ensures
        r == seg_end_point(segs@, strokes@, idx),
{
    if idx < segs.len() {
        stroke_end_point_exec(strokes, segs[idx].1)
    } else {
        None
    }
}

fn big_end_point_exec(
    bigs: &[(usize, usize, bool)],
    segs: &[(usize, usize, bool)],
    strokes: &[Stroke],
    idx: usize,
) -> (r: Option<BandPoint>)
    ensures
        r == big_end_point(bigs@, segs@, strokes@, idx),
{
    if idx < bigs.len() {
        seg_end_point_exec(segs, strokes, bigs[idx].1)
    } else {
        None
    }
}

fn stroke_signal_points_exec(ts: &[TurnSignal], strokes: &[Stroke], upper: bool, case4: bool) -> (r:
    Vec<BandPoint>)
    ensures
        r@ == stroke_signal_points(ts@, strokes@, upper, case4, ts@.len() as int),
{
    let mut out: Vec<BandPoint> = Vec::new();
    let mut k: usize = 0;
    while k < ts.len()
        invariant
            k <= ts.len(),
            out@ == stroke_signal_points(ts@, strokes@, upper, case4, k as int),
        decreases ts.len() - k,
    {
        let t = ts[k];
        let p = if !case4 {
            if t.is_turn_short == upper {
                stroke_end_point_exec(strokes, t.end_stroke_idx)
            } else {
                None
            }
        } else if t.is_turn_short != upper && t.trigger_stroke_idx < strokes.len()
            && strokes[t.trigger_stroke_idx].is_up == upper {
            stroke_end_point_exec(strokes, t.trigger_stroke_idx)
        } else {
            None
        };
        match p {
            Some(bp) => out.push(bp),
            None => {},
        }
        k = k + 1;
    }
    out
}

fn segment_signal_points_exec(
    ts: &[SegmentTurnSignal],
    segs: &[(usize, usize, bool)],
    strokes: &[Stroke],
    upper: bool,
    case4: bool,
) -> (r: Vec<BandPoint>)
    ensures
        r@ == segment_signal_points(ts@, segs@, strokes@, upper, case4, ts@.len() as int),
{
    let mut out: Vec<BandPoint> = Vec::new();
    let mut k: usize = 0;
    while k < ts.len()
        invariant
            k <= ts.len(),
            out@ == segment_signal_points(ts@, segs@, strokes@, upper, case4, k as int),
        decreases ts.len() - k,
    {
        let t = ts[k];
        let p = if !case4 {
            if t.is_turn_short == upper {
                seg_end_point_exec(segs, strokes, t.end_seg_idx)
            } else {
                None
            }
        } else if t.is_turn_short != upper && t.trigger_seg_idx < segs.len() && segs[t.trigger_seg_idx].2
            == upper {
            seg_end_point_exec(segs, strokes, t.trigger_seg_idx)
        } else {
            None
        };
        match p {
            Some(bp) => out.push(bp),
            None => {},
        }
        k = k + 1;
    }
    out
}

fn big_signal_points_exec(
    ts: &[BigSegmentTurnSignal],
    bigs: &[(usize, usize, bool)],
    segs: &[(usize, usize, bool)],
    strokes: &[Stroke],
    upper: bool,
    case4: bool,
) -> (r: Vec<BandPoint>)
    ensures
        r@ == big_signal_points(ts@, bigs@, segs@, strokes@, upper, case4, ts@.len() as int),
{
    let mut out: Vec<BandPoint> = Vec::new();
    let mut k: usize = 0;
    while k < ts.len()
        invariant
            k <= ts.len(),
            out@ == big_signal_points(ts@, bigs@, segs@, strokes@, upper, case4, k as int),
        decreases ts.len() - k,
    {
        let t = ts[k];
        let p = if !case4 {
            if t.is_turn_short == upper {
                big_end_point_exec(bigs, segs, strokes, t.end_seg_idx)
            } else {
                None
            }
        } else if t.is_turn_short != upper && t.trigger_seg_idx < bigs.len() && bigs[t.trigger_seg_idx].2
            == upper {
            big_end_point_exec(bigs, segs, strokes, t.trigger_seg_idx)
        } else {
            None
        };
        match p {
            Some(bp) => out.push(bp),
            None => {},
        }
        k = k + 1;
    }
    out
}

/// Case 3 upper band: for each turn short, the end of the turn's segment.
pub fn calc_upper_band_case3(
    turn_signals: &[TurnSignal],
    strokes: &[Stroke],
) -> (r: Vec<BandPoint>)
    ensures
        r@ == stroke_signal_points(turn_signals@, strokes@, true, false, turn_signals@.len() as int),
{
    stroke_signal_points_exec(turn_signals, strokes, true, false)
}

/// Case 3 lower band: for each turn long, the end of the turn's segment.
pub fn calc_lower_band_case3(
    turn_signals: &[TurnSignal],
    strokes: &[Stroke],
) -> (r: Vec<BandPoint>)
    ensures
        r@ == stroke_signal_points(turn_signals@, strokes@, false, false, turn_signals@.len() as int),
{
    stroke_signal_points_exec(turn_signals, strokes, false, false)
}

/// Case 4 upper band: for each V short (after a turn long), the end of the up trigger stroke.
pub fn calc_upper_band_case4(
    v_signals: &[TurnSignal],
    strokes: &[Stroke],
) -> (r: Vec<BandPoint>)
    ensures
        r@ == stroke_signal_points(v_signals@, strokes@, true, true, v_signals@.len() as int),
{
    stroke_signal_points_exec(v_signals, strokes, true, true)
}

/// Case 4 lower band: for each V long (after a turn short), the end of the down trigger stroke.
pub fn calc_lower_band_case4(
    v_signals: &[TurnSignal],
    strokes: &[Stroke],
) -> (r: Vec<BandPoint>)
    ensures
        r@ == stroke_signal_points(v_signals@, strokes@, false, true, v_signals@.len() as int),
{
    stroke_signal_points_exec(v_signals, strokes, false, true)
}

/// Case 3 upper band: for each turn short, the end of the turn's big segment.
pub fn calc_seg_upper_band_case3(
    seg_turn_signals: &[SegmentTurnSignal],
    segments: &[(usize, usize, bool)],
    strokes: &[Stroke],
) -> (r: Vec<BandPoint>)
    ensures
        r@ == segment_signal_points(seg_turn_signals@, segments@, strokes@, true, false, seg_turn_signals@.len() as int),
{
    segment_signal_points_exec(seg_turn_signals, segments, strokes, true, false)
}

/// Case 3 lower band: for each turn long, the end of the turn's big segment.
pub fn calc_seg_lower_band_case3(
    seg_turn_signals: &[SegmentTurnSignal],
    segments: &[(usize, usize, bool)],
    strokes: &[Stroke],
) -> (r: Vec<BandPoint>)
    ensures
        r@ == segment_signal_points(seg_turn_signals@, segments@, strokes@, false, false, seg_turn_signals@.len() as int),
{
    segment_signal_points_exec(seg_turn_signals, segments, strokes, false, false)
}

/// Case 4 upper band: for each V short (after a turn long), the end of the up trigger segment.
pub fn calc_seg_upper_band_case4(
    seg_v_signals: &[SegmentTurnSignal],
    segments: &[(usize, usize, bool)],
    strokes: &[Stroke],
) -> (r: Vec<BandPoint>)
    ensures
        r@ == segment_signal_points(seg_v_signals@, segments@, strokes@, true, true, seg_v_signals@.len() as int),
{
    segment_signal_points_exec(seg_v_signals, segments, strokes, true, true)
}

/// Case 4 lower band: for each V long (after a turn short), the end of the down trigger segment.
pub fn calc_seg_lower_band_case4(
    seg_v_signals: &[SegmentTurnSignal],
    segments: &[(usize, usize, bool)],
    strokes: &[Stroke],
) -> (r: Vec<BandPoint>)
    ensures
        r@ == segment_signal_points(seg_v_signals@, segments@, strokes@, false, true, seg_v_signals@.len() as int),
{
    segment_signal_points_exec(seg_v_signals, segments, strokes, false, true)
}

/// Case 3 upper band: for each turn short, the end of the turn's superior segment.
pub fn calc_bigseg_upper_band_case3(
    turn_signals: &[BigSegmentTurnSignal],
    big_segments: &[(usize, usize, bool)],
    segments: &[(usize, usize, bool)],
    strokes: &[Stroke],
) -> (r: Vec<BandPoint>)
    ensures
        r@ == big_signal_points(turn_signals@, big_segments@, segments@, strokes@, true, false, turn_signals@.len() as int),
{
    big_signal_points_exec(turn_signals, big_segments, segments, strokes, true, false)
}

/// Case 3 lower band: for each turn long, the end of the turn's superior segment.
pub fn calc_bigseg_lower_band_case3(
    turn_signals: &[BigSegmentTurnSignal],
    big_segments: &[(usize, usize, bool)],
    segments: &[(usize, usize, bool)],
    strokes: &[Stroke],
) -> (r: Vec<BandPoint>)
    ensures
        r@ == big_signal_points(turn_signals@, big_segments@, segments@, strokes@, false, false, turn_signals@.len() as int),
{
    big_signal_points_exec(turn_signals, big_segments, segments, strokes, false, false)
}

/// Case 4 upper band: for each V short (after a turn long), the end of the up trigger big segment.
pub fn calc_bigseg_upper_band_case4(
    big_v_signals: &[BigSegmentTurnSignal],
    big_segments: &[(usize, usize, bool)],
    segments: &[(usize, usize, bool)],
    strokes: &[Stroke],
) -> (r: Vec<BandPoint>)
    ensures
        r@ == big_signal_points(big_v_signals@, big_segments@, segments@, strokes@, true, true, big_v_signals@.len() as int),
{
    big_signal_points_exec(big_v_signals, big_segments, segments, strokes, true, true)
}

/// Case 4 lower band: for each V long (after a turn short), the end of the down trigger big segment.
pub fn calc_bigseg_lower_band_case4(
    big_v_signals: &[BigSegmentTurnSignal],
    big_segments: &[(usize, usize, bool)],
    segments: &[(usize, usize, bool)],
    strokes: &[Stroke],
) -> (r: Vec<BandPoint>)
    ensures
        r@ == big_signal_points(big_v_signals@, big_segments@, segments@, strokes@, false, true, big_v_signals@.len() as int),
{
    big_signal_points_exec(big_v_signals, big_segments, segments, strokes, false, true)
}

proof fn lemma_group_end(groups: Seq<(usize, usize, bool)>, base: usize, dir: bool, j: usize, k: int)
    ensures
        group_end(groups, base, dir, j, k) matches Some(t) ==> base <= t < j,
    decreases groups.len() - k,
{
    if k >= 0 && k < groups.len() {
        lemma_group_end(groups, base, dir, j, k + 1);
    }
}

/// A turn's base, end and trigger are ordered and refer to existing virtual strokes.
pub open spec fn turn_in_range(t: TurnSignal, n: nat) -> bool {
    t.stroke_idx <= t.end_stroke_idx < n && t.stroke_idx < t.trigger_stroke_idx < n
}

proof fn lemma_turns_upto_in_range(
    v: Seq<Stroke>,
    groups: Seq<(usize, usize, bool)>,
    evs: Seq<(usize, usize, usize, bool)>,
    n: int,
)
    requires
        forall|k: int|
            0 <= k < evs.len() ==> (#[trigger] evs[k]).1 <= evs[k].2 < evs[k].0 < v.len(),
    ensures
        forall|m: int|
            0 <= m < turns_upto(v, groups, evs, n).len() ==> turn_in_range(
                #[trigger] turns_upto(v, groups, evs, n)[m],
                v.len(),
            ),
    decreases n,
{
    if n > 0 && n <= evs.len() {
        lemma_turns_upto_in_range(v, groups, evs, n - 1);
        let ev = evs[n - 1];
        lemma_group_end(groups, ev.1, v[ev.1 as int].is_up, ev.0, 0);
        let r = turns_upto(v, groups, evs, n - 1);
        let t = turns_upto(v, groups, evs, n);
        assert forall|m: int| 0 <= m < t.len() implies turn_in_range(#[trigger] t[m], v.len()) by {
            if m < r.len() {
                assert(t[m] == r[m]);
            }
        }
    }
}

/// Law: every turn's base, end and trigger are virtual strokes that exist, with the base
/// not after the end and strictly before the trigger.
pub proof fn lemma_turns_in_range(v: Seq<Stroke>, groups: Seq<(usize, usize, bool)>)
    requires
        v.len() <= usize::MAX,
    ensures
        forall|m: int|
            0 <= m < turns_spec(v, groups).len() ==> turn_in_range(
                #[trigger] turns_spec(v, groups)[m],
                v.len(),
            ),
{
    crate::segments::lemma_segments_well_formed(v, true, true);
    let evs = case3_events_spec(v, true, true);
    lemma_turns_upto_in_range(v, groups, evs, evs.len() as int);
}

/// A turn is ordered (base, end, trigger), its direction is the opposite of the trigger
/// stroke's, and its low is not above its high.
pub open spec fn turn_well_formed(t: TurnSignal, v: Seq<Stroke>) -> bool {
    &&& turn_in_range(t, v.len())
    &&& t.end_stroke_idx < t.trigger_stroke_idx
    &&& t.is_turn_short == !v[t.trigger_stroke_idx as int].is_up
    &&& t.a_low <= t.a_high
}

proof fn lemma_span_order(v: Seq<Stroke>, lo: int, hi: int)
    requires
        lo <= hi,
    ensures
        span_low(v, lo, hi) <= span_high(v, lo, hi),
{
    let a = v[hi].start_price;
    let b = v[hi].end_price;
    assert(span_high(v, lo, hi) >= max_i64(a, b));
    assert(span_low(v, lo, hi) <= min_i64(a, b));
}

proof fn lemma_turns_upto_well_formed(
    v: Seq<Stroke>,
    groups: Seq<(usize, usize, bool)>,
    evs: Seq<(usize, usize, usize, bool)>,
    n: int,
)
    requires
        crate::segments::well_formed_events(v, evs),
    ensures
        forall|m: int|
            0 <= m < turns_upto(v, groups, evs, n).len() ==> turn_well_formed(
                #[trigger] turns_upto(v, groups, evs, n)[m],
                v,
            ),
    decreases n,
{
    if n > 0 && n <= evs.len() {
        lemma_turns_upto_well_formed(v, groups, evs, n - 1);
        let ev = evs[n - 1];
        assert(ev.1 <= ev.2 < ev.0 < v.len());
        lemma_group_end(groups, ev.1, v[ev.1 as int].is_up, ev.0, 0);
        let r = turns_upto(v, groups, evs, n - 1);
        let t = turns_upto(v, groups, evs, n);
        match turn_of_event(v, groups, ev) {
            Some(x) => {
                lemma_span_order(v, x.stroke_idx as int, x.end_stroke_idx as int);
                assert(turn_well_formed(x, v));
            },
            None => {},
        }
        assert forall|m: int| 0 <= m < t.len() implies turn_well_formed(#[trigger] t[m], v) by {
            if m < r.len() {
                assert(t[m] == r[m]);
            }
        }
    }
}

/// Law: every turn has base <= end < trigger, all existing virtual strokes; it is a turn
/// short exactly when the trigger stroke goes down; and its low is not above its high.
pub proof fn lemma_turns_well_formed(v: Seq<Stroke>, groups: Seq<(usize, usize, bool)>)
    requires
        v.len() <= usize::MAX,
    ensures
        forall|m: int|
            0 <= m < turns_spec(v, groups).len() ==> turn_well_formed(
                #[trigger] turns_spec(v, groups)[m],
                v,
            ),
{
    crate::segments::lemma_segments_well_formed(v, true, true);
    let evs = case3_events_spec(v, true, true);
    lemma_turns_upto_well_formed(v, groups, evs, evs.len() as int);
}

} // verus!
