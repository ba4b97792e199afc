//! Track-following of band points and relocation of lifted points to the fractal
//! confirmation bar.

use vstd::prelude::*;

use crate::guidao::BandPoint;
use crate::guidao::StrokeForTracking;
use crate::types::Fractal;
use crate::types::MergedCandle;

verus! {

// ===== Stable order of band points by bar =====

/// Inserts `x` after every point whose bar index is not greater than its own.
pub open spec fn insert_bp(s: Seq<BandPoint>, x: BandPoint) -> Seq<BandPoint>
    decreases s.len(),
{
    if s.len() == 0 {
        seq![x]
    } else if s.last().bar_index <= x.bar_index {
        s.push(x)
    } else {
        insert_bp(s.drop_last(), x).push(s.last())
    }
}

/// Stable sort of band points by bar index.
pub open spec fn sort_bp(s: Seq<BandPoint>) -> Seq<BandPoint>
    decreases s.len(),
{
    if s.len() == 0 {
        s
    } else {
        insert_bp(sort_bp(s.drop_last()), s.last())
    }
}

pub open spec fn sorted_bp(s: Seq<BandPoint>) -> bool {
    forall|a: int, b: int| 0 <= a <= b < s.len() ==> #[trigger] s[a].bar_index <= #[trigger] s[b].bar_index
}

proof fn lemma_insert_bp(s: Seq<BandPoint>, x: BandPoint)
    requires
        sorted_bp(s),
    ensures
        sorted_bp(insert_bp(s, x)),
        insert_bp(s, x).to_multiset() == s.to_multiset().insert(x),
        insert_bp(s, x).len() == s.len() + 1,
    decreases s.len(),
{
    broadcast use vstd::seq_lib::group_to_multiset_ensures;

    if s.len() == 0 {
        assert(insert_bp(s, x) =~= seq![x]);
        assert(seq![x] =~= Seq::<BandPoint>::empty().push(x));
    } else if s.last().bar_index <= x.bar_index {
    } else {
        let s0 = s.drop_last();
        assert(sorted_bp(s0));
        lemma_insert_bp(s0, x);
        let r0 = insert_bp(s0, x);
        let r = r0.push(s.last());
        assert forall|a: int, b: int| 0 <= a <= b < r.len() implies #[trigger] r[a].bar_index
            <= #[trigger] r[b].bar_index by {
            if b == r.len() - 1 && a < b {
                assert(r0.to_multiset().count(r0[a]) > 0);
                assert(s0.to_multiset().insert(x).count(r0[a]) > 0);
                if r0[a] != x {
                    assert(s0.to_multiset().count(r0[a]) > 0);
                    assert(s0.contains(r0[a]));
                    let j = choose|j: int| 0 <= j < s0.len() && s0[j] == r0[a];
                    assert(s[j] == s0[j]);
                }
            }
        }
        assert(s =~= s0.push(s.last()));
    }
}

/// Law: the stable order of band points is sorted by bar and a permutation of its input.
pub proof fn lemma_sort_bp(s: Seq<BandPoint>)
    ensures
        sorted_bp(sort_bp(s)),
        sort_bp(s).to_multiset() == s.to_multiset(),
        sort_bp(s).len() == s.len(),
    decreases s.len(),
{
    broadcast use vstd::seq_lib::group_to_multiset_ensures;

    if s.len() > 0 {
        lemma_sort_bp(s.drop_last());
        lemma_insert_bp(sort_bp(s.drop_last()), s.last());
        assert(s =~= s.drop_last().push(s.last()));
    }
}

proof fn lemma_insert_bp_split(s: Seq<BandPoint>, x: BandPoint, j: int)
    requires
        0 < j <= s.len(),
        s[j - 1].bar_index > x.bar_index,
    ensures
        insert_bp(s.take(j), x) + s.skip(j) == insert_bp(s.take(j - 1), x) + s.skip(j - 1),
{
    let t = s.take(j);
    assert(t.drop_last() =~= s.take(j - 1));
    assert(t.last() == s[j - 1]);
    assert(insert_bp(t, x) == insert_bp(s.take(j - 1), x).push(s[j - 1]));
    assert(insert_bp(s.take(j - 1), x).push(s[j - 1]) + s.skip(j) =~= insert_bp(s.take(j - 1), x)
        + s.skip(j - 1));
}

fn insert_bp_exec(v: &mut Vec<BandPoint>, x: BandPoint)
    ensures
        final(v)@ == insert_bp(old(v)@, x),
{
    let ghost s = v@;
    let mut j: usize = v.len();
    assert(s.take(j as int) =~= s);
    assert(s.skip(j as int) =~= Seq::<BandPoint>::empty());
    while j > 0 && v[j - 1].bar_index > x.bar_index
        invariant
            v@ == s,
            j <= s.len(),
            insert_bp(s, x) == insert_bp(s.take(j as int), x) + s.skip(j as int),
        decreases j,
    {
        proof {
            lemma_insert_bp_split(s, x, j as int);
        }
        j = j - 1;
    }
    proof {
        let t = s.take(j as int);
        if j > 0 {
            assert(t.last() == s[j - 1]);
            assert(insert_bp(t, x) == t.push(x));
        } else {
            assert(t =~= Seq::<BandPoint>::empty());
            assert(insert_bp(t, x) == seq![x]);
        }
    }
    v.insert(j, x);
    assert(v@ =~= s.take(j as int).push(x) + s.skip(j as int));
}

/// Sorts band points by bar index, keeping the input order among equal bars.
pub fn sort_band_points(points: &[BandPoint]) -> (sorted: Vec<BandPoint>)
    ensures
        sorted@ == sort_bp(points@),
{
    let mut sorted: Vec<BandPoint> = Vec::new();
    let mut i: usize = 0;
    while i < points.len()
        invariant
            i <= points.len(),
            sorted@ == sort_bp(points@.take(i as int)),
        decreases points.len() - i,
    {
        proof {
            let t = points@.take(i as int + 1);
            assert(t.drop_last() =~= points@.take(i as int));
        }
        insert_bp_exec(&mut sorted, points[i]);
        i = i + 1;
    }
    assert(points@.take(i as int) =~= points@);
    sorted
}

// ===== Track-following =====

/// Value of a leg on the tracked side (high for upper bands, low for lower bands).
pub open spec fn side_value(s: StrokeForTracking, upper: bool) -> i64 {
    if upper {
        s.high
    } else {
        s.low
    }
}

/// Leg `s` lies strictly between `cur_t` and `next_t` and breaks through `cur_v`.
pub open spec fn breaks(s: StrokeForTracking, upper: bool, cur_v: i64, cur_t: usize, next_t: usize) -> bool {
    s.bar_index > cur_t && s.bar_index < next_t && (if upper {
        s.high > cur_v
    } else {
        s.low < cur_v
    })
}

/// First leg at or after `k` that breaks through.
pub open spec fn first_break(
    ss: Seq<StrokeForTracking>,
    k: int,
    upper: bool,
    cur_v: i64,
    cur_t: usize,
    next_t: usize,
) -> Option<int>
    decreases ss.len() - k,
{
    if k < 0 || k >= ss.len() {
        None
    } else if breaks(ss[k], upper, cur_v, cur_t, next_t) {
        Some(k)
    } else {
        first_break(ss, k + 1, upper, cur_v, cur_t, next_t)
    }
}

proof fn lemma_first_break(
    ss: Seq<StrokeForTracking>,
    k: int,
    upper: bool,
    cur_v: i64,
    cur_t: usize,
    next_t: usize,
)
    ensures
        first_break(ss, k, upper, cur_v, cur_t, next_t) matches Some(j) ==> k <= j < ss.len()
            && breaks(ss[j], upper, cur_v, cur_t, next_t),
    decreases ss.len() - k,
{
    if k >= 0 && k < ss.len() {
        lemma_first_break(ss, k + 1, upper, cur_v, cur_t, next_t);
    }
}

/// The points added while tracking from (`cur_v`, `cur_t`) until no leg before `next_t`
/// breaks through any more.
pub open spec fn track_chain(
    ss: Seq<StrokeForTracking>,
    upper: bool,
    cur_v: i64,
    cur_t: usize,
    next_t: usize,
) -> Seq<BandPoint>
    decreases next_t - cur_t,
    via track_chain_decreases
{
    match first_break(ss, 0, upper, cur_v, cur_t, next_t) {
        None => Seq::empty(),
        Some(j) => {
            let p = BandPoint { value: side_value(ss[j], upper), bar_index: ss[j].bar_index };
            seq![p] + track_chain(ss, upper, p.value, p.bar_index, next_t)
        },
    }
}

#[via_fn]
proof fn track_chain_decreases(
    ss: Seq<StrokeForTracking>,
    upper: bool,
    cur_v: i64,
    cur_t: usize,
    next_t: usize,
) {
    lemma_first_break(ss, 0, upper, cur_v, cur_t, next_t);
}

/// Bar before which tracking from point `idx` stops: the next point's bar, or no limit.
pub open spec fn next_limit(sorted: Seq<BandPoint>, idx: int) -> usize {
    if idx + 1 < sorted.len() {
        sorted[idx + 1].bar_index
    } else {
        usize::MAX
    }
}

/// Every one of the first `n` sorted points followed by its tracked points.
pub open spec fn tracked_upto(
    sorted: Seq<BandPoint>,
    ss: Seq<StrokeForTracking>,
    upper: bool,
    n: int,
) -> Seq<BandPoint>
    decreases n,
{
    if n <= 0 || n > sorted.len() {
        Seq::empty()
    } else {
        let p = sorted[n - 1];
        tracked_upto(sorted, ss, upper, n - 1) + seq![p] + track_chain(
            ss,
            upper,
            p.value,
            p.bar_index,
            next_limit(sorted, n - 1),
        )
    }
}

/// Removes a point equal in value to its predecessor, and a point on the same bar as the
/// last kept one that is more extreme than it.
pub open spec fn dedup_upto(fp: Seq<BandPoint>, upper: bool, i: int) -> Seq<BandPoint>
    decreases i,
{
    if i <= 0 || i > fp.len() {
        Seq::empty()
    } else if i == 1 {
        seq![fp[0]]
    } else {
        let d = dedup_upto(fp, upper, i - 1);
        let p = fp[i - 1];
        if p.value == fp[i - 2].value {
            d
        } else if p.bar_index == d.last().bar_index && ((upper && p.value > d.last().value) || (
        !upper && p.value < d.last().value)) {
            d
        } else {
            d.push(p)
        }
    }
}

/// Result of track-following.
pub open spec fn tracking_spec(
    band_points: Seq<BandPoint>,
    ss: Seq<StrokeForTracking>,
    upper: bool,
) -> Seq<BandPoint> {
    if band_points.len() == 0 || ss.len() == 0 {
        band_points
    } else {
        let sorted = sort_bp(band_points);
        let fp = sort_bp(tracked_upto(sorted, ss, upper, sorted.len() as int));
        dedup_upto(fp, upper, fp.len() as int)
    }
}

proof fn lemma_dedup_sorted(fp: Seq<BandPoint>, upper: bool, i: int)
    requires
        sorted_bp(fp),
        0 <= i <= fp.len(),
    ensures
        sorted_bp(dedup_upto(fp, upper, i)),
        i >= 1 ==> forall|k: int|
            0 <= k < dedup_upto(fp, upper, i).len() ==> #[trigger] dedup_upto(fp, upper, i)[k].bar_index
                <= fp[i - 1].bar_index,
    decreases i,
{
    if i >= 2 {
        lemma_dedup_sorted(fp, upper, i - 1);
        let d = dedup_upto(fp, upper, i - 1);
        let r = dedup_upto(fp, upper, i);
        assert(fp[i - 2].bar_index <= fp[i - 1].bar_index);
        assert forall|k: int| 0 <= k < r.len() implies #[trigger] r[k].bar_index <= fp[i - 1].bar_index by {
            if k < d.len() {
                assert(r[k] == d[k]);
            }
        }
        assert forall|a: int, b: int| 0 <= a <= b < r.len() implies #[trigger] r[a].bar_index
            <= #[trigger] r[b].bar_index by {
            if b < d.len() {
                assert(r[a] == d[a] && r[b] == d[b]);
            } else if a < d.len() {
                assert(r[a] == d[a]);
            }
        }
    }
}

/// Law: with legs to follow, the tracked band is ordered by bar.
pub proof fn lemma_tracking_sorted(band_points: Seq<BandPoint>, ss: Seq<StrokeForTracking>, upper: bool)
    requires
        ss.len() > 0,
    ensures
        sorted_bp(tracking_spec(band_points, ss, upper)),
{
    if band_points.len() > 0 {
        let sorted = sort_bp(band_points);
        let fp = sort_bp(tracked_upto(sorted, ss, upper, sorted.len() as int));
        lemma_sort_bp(tracked_upto(sorted, ss, upper, sorted.len() as int));
        lemma_dedup_sorted(fp, upper, fp.len() as int);
    }
}

fn first_break_exec(
    ss: &[StrokeForTracking],
    upper: bool,
    cur_v: i64,
    cur_t: usize,
    next_t: usize,
) -> (r: Option<usize>)
    ensures
        match r {
            Some(j) => first_break(ss@, 0, upper, cur_v, cur_t, next_t) == Some(j as int),
            None => first_break(ss@, 0, upper, cur_v, cur_t, next_t) is None,
        },
{
    let mut k: usize = 0;
    while k < ss.len()
        invariant
            k <= ss.len(),
            first_break(ss@, 0, upper, cur_v, cur_t, next_t) == first_break(
                ss@,
                k as int,
                upper,
                cur_v,
                cur_t,
                next_t,
            ),
        decreases ss.len() - k,
    {
        let s = ss[k];
        let st = s.bar_index;
        let sv = if upper {
            s.high
        } else {
            s.low
        };
        if st > cur_t && st < next_t {
            if upper && sv > cur_v {
                return Some(k);
            } else if !upper && sv < cur_v {
                return Some(k);
            }
        }
        k = k + 1;
    }
    None
}

/// Track-following: after each band point, successive legs that break through the
/// current value (before the next band point) raise (upper) or lower (lower) the band;
/// then points are ordered by bar and deduplicated.
pub fn apply_tracking(band_points: &[BandPoint], strokes: &[StrokeForTracking], is_upper: bool) -> (r:
    Vec<BandPoint>)
    ensures
        r@ == tracking_spec(band_points@, strokes@, is_upper),
{
    if band_points.len() == 0 || strokes.len() == 0 {
        let mut copy: Vec<BandPoint> = Vec::new();
        let mut k: usize = 0;
        while k < band_points.len()
            invariant
                k <= band_points.len(),
                copy@ == band_points@.take(k as int),
            decreases band_points.len() - k,
        {
            copy.push(band_points[k]);
            proof {
                assert(band_points@.take(k as int + 1) =~= band_points@.take(k as int).push(
                    band_points@[k as int],
                ));
            }
            k = k + 1;
        }
        assert(band_points@.take(k as int) =~= band_points@);
        return copy;
    }
    let sorted = sort_band_points(band_points);
    let ghost sseq = sorted@;
    let mut final_points: Vec<BandPoint> = Vec::new();
    let mut idx: usize = 0;
    while idx < sorted.len()
        invariant
            sseq == sorted@,
            idx <= sorted.len(),
            final_points@ == tracked_upto(sseq, strokes@, is_upper, idx as int),
        decreases sorted.len() - idx,
    {
        let p0 = sorted[idx];
        let mut current_value = p0.value;
        let mut current_time = p0.bar_index;
        let next_cond_time = if idx + 1 < sorted.len() {
            sorted[idx + 1].bar_index
        } else {
            usize::MAX
        };
        final_points.push(BandPoint { value: current_value, bar_index: current_time });
        let ghost base = final_points@;
        assert(base == tracked_upto(sseq, strokes@, is_upper, idx as int) + seq![p0]);
        loop
            invariant
                sseq == sorted@,
                idx < sorted.len(),
                p0 == sseq[idx as int],
                next_cond_time == next_limit(sseq, idx as int),
                final_points@ + track_chain(
                    strokes@,
                    is_upper,
                    current_value,
                    current_time,
                    next_cond_time,
                ) == base + track_chain(
                    strokes@,
                    is_upper,
                    p0.value,
                    p0.bar_index,
                    next_cond_time,
                ),
            ensures
                final_points@ == base + track_chain(
                    strokes@,
                    is_upper,
                    p0.value,
                    p0.bar_index,
                    next_cond_time,
                ),
            decreases next_cond_time - current_time,
        {
            let found = first_break_exec(
                strokes,
                is_upper,
                current_value,
                current_time,
                next_cond_time,
            );
            match found {
                None => {
                    assert(final_points@ =~= final_points@ + track_chain(
                        strokes@,
                        is_upper,
                        current_value,
                        current_time,
                        next_cond_time,
                    ));
                    break ;
                },
                Some(j) => {
                    proof {
                        lemma_first_break(
                            strokes@,
                            0,
                            is_upper,
                            current_value,
                            current_time,
                            next_cond_time,
                        );
                    }
                    let s = strokes[j];
                    let ghost old_fp = final_points@;
                    let ghost old_v = current_value;
                    let ghost old_t = current_time;
                    current_value = if is_upper {
                        s.high
                    } else {
                        s.low
                    };
                    current_time = s.bar_index;
                    final_points.push(BandPoint { value: current_value, bar_index: current_time });
                    assert(track_chain(strokes@, is_upper, old_v, old_t, next_cond_time) == seq![
                        BandPoint { value: current_value, bar_index: current_time },
                    ] + track_chain(strokes@, is_upper, current_value, current_time, next_cond_time));
                    assert(final_points@ + track_chain(
                        strokes@,
                        is_upper,
                        current_value,
                        current_time,
                        next_cond_time,
                    ) =~= old_fp + track_chain(strokes@, is_upper, old_v, old_t, next_cond_time));
                },
            }
        }
        assert(final_points@ == tracked_upto(sseq, strokes@, is_upper, idx as int + 1));
        idx = idx + 1;
    }
    let fp = sort_band_points(final_points.as_slice());
    let mut deduped: Vec<BandPoint> = Vec::new();
    if fp.len() > 0 {
        deduped.push(fp[0]);
        let mut i: usize = 1;
        while i < fp.len()
            invariant
                1 <= i <= fp.len(),
                deduped@ == dedup_upto(fp@, is_upper, i as int),
                deduped.len() >= 1,
            decreases fp.len() - i,
        {
            if fp[i].value == fp[i - 1].value {
            } else {
                let last = deduped[deduped.len() - 1];
                let skip = fp[i].bar_index == last.bar_index && ((is_upper && fp[i].value
                    > last.value) || (!is_upper && fp[i].value < last.value));
                if !skip {
                    deduped.push(fp[i]);
                }
            }
            i = i + 1;
        }
    }
    deduped
}

// ===== Relocation of lifted points to the fractal confirmation bar =====

/// Some raw band point sits on bar `bar`.
pub open spec fn raw_has_bar(raw: Seq<BandPoint>, bar: usize) -> bool {
    exists|k: int| 0 <= k < raw.len() && raw[k].bar_index == bar
}

/// Confirmation bar of the last matching fractal on `bar` among the first `n`: the
/// fractal is confirmed when the merged candle after its middle one appears.
pub open spec fn confirm_bar(
    fs: Seq<Fractal>,
    merged: Seq<MergedCandle>,
    upper: bool,
    bar: usize,
    n: int,
) -> Option<usize>
    decreases n,
{
    if n <= 0 || n > fs.len() {
        None
    } else {
        let f = fs[n - 1];
        if f.is_top == upper && f.merged_index + 1 < merged.len() && f.bar_index == bar {
            Some(
                if upper {
                    merged[f.merged_index + 1].high_bar_index
                } else {
                    merged[f.merged_index + 1].low_bar_index
                },
            )
        } else {
            confirm_bar(fs, merged, upper, bar, n - 1)
        }
    }
}

/// A band point moved to its fractal's confirmation bar unless it is a raw point.
pub open spec fn relocated(
    p: BandPoint,
    raw: Seq<BandPoint>,
    merged: Seq<MergedCandle>,
    fs: Seq<Fractal>,
    upper: bool,
) -> BandPoint {
    if raw_has_bar(raw, p.bar_index) {
        p
    } else {
        match confirm_bar(fs, merged, upper, p.bar_index, fs.len() as int) {
            Some(cb) => BandPoint { value: p.value, bar_index: cb },
            None => p,
        }
    }
}

/// Keeps one point per bar: the most extreme (highest upper, lowest lower).
pub open spec fn keep_extreme(s: Seq<BandPoint>, upper: bool, n: int) -> Seq<BandPoint>
    decreases n,
{
    if n <= 0 || n > s.len() {
        Seq::empty()
    } else {
        let d = keep_extreme(s, upper, n - 1);
        let p = s[n - 1];
        if d.len() > 0 && d.last().bar_index == p.bar_index {
            if (upper && p.value > d.last().value) || (!upper && p.value < d.last().value) {
                d.update(d.len() - 1, p)
            } else {
                d
            }
        } else {
            d.push(p)
        }
    }
}

pub open spec fn relocate_spec(
    band: Seq<BandPoint>,
    raw: Seq<BandPoint>,
    merged: Seq<MergedCandle>,
    fs: Seq<Fractal>,
    upper: bool,
) -> Seq<BandPoint> {
    let out = Seq::new(band.len(), |k: int| relocated(band[k], raw, merged, fs, upper));
    let sorted = sort_bp(out);
    keep_extreme(sorted, upper, sorted.len() as int)
}

fn raw_has_bar_exec(raw: &[BandPoint], bar: usize) -> (r: bool)
    ensures
        r == raw_has_bar(raw@, bar),
{
    let mut k: usize = 0;
    while k < raw.len()
        invariant
            k <= raw.len(),
            forall|m: int| 0 <= m < k ==> raw@[m].bar_index != bar,
        decreases raw.len() - k,
    {
        if raw[k].bar_index == bar {
            return true;
        }
        k = k + 1;
    }
    false
}

fn confirm_bar_exec(fs: &[Fractal], merged: &[MergedCandle], upper: bool, bar: usize) -> (r: Option<
    usize,
>)
    ensures
        r == confirm_bar(fs@, merged@, upper, bar, fs@.len() as int),
{
    let mut n: usize = fs.len();
    while n > 0
        invariant
            n <= fs.len(),
            confirm_bar(fs@, merged@, upper, bar, fs@.len() as int) == confirm_bar(
                fs@,
                merged@,
                upper,
                bar,
                n as int,
            ),
        decreases n,
    {
        let f = fs[n - 1];
        if f.is_top == upper && f.merged_index < merged.len() && merged.len() - f.merged_index > 1
            && f.bar_index == bar {
            let m = merged[f.merged_index + 1];
            return Some(
                if upper {
                    m.high_bar_index
                } else {
                    m.low_bar_index
                },
            );
        }
        n = n - 1;
    }
    None
}

/// Moves lifted band points (not among the raw points) to the confirmation bar of the
/// fractal on their bar, orders by bar and keeps the most extreme point per bar.
pub fn relocate_band_lift_points(
    band: &[BandPoint],
    raw: &[BandPoint],
    merged: &[MergedCandle],
    fractals: &[Fractal],
    is_upper: bool,
) -> (r: Vec<BandPoint>)
    ensures
        r@ == relocate_spec(band@, raw@, merged@, fractals@, is_upper),
{
    let mut out: Vec<BandPoint> = Vec::new();
    let mut k: usize = 0;
    while k < band.len()
        invariant
            k <= band.len(),
            out.len() == k,
            forall|m: int|
                0 <= m < k ==> out@[m] == relocated(band@[m], raw@, merged@, fractals@, is_upper),
        decreases band.len() - k,
    {
        let p = band[k];
        if raw_has_bar_exec(raw, p.bar_index) {
            out.push(p);
        } else {
            match confirm_bar_exec(fractals, merged, is_upper, p.bar_index) {
                Some(cb) => out.push(BandPoint { value: p.value, bar_index: cb }),
                None => out.push(p),
            }
        }
        k = k + 1;
    }
    assert(out@ =~= Seq::new(
        band@.len(),
        |m: int| relocated(band@[m], raw@, merged@, fractals@, is_upper),
    ));
    let sorted = sort_band_points(out.as_slice());
    let mut deduped: Vec<BandPoint> = Vec::new();
    let mut i: usize = 0;
    while i < sorted.len()
        invariant
            i <= sorted.len(),
            deduped@ == keep_extreme(sorted@, is_upper, i as int),
        decreases sorted.len() - i,
    {
        let p = sorted[i];
        if deduped.len() > 0 && deduped[deduped.len() - 1].bar_index == p.bar_index {
            let li = deduped.len() - 1;
            let last = deduped[li];
            if (is_upper && p.value > last.value) || (!is_upper && p.value < last.value) {
                deduped.set(li, p);
            }
        } else {
            deduped.push(p);
        }
        i = i + 1;
    }
    deduped
}

/// Bars strictly increase along `s`.
pub open spec fn strictly_increasing_bars(s: Seq<BandPoint>) -> bool {
    forall|a: int, b: int| 0 <= a < b < s.len() ==> #[trigger] s[a].bar_index < #[trigger] s[b].bar_index
}

proof fn lemma_keep_extreme(s: Seq<BandPoint>, upper: bool, n: int)
    requires
        sorted_bp(s),
        0 <= n <= s.len(),
    ensures
        strictly_increasing_bars(keep_extreme(s, upper, n)),
        n > 0 ==> keep_extreme(s, upper, n).len() > 0 && keep_extreme(s, upper, n).last().bar_index
            == s[n - 1].bar_index,
    decreases n,
{
    if n > 0 {
        lemma_keep_extreme(s, upper, n - 1);
        let d = keep_extreme(s, upper, n - 1);
        let p = s[n - 1];
        if n - 1 > 0 {
            assert(s[n - 2].bar_index <= p.bar_index);
        }
        let r = keep_extreme(s, upper, n);
        assert forall|a: int, b: int| 0 <= a < b < r.len() implies #[trigger] r[a].bar_index
            < #[trigger] r[b].bar_index by {
            if b < d.len() && b != d.len() - 1 {
                assert(r[a] == d[a] && r[b] == d[b]);
            } else if b < d.len() {
                assert(r[a] == d[a]);
                assert(d[a].bar_index < d[b].bar_index);
            } else {
                assert(r[a] == d[a]);
                if a < d.len() - 1 {
                    assert(d[a].bar_index < d[d.len() - 1].bar_index);
                }
            }
        }
    }
}

/// Law: after relocation there is exactly one point per bar, in increasing bar order.
pub proof fn lemma_relocate_strictly_increasing(
    band: Seq<BandPoint>,
    raw: Seq<BandPoint>,
    merged: Seq<MergedCandle>,
    fs: Seq<Fractal>,
    upper: bool,
)
    ensures
        strictly_increasing_bars(relocate_spec(band, raw, merged, fs, upper)),
{
    let out = Seq::new(band.len(), |k: int| relocated(band[k], raw, merged, fs, upper));
    lemma_sort_bp(out);
    lemma_keep_extreme(sort_bp(out), upper, sort_bp(out).len() as int);
}

} // verus!
