//! Bar-indexed output for chart terminals: the marker table, bands extended so that no
//! bar crosses them, step lines, the terminal's own stroke band, and the end points of
//! strokes, segments, big and superior segments.

use vstd::prelude::*;

use crate::guidao::legs::bigseg_band_case1;
use crate::guidao::legs::calc_bigseg_lower_band_case1;
use crate::guidao::legs::calc_bigseg_upper_band_case1;
use crate::guidao::legs::lemma_big_strokes_len;
use crate::guidao::legs::lemma_stroke_legs_len;
use crate::guidao::legs::big_strokes;
use crate::guidao::plus::apply_sup_retreat_filter;
use crate::guidao::plus::detect_bigseg_cf_buy_markers;
use crate::guidao::plus::detect_bigseg_cf_sell_markers;
use crate::guidao::plus::plus_markers_upto;
use crate::guidao::plus::retreat_spec;
use crate::guidao::plus::RetreatState;
use crate::guidao::compute::bigseg_band_spec;
use crate::guidao::compute::compute_segment_bands;
use crate::guidao::compute::compute_stroke_bands;
use crate::guidao::compute::segment_band_spec;
use crate::guidao::compute::stroke_band_spec;
use crate::guidao::compute::compute_bigseg_bands;
use crate::guidao::compute::stroke_band_raw;
use crate::guidao::compute::stroke_raw_bands;
use crate::guidao::tracking::sort_band_points;
use crate::guidao::tracking::sort_bp;
use crate::guidao::tracking::sorted_bp;
use crate::guidao::BandPoint;
use crate::segments::bigs_in_range;
use crate::segments::segs_in_range;
use crate::types::Fractal;
use crate::markers::detect_second_buy_markers;
use crate::markers::detect_second_sell_markers;
use crate::markers::second_markers_spec;
use crate::markers::SecondMarker;
use crate::types::Stroke;
use crate::zhongshu::detect_bigseg_third_marks;
use crate::zhongshu::detect_bigseg_zhongshus;
use crate::zhongshu::lemma_zhongshus_in_range;
use crate::zhongshu::thirds_upto;
use crate::zhongshu::zhongshus_spec;
use crate::zhongshu::BigSegThirdMarker;

verus! {

// ===== Markers =====

/// Second and third markers after the retreat filter, the 2+N markers taking part in it.
pub open spec fn markers_spec(
    sups: Seq<(usize, usize, bool)>,
    bigs: Seq<(usize, usize, bool)>,
    segs: Seq<(usize, usize, bool)>,
    strokes: Seq<Stroke>,
    highs: Seq<i64>,
    lows: Seq<i64>,
) -> (Seq<SecondMarker>, Seq<BigSegThirdMarker>) {
    let zs = zhongshus_spec(sups, bigs, segs, strokes);
    let sm = second_markers_spec(strokes, segs, bigs, sups, true) + second_markers_spec(
        strokes,
        segs,
        bigs,
        sups,
        false,
    );
    let tm = thirds_upto(sups, bigs, segs, strokes, zs, highs, lows, zs.len() as int);
    let lower = bigseg_band_case1(strokes, segs, bigs, false);
    let upper = bigseg_band_case1(strokes, segs, bigs, true);
    let pm = plus_markers_upto(
        sups,
        bigs,
        segs,
        strokes,
        lower.0,
        lower.1,
        upper.1,
        true,
        sups.len() as int,
    ) + plus_markers_upto(sups, bigs, segs, strokes, upper.0, upper.1, lower.1, false, sups.len() as int);
    let st = retreat_spec(sups, bigs, segs, strokes, RetreatState { second: sm, third: tm, plus: pm });
    (st.second, st.third)
}

/// The marker chain: pivot zones, second buys and sells, third buys and sells, 2+N buys
/// and sells, then the retreat filter; returns the filtered second and third markers.
pub fn build_markers(
    sups: &[(usize, usize, bool)],
    bigs: &[(usize, usize, bool)],
    segs: &[(usize, usize, bool)],
    strokes: &[Stroke],
    highs: &[i64],
    lows: &[i64],
) -> (r: (Vec<SecondMarker>, Vec<BigSegThirdMarker>))
    requires
        bigs.len() + 2 <= u32::MAX,
    ensures
        (r.0@, r.1@) == markers_spec(sups@, bigs@, segs@, strokes@, highs@, lows@),
{
    let zs = detect_bigseg_zhongshus(sups, bigs, segs, strokes);
    let mut sm = detect_second_buy_markers(strokes, segs, bigs, sups);
    let mut sm_sell = detect_second_sell_markers(strokes, segs, bigs, sups);
    sm.append(&mut sm_sell);
    let n_sups = sups.len();
    proof {
        assert(sups@.len() == n_sups);
        lemma_zhongshus_in_range(sups@, bigs@, segs@, strokes@);
    }
    let tm = detect_bigseg_third_marks(sups, bigs, segs, strokes, zs.as_slice(), highs, lows);
    let (lower_c1, down_big) = calc_bigseg_lower_band_case1(bigs, segs, strokes);
    let (upper_c1, up_big) = calc_bigseg_upper_band_case1(bigs, segs, strokes);
    proof {
        let vs = big_strokes(strokes@, segs@, bigs@, bigs@.len() as int);
        lemma_big_strokes_len(strokes@, segs@, bigs@, bigs@.len() as int);
        lemma_stroke_legs_len(vs, vs.len() as int, true, true);
        lemma_stroke_legs_len(vs, vs.len() as int, false, true);
    }
    let mut pm = detect_bigseg_cf_buy_markers(
        sups,
        bigs,
        segs,
        strokes,
        lower_c1.as_slice(),
        down_big.as_slice(),
        up_big.as_slice(),
    );
    let mut pm_sell = detect_bigseg_cf_sell_markers(
        sups,
        bigs,
        segs,
        strokes,
        upper_c1.as_slice(),
        up_big.as_slice(),
        down_big.as_slice(),
    );
    pm.append(&mut pm_sell);
    let rf = apply_sup_retreat_filter(sups, bigs, segs, strokes, sm, tm, pm);
    (rf.second_markers, rf.third_markers)
}

/// Table row of a marker: (bar, kind, price); kind 0 second buy, 1 second sell, 2 third
/// buy, 3 third sell.
pub open spec fn second_row(m: SecondMarker) -> (usize, u8, i64) {
    (m.bar_index, if m.is_buy { 0u8 } else { 1u8 }, m.price)
}

pub open spec fn third_row(m: BigSegThirdMarker) -> (usize, u8, i64) {
    (m.bar_index, if m.is_buy { 2u8 } else { 3u8 }, m.price)
}

/// Row `a` comes no later than row `b`: by bar, then by kind.
pub open spec fn row_le(a: (usize, u8, i64), b: (usize, u8, i64)) -> bool {
    a.0 < b.0 || (a.0 == b.0 && a.1 <= b.1)
}

/// Inserts `x` after every row that comes no later than it.
pub open spec fn insert_row(s: Seq<(usize, u8, i64)>, x: (usize, u8, i64)) -> Seq<(usize, u8, i64)>
    decreases s.len(),
{
    if s.len() == 0 {
        seq![x]
    } else if row_le(s.last(), x) {
        s.push(x)
    } else {
        insert_row(s.drop_last(), x).push(s.last())
    }
}

/// Stable sort of rows by (bar, kind).
pub open spec fn sort_rows(s: Seq<(usize, u8, i64)>) -> Seq<(usize, u8, i64)>
    decreases s.len(),
{
    if s.len() == 0 {
        s
    } else {
        insert_row(sort_rows(s.drop_last()), s.last())
    }
}

pub open spec fn rows_sorted(s: Seq<(usize, u8, i64)>) -> bool {
    forall|a: int, b: int| 0 <= a <= b < s.len() ==> row_le(#[trigger] s[a], #[trigger] s[b])
}

/// The marker table: second markers then third markers as rows, ordered by (bar, kind).
pub open spec fn marker_table_spec(sm: Seq<SecondMarker>, tm: Seq<BigSegThirdMarker>) -> Seq<
    (usize, u8, i64),
> {
    sort_rows(sm.map_values(|m: SecondMarker| second_row(m)) + tm.map_values(
        |m: BigSegThirdMarker| third_row(m),
    ))
}

proof fn lemma_insert_row(s: Seq<(usize, u8, i64)>, x: (usize, u8, i64))
    requires
        rows_sorted(s),
    ensures
        rows_sorted(insert_row(s, x)),
        insert_row(s, x).to_multiset() == s.to_multiset().insert(x),
        insert_row(s, x).len() == s.len() + 1,
    decreases s.len(),
{
    broadcast use vstd::seq_lib::group_to_multiset_ensures;

    if s.len() == 0 {
        assert(insert_row(s, x) =~= seq![x]);
        assert(seq![x] =~= Seq::<(usize, u8, i64)>::empty().push(x));
    } else if row_le(s.last(), x) {
    } else {
        let s0 = s.drop_last();
        assert(rows_sorted(s0));
        lemma_insert_row(s0, x);
        let r0 = insert_row(s0, x);
        let r = r0.push(s.last());
        assert forall|a: int, b: int| 0 <= a <= b < r.len() implies row_le(
            #[trigger] r[a],
            #[trigger] r[b],
        ) by {
            if b == r.len() - 1 && a < b {
                assert(r0.to_multiset().count(r0[a]) > 0);
                assert(s0.to_multiset().insert(x).count(r0[a]) > 0);
                if r0[a] != x {
                    assert(s0.to_multiset().count(r0[a]) > 0);
                    assert(s0.contains(r0[a]));
                    let j = choose|j: int| 0 <= j < s0.len() && s0[j] == r0[a];
                    assert(s[j] == s0[j]);
                }
            }
        }
        assert(s =~= s0.push(s.last()));
    }
}

/// Law: the marker table is ordered by bar, then by kind, and holds every marker row
/// exactly once.
pub proof fn lemma_sort_rows(s: Seq<(usize, u8, i64)>)
    ensures
        rows_sorted(sort_rows(s)),
        sort_rows(s).to_multiset() == s.to_multiset(),
        sort_rows(s).len() == s.len(),
    decreases s.len(),
{
    broadcast use vstd::seq_lib::group_to_multiset_ensures;

    if s.len() > 0 {
        lemma_sort_rows(s.drop_last());
        lemma_insert_row(sort_rows(s.drop_last()), s.last());
        assert(s =~= s.drop_last().push(s.last()));
    }
}

proof fn lemma_insert_row_split(s: Seq<(usize, u8, i64)>, x: (usize, u8, i64), j: int)
    requires
        0 < j <= s.len(),
        !row_le(s[j - 1], x),
    ensures
        insert_row(s.take(j), x) + s.skip(j) == insert_row(s.take(j - 1), x) + s.skip(j - 1),
{
    let t = s.take(j);
    assert(t.drop_last() =~= s.take(j - 1));
    assert(t.last() == s[j - 1]);
    assert(insert_row(t, x) == insert_row(s.take(j - 1), x).push(s[j - 1]));
    assert(insert_row(s.take(j - 1), x).push(s[j - 1]) + s.skip(j) =~= insert_row(s.take(j - 1), x)
        + s.skip(j - 1));
}

fn insert_row_exec(v: &mut Vec<(usize, u8, i64)>, x: (usize, u8, i64))
    ensures
        final(v)@ == insert_row(old(v)@, x),
{
    let ghost s = v@;
    let mut j: usize = v.len();
    assert(s.take(j as int) =~= s);
    assert(s.skip(j as int) =~= Seq::<(usize, u8, i64)>::empty());
    while j > 0 && !(v[j - 1].0 < x.0 || (v[j - 1].0 == x.0 && v[j - 1].1 <= x.1))
        invariant
            v@ == s,
            j <= s.len(),
            insert_row(s, x) == insert_row(s.take(j as int), x) + s.skip(j as int),
        decreases j,
    {
        proof {
            lemma_insert_row_split(s, x, j as int);
        }
        j = j - 1;
    }
    proof {
        let t = s.take(j as int);
        if j > 0 {
            assert(t.last() == s[j - 1]);
            assert(insert_row(t, x) == t.push(x));
        } else {
            assert(t =~= Seq::<(usize, u8, i64)>::empty());
            assert(insert_row(t, x) == seq![x]);
        }
    }
    v.insert(j, x);
    assert(v@ =~= s.take(j as int).push(x) + s.skip(j as int));
}

/// The marker table of the terminal: one row per second and third marker, ordered by bar
/// and then by kind (stable).
pub fn marker_table(sm: &[SecondMarker], tm: &[BigSegThirdMarker]) -> (r: Vec<(usize, u8, i64)>)
    ensures
        r@ == marker_table_spec(sm@, tm@),
{
    let mut rows: Vec<(usize, u8, i64)> = Vec::new();
    let mut i: usize = 0;
    while i < sm.len()
        invariant
            i <= sm.len(),
            rows.len() == i,
            forall|k: int| 0 <= k < i ==> rows@[k] == second_row(sm@[k]),
        decreases sm.len() - i,
    {
        let m = sm[i];
        rows.push((m.bar_index, if m.is_buy { 0u8 } else { 1u8 }, m.price));
        i = i + 1;
    }
    let mut j: usize = 0;
    while j < tm.len()
        invariant
            j <= tm.len(),
            rows.len() == sm.len() + j,
            forall|k: int| 0 <= k < sm.len() ==> rows@[k] == second_row(sm@[k]),
            forall|k: int| 0 <= k < j ==> rows@[sm.len() + k] == third_row(tm@[k]),
        decreases tm.len() - j,
    {
        let m = tm[j];
        rows.push((m.bar_index, if m.is_buy { 2u8 } else { 3u8 }, m.price));
        j = j + 1;
    }
    let ghost all = sm@.map_values(|m: SecondMarker| second_row(m)) + tm@.map_values(
        |m: BigSegThirdMarker| third_row(m),
    );
    assert(rows@ =~= all);
    let mut sorted: Vec<(usize, u8, i64)> = Vec::new();
    let mut k: usize = 0;
    while k < rows.len()
        invariant
            k <= rows.len(),
            sorted@ == sort_rows(rows@.take(k as int)),
        decreases rows.len() - k,
    {
        proof {
            let t = rows@.take(k as int + 1);
            assert(t.drop_last() =~= rows@.take(k as int));
        }
        insert_row_exec(&mut sorted, rows[k]);
        k = k + 1;
    }
    assert(rows@.take(k as int) =~= rows@);
    sorted
}

// ===== Extension without crossing =====

/// A bar's price lies beyond the band value: above it for an upper band, below it for a
/// lower band.
pub open spec fn beyond(price: i64, value: i64, upper: bool) -> bool {
    if upper {
        price > value
    } else {
        price < value
    }
}

/// Points added while walking bars `bar..stop` from value `cur`: one at every bar whose
/// price lies beyond the current value, which then becomes that price.
pub open spec fn ext_run(prices: Seq<i64>, upper: bool, bar: int, stop: int, cur: i64) -> Seq<BandPoint>
    decreases stop - bar,
{
    if bar >= stop || bar < 0 {
        Seq::empty()
    } else if beyond(prices[bar], cur, upper) {
        seq![BandPoint { value: prices[bar], bar_index: bar as usize }] + ext_run(
            prices,
            upper,
            bar + 1,
            stop,
            prices[bar],
        )
    } else {
        ext_run(prices, upper, bar + 1, stop, cur)
    }
}

/// Band value after walking bars `bar..stop` from value `cur`.
pub open spec fn ext_level(prices: Seq<i64>, upper: bool, bar: int, stop: int, cur: i64) -> i64
    decreases stop - bar,
{
    if bar >= stop || bar < 0 {
        cur
    } else {
        ext_level(
            prices,
            upper,
            bar + 1,
            stop,
            if beyond(prices[bar], cur, upper) {
                prices[bar]
            } else {
                cur
            },
        )
    }
}

/// Bar (exclusive) where the extension of point `i` stops: the next point's bar, capped at
/// the data length.
pub open spec fn ext_stop(band: Seq<BandPoint>, i: int, data_len: usize) -> int {
    let next: int = if i + 1 < band.len() {
        band[i + 1].bar_index as int
    } else {
        data_len as int
    };
    if next <= data_len {
        next
    } else {
        data_len as int
    }
}

/// The first `n` points, each followed by its extension.
pub open spec fn extend_upto(
    band: Seq<BandPoint>,
    prices: Seq<i64>,
    data_len: usize,
    upper: bool,
    n: int,
) -> Seq<BandPoint>
    decreases n,
{
    if n <= 0 || n > band.len() {
        Seq::empty()
    } else {
        let pt = band[n - 1];
        extend_upto(band, prices, data_len, upper, n - 1) + seq![pt] + ext_run(
            prices,
            upper,
            pt.bar_index + 1,
            ext_stop(band, n - 1, data_len),
            pt.value,
        )
    }
}

pub open spec fn extend_spec(band: Seq<BandPoint>, prices: Seq<i64>, data_len: usize, upper: bool) -> Seq<
    BandPoint,
> {
    extend_upto(band, prices, data_len, upper, band.len() as int)
}

/// Law: walking the bars never lets a bar's price lie beyond the band value reached at that
/// bar, and that value is the last extension point's (or the starting value).
pub proof fn lemma_ext_not_crossed(prices: Seq<i64>, upper: bool, bar: int, stop: int, cur: i64, b: int)
    requires
        0 <= bar <= b < stop <= prices.len(),
    ensures
        !beyond(prices[b], ext_level(prices, upper, bar, b + 1, cur), upper),
    decreases b - bar,
{
    let next = if beyond(prices[bar], cur, upper) {
        prices[bar]
    } else {
        cur
    };
    if b > bar {
        lemma_ext_not_crossed(prices, upper, bar + 1, stop, next, b);
    } else {
        assert(ext_level(prices, upper, bar + 1, b + 1, next) == next);
    }
}

/// Law: the band value after a walk is the value of the last point it added, or the
/// starting value when it added none.
pub proof fn lemma_ext_level_is_last(prices: Seq<i64>, upper: bool, bar: int, stop: int, cur: i64)
    requires
        0 <= bar,
    ensures
        ext_level(prices, upper, bar, stop, cur) == if ext_run(prices, upper, bar, stop, cur).len()
            == 0 {
            cur
        } else {
            ext_run(prices, upper, bar, stop, cur).last().value
        },
    decreases stop - bar,
{
    if bar < stop {
        if beyond(prices[bar], cur, upper) {
            lemma_ext_level_is_last(prices, upper, bar + 1, stop, prices[bar]);
        } else {
            lemma_ext_level_is_last(prices, upper, bar + 1, stop, cur);
        }
    }
}

/// Extends each band point over the bars up to the next point (or the data end): a bar
/// whose price lies beyond the band (above an upper band, below a lower one) moves the
/// band to that price and adds a point there, so that no bar crosses the band.
pub fn extend_no_cross(band: &[BandPoint], prices: &[i64], data_len: usize, is_upper: bool) -> (r: Vec<
    BandPoint,
>)
    requires
        data_len <= prices.len(),
    ensures
        r@ == extend_spec(band@, prices@, data_len, is_upper),
{
    let mut result: Vec<BandPoint> = Vec::new();
    let mut i: usize = 0;
    while i < band.len()
        invariant
            i <= band.len(),
            data_len <= prices.len(),
            result@ == extend_upto(band@, prices@, data_len, is_upper, i as int),
        decreases band.len() - i,
    {
        let pt = band[i];
        let next_bar = if i + 1 < band.len() {
            band[i + 1].bar_index
        } else {
            data_len
        };
        let stop = if next_bar <= data_len {
            next_bar
        } else {
            data_len
        };
        result.push(pt);
        let ghost base = result@;
        let mut cur_val = pt.value;
        if pt.bar_index < stop {
            let mut bar: usize = pt.bar_index + 1;
            while bar < stop
                invariant
                    pt.bar_index < bar <= stop,
                    stop <= data_len <= prices.len(),
                    result@ + ext_run(prices@, is_upper, bar as int, stop as int, cur_val) == base
                        + ext_run(prices@, is_upper, pt.bar_index + 1, stop as int, pt.value),
                decreases stop - bar,
            {
                let price = prices[bar];
                let ghost before = result@;
                let ghost old_cur = cur_val;
                if (is_upper && price > cur_val) || (!is_upper && price < cur_val) {
                    cur_val = price;
                    result.push(BandPoint { value: cur_val, bar_index: bar });
                    assert(before + ext_run(prices@, is_upper, bar as int, stop as int, old_cur)
                        =~= result@ + ext_run(prices@, is_upper, bar + 1, stop as int, cur_val));
                }
                bar = bar + 1;
            }
            assert(result@ =~= result@ + ext_run(prices@, is_upper, bar as int, stop as int, cur_val));
        } else {
            assert(result@ =~= base + ext_run(prices@, is_upper, pt.bar_index + 1, stop as int, pt.value));
        }
        i = i + 1;
    }
    result
}

// ===== Step lines =====

/// What a step writer leaves on each of `data_len` bars after the first `n` points: point
/// `i` writes its value on its bar up to the next point's bar (or the data end); later
/// points overwrite earlier ones; `None` where nothing was written.
pub open spec fn fill_upto(band: Seq<BandPoint>, data_len: usize, n: int) -> Seq<Option<i64>>
    decreases n,
{
    if n <= 0 || n > band.len() {
        Seq::new(data_len as nat, |b: int| None)
    } else {
        let prev = fill_upto(band, data_len, n - 1);
        let start = band[n - 1].bar_index as int;
        let stop = ext_stop(band, n - 1, data_len);
        Seq::new(
            data_len as nat,
            |b: int|
                if start <= b < stop {
                    Some(band[n - 1].value)
                } else {
                    prev[b]
                },
        )
    }
}

/// The step line of a band over `data_len` bars (see [`fill_upto`]).
pub fn step_fill(band: &[BandPoint], data_len: usize) -> (r: Vec<Option<i64>>)
    ensures
        r@ == fill_upto(band@, data_len, band@.len() as int),
{
    let mut line: Vec<Option<i64>> = Vec::new();
    let mut b: usize = 0;
    while b < data_len
        invariant
            b <= data_len,
            line.len() == b,
            forall|k: int| 0 <= k < b ==> line@[k] is None,
        decreases data_len - b,
    {
        line.push(None);
        b = b + 1;
    }
    assert(line@ =~= fill_upto(band@, data_len, 0));
    let mut i: usize = 0;
    while i < band.len()
        invariant
            i <= band.len(),
            line@ == fill_upto(band@, data_len, i as int),
        decreases band.len() - i,
    {
        let start = band[i].bar_index;
        let end = if i + 1 < band.len() {
            band[i + 1].bar_index
        } else {
            data_len
        };
        let stop = if end <= data_len {
            end
        } else {
            data_len
        };
        let v = band[i].value;
        let ghost prev = line@;
        let mut bar: usize = start;
        while bar < stop
            invariant
                start <= bar,
                bar <= stop || bar == start,
                stop <= data_len,
                prev.len() == data_len,
                line.len() == data_len,
                forall|k: int|
                    0 <= k < data_len ==> line@[k] == if start <= k < bar {
                        Some(v)
                    } else {
                        prev[k]
                    },
            decreases stop - bar,
        {
            line.set(bar, Some(v));
            bar = bar + 1;
        }
        assert(line@ =~= fill_upto(band@, data_len, i as int + 1));
        i = i + 1;
    }
    line
}

// ===== Extended bands of the three levels =====

/// Stroke-level band for the terminal: the library's stroke band (cases 1 to 4,
/// track-followed, lifted points relocated), then extended so that no bar crosses it;
/// none with fewer than three final fractals.
pub open spec fn extended_stroke_band_spec(
    ff: Seq<Fractal>,
    strokes: Seq<Stroke>,
    segs: Seq<(usize, usize, bool)>,
    highs: Seq<i64>,
    lows: Seq<i64>,
    data_len: usize,
    upper: bool,
) -> Seq<BandPoint> {
    if ff.len() < 3 {
        Seq::empty()
    } else {
        extend_spec(
            stroke_band_spec(ff, strokes, segs, highs, lows, upper),
            if upper { highs } else { lows },
            data_len,
            upper,
        )
    }
}

/// Segment-level band for the terminal: the library's segment band, then extended;
/// none with fewer than three segments.
pub open spec fn extended_segment_band_spec(
    segs: Seq<(usize, usize, bool)>,
    bigs: Seq<(usize, usize, bool)>,
    strokes: Seq<Stroke>,
    highs: Seq<i64>,
    lows: Seq<i64>,
    ff: Seq<Fractal>,
    data_len: usize,
    upper: bool,
) -> Seq<BandPoint> {
    if segs.len() < 3 {
        Seq::empty()
    } else {
        extend_spec(
            segment_band_spec(segs, bigs, strokes, highs, lows, ff, upper),
            if upper { highs } else { lows },
            data_len,
            upper,
        )
    }
}

/// Big-segment-level band for the terminal (relocated as in the library, then extended);
/// none with fewer than three big segments.
pub open spec fn extended_bigseg_band_spec(
    bigs: Seq<(usize, usize, bool)>,
    segs: Seq<(usize, usize, bool)>,
    strokes: Seq<Stroke>,
    sups: Seq<(usize, usize, bool)>,
    ff: Seq<Fractal>,
    highs: Seq<i64>,
    lows: Seq<i64>,
    data_len: usize,
    upper: bool,
) -> Seq<BandPoint> {
    if bigs.len() < 3 {
        Seq::empty()
    } else {
        extend_spec(
            bigseg_band_spec(bigs, segs, strokes, sups, ff, highs, lows, upper),
            if upper { highs } else { lows },
            data_len,
            upper,
        )
    }
}

/// Stroke-level bands `(upper, lower)` for the terminal over `data_len` bars.
pub fn extended_stroke_bands(
    final_fractals: &[Fractal],
    strokes: &[Stroke],
    segments: &[(usize, usize, bool)],
    highs: &[i64],
    lows: &[i64],
    data_len: usize,
) -> (r: (Vec<BandPoint>, Vec<BandPoint>))
    requires
        lows.len() >= highs.len(),
        data_len <= highs.len(),
    ensures
        r.0@ == extended_stroke_band_spec(final_fractals@, strokes@, segments@, highs@, lows@, data_len, true),
        r.1@ == extended_stroke_band_spec(final_fractals@, strokes@, segments@, highs@, lows@, data_len, false),
{
    if final_fractals.len() < 3 {
        return (Vec::new(), Vec::new());
    }
    let (upper_band, lower_band) = compute_stroke_bands(final_fractals, strokes, segments, highs, lows);
    let upper = extend_no_cross(upper_band.as_slice(), highs, data_len, true);
    let lower = extend_no_cross(lower_band.as_slice(), lows, data_len, false);
    (upper, lower)
}

/// Segment-level bands `(upper, lower)` for the terminal over `data_len` bars.
pub fn extended_segment_bands(
    segments: &[(usize, usize, bool)],
    big_segments: &[(usize, usize, bool)],
    strokes: &[Stroke],
    highs: &[i64],
    lows: &[i64],
    final_fractals: &[Fractal],
    data_len: usize,
) -> (r: (Vec<BandPoint>, Vec<BandPoint>))
    requires
        segments.len() >= 2 ==> segs_in_range(strokes@.len(), segments@),
        lows.len() >= highs.len(),
        data_len <= highs.len(),
    ensures
        r.0@ == extended_segment_band_spec(
            segments@,
            big_segments@,
            strokes@,
            highs@,
            lows@,
            final_fractals@,
            data_len,
            true,
        ),
        r.1@ == extended_segment_band_spec(
            segments@,
            big_segments@,
            strokes@,
            highs@,
            lows@,
            final_fractals@,
            data_len,
            false,
        ),
{
    if segments.len() < 3 {
        return (Vec::new(), Vec::new());
    }
    let (upper_band, lower_band) = compute_segment_bands(
        segments,
        big_segments,
        strokes,
        highs,
        lows,
        final_fractals,
    );
    let upper = extend_no_cross(upper_band.as_slice(), highs, data_len, true);
    let lower = extend_no_cross(lower_band.as_slice(), lows, data_len, false);
    (upper, lower)
}

/// Big-segment-level bands `(upper, lower)` for the terminal over `data_len` bars.
pub fn extended_bigseg_bands(
    big_segments: &[(usize, usize, bool)],
    segments: &[(usize, usize, bool)],
    strokes: &[Stroke],
    superior_segments: &[(usize, usize, bool)],
    final_fractals: &[Fractal],
    highs: &[i64],
    lows: &[i64],
    data_len: usize,
) -> (r: (Vec<BandPoint>, Vec<BandPoint>))
    requires
        big_segments.len() >= 2 ==> bigs_in_range(strokes@, segments@, big_segments@),
        lows.len() >= highs.len(),
        data_len <= highs.len(),
    ensures
        r.0@ == extended_bigseg_band_spec(
            big_segments@,
            segments@,
            strokes@,
            superior_segments@,
            final_fractals@,
            highs@,
            lows@,
            data_len,
            true,
        ),
        r.1@ == extended_bigseg_band_spec(
            big_segments@,
            segments@,
            strokes@,
            superior_segments@,
            final_fractals@,
            highs@,
            lows@,
            data_len,
            false,
        ),
{
    if big_segments.len() < 3 {
        return (Vec::new(), Vec::new());
    }
    let (upper_band, lower_band, _upper_raw, _lower_raw) = compute_bigseg_bands(
        big_segments,
        segments,
        strokes,
        superior_segments,
        final_fractals,
        highs,
        lows,
    );
    let upper = extend_no_cross(upper_band.as_slice(), highs, data_len, true);
    let lower = extend_no_cross(lower_band.as_slice(), lows, data_len, false);
    (upper, lower)
}

// ===== The terminal's own stroke band =====

/// The terminal's stroke band: the library's raw stroke-level points (cases 1 to 4,
/// ordered by bar), each extended bar by bar over highs (upper) or lows (lower) up to the
/// next point, ordered again.
pub open spec fn bar_band_spec(
    ff: Seq<Fractal>,
    s: Seq<Stroke>,
    segs: Seq<(usize, usize, bool)>,
    highs: Seq<i64>,
    lows: Seq<i64>,
    upper: bool,
) -> Seq<BandPoint> {
    let bp = stroke_band_raw(ff, s, segs, upper);
    if bp.len() == 0 {
        bp
    } else {
        sort_bp(extend_spec(bp, if upper { highs } else { lows }, highs.len() as usize, upper))
    }
}

/// The terminal's own stroke band (upper or lower): the library's four cases ordered by
/// bar, then extended bar by bar over highs (upper) or lows (lower) up to the next point.
pub fn bar_stroke_band(
    final_fractals: &[Fractal],
    strokes: &[Stroke],
    segments: &[(usize, usize, bool)],
    highs: &[i64],
    lows: &[i64],
    is_upper: bool,
) -> (r: Vec<BandPoint>)
    requires
        highs.len() == lows.len(),
    ensures
        r@ == bar_band_spec(final_fractals@, strokes@, segments@, highs@, lows@, is_upper),
{
    let (upper_raw, _up_legs, lower_raw, _down_legs) = stroke_raw_bands(
        final_fractals,
        strokes,
        segments,
        highs,
        lows,
    );
    let bp = if is_upper { upper_raw } else { lower_raw };
    if bp.len() == 0 {
        return bp;
    }
    let extended = if is_upper {
        extend_no_cross(bp.as_slice(), highs, highs.len(), true)
    } else {
        extend_no_cross(bp.as_slice(), lows, highs.len(), false)
    };
    sort_band_points(extended.as_slice())
}

// ===== The terminal's step line =====

/// Pointer into `ps` after advancing, from `pt`, over the points on or before bar `bar`.
pub open spec fn step_adv(ps: Seq<BandPoint>, pt: int, bar: int) -> int
    decreases ps.len() - pt,
{
    if 0 <= pt < ps.len() && ps[pt].bar_index <= bar {
        step_adv(ps, pt + 1, bar)
    } else {
        pt
    }
}

/// Pointer after walking bars `0..=bar` (it starts just after the first point).
pub open spec fn step_ptr(ps: Seq<BandPoint>, bar: int) -> int
    decreases bar + 1,
{
    if bar < 0 {
        1
    } else {
        step_adv(ps, step_ptr(ps, bar - 1), bar)
    }
}

/// The step line over `dl` bars: from the first point's bar on, each bar carries the value
/// of the point just before the pointer.
pub open spec fn step_line_spec(ps: Seq<BandPoint>, dl: usize) -> Seq<(usize, i64)> {
    if ps.len() == 0 || ps[0].bar_index >= dl {
        Seq::empty()
    } else {
        let start = ps[0].bar_index;
        Seq::new(
            (dl - start) as nat,
            |k: int| ((start + k) as usize, ps[step_ptr(ps, start + k) - 1].value),
        )
    }
}

proof fn lemma_step_adv(ps: Seq<BandPoint>, pt: int, bar: int)
    requires
        1 <= pt <= ps.len(),
    ensures
        pt <= step_adv(ps, pt, bar) <= ps.len(),
    decreases ps.len() - pt,
{
    if pt < ps.len() && ps[pt].bar_index <= bar {
        lemma_step_adv(ps, pt + 1, bar);
    }
}

proof fn lemma_step_ptr(ps: Seq<BandPoint>, bar: int)
    requires
        ps.len() >= 1,
    ensures
        1 <= step_ptr(ps, bar) <= ps.len(),
    decreases bar + 1,
{
    if bar >= 0 {
        lemma_step_ptr(ps, bar - 1);
        lemma_step_adv(ps, step_ptr(ps, bar - 1), bar);
    }
}

/// First point, from `k` on, after bar `bar` (`ps.len()` when none is).
pub open spec fn first_after(ps: Seq<BandPoint>, bar: int, k: int) -> int
    decreases ps.len() - k,
{
    if k < 0 || k >= ps.len() {
        ps.len() as int
    } else if ps[k].bar_index > bar {
        k
    } else {
        first_after(ps, bar, k + 1)
    }
}

proof fn lemma_first_after(ps: Seq<BandPoint>, bar: int, k: int)
    requires
        0 <= k <= ps.len(),
        sorted_bp(ps),
    ensures
        k <= first_after(ps, bar, k) <= ps.len(),
        forall|j: int| k <= j < first_after(ps, bar, k) ==> ps[j].bar_index <= bar,
        first_after(ps, bar, k) < ps.len() ==> ps[first_after(ps, bar, k)].bar_index > bar,
        forall|j: int| first_after(ps, bar, k) <= j < ps.len() ==> ps[j].bar_index > bar,
    decreases ps.len() - k,
{
    if k < ps.len() {
        lemma_first_after(ps, bar, k + 1);
        let f = first_after(ps, bar, k);
        if f < ps.len() {
            assert forall|j: int| f <= j < ps.len() implies ps[j].bar_index > bar by {
                assert(ps[f].bar_index <= ps[j].bar_index);
            }
        }
    }
}

proof fn lemma_step_adv_sorted(ps: Seq<BandPoint>, pt: int, bar: int)
    requires
        sorted_bp(ps),
        1 <= pt <= ps.len(),
        first_after(ps, bar, 0) <= ps.len(),
        forall|j: int| pt <= j < first_after(ps, bar, 0) ==> #[trigger] ps[j].bar_index <= bar,
        forall|j: int| first_after(ps, bar, 0) <= j < ps.len() ==> #[trigger] ps[j].bar_index > bar,
    ensures
        step_adv(ps, pt, bar) == if pt >= first_after(ps, bar, 0) { pt } else { first_after(ps, bar, 0) },
    decreases ps.len() - pt,
{
    if pt < ps.len() && ps[pt].bar_index <= bar {
        lemma_step_adv_sorted(ps, pt + 1, bar);
    }
}

proof fn lemma_step_ptr_sorted(ps: Seq<BandPoint>, bar: int)
    requires
        sorted_bp(ps),
        ps.len() >= 1,
        bar >= -1,
    ensures
        step_ptr(ps, bar) == if first_after(ps, bar, 0) >= 1 { first_after(ps, bar, 0) } else { 1 },
    decreases bar + 1,
{
    lemma_first_after(ps, bar, 0);
    if bar >= 0 {
        lemma_step_ptr_sorted(ps, bar - 1);
        lemma_first_after(ps, bar - 1, 0);
        let prev = step_ptr(ps, bar - 1);
        let f0 = first_after(ps, bar - 1, 0);
        let f1 = first_after(ps, bar, 0);
        assert(f0 <= f1) by {
            if f0 > f1 {
                assert(ps[f1].bar_index > bar);
                assert(ps[f1].bar_index <= bar - 1);
            }
        }
        lemma_step_adv_sorted(ps, prev, bar);
    } else {
        assert(first_after(ps, -1, 0) == 0);
    }
}

/// Law: on bars ordered by bar, each bar of the step line carries the value of the last
/// point on or before it.
pub proof fn lemma_step_line_latest(ps: Seq<BandPoint>, dl: usize, k: int)
    requires
        sorted_bp(ps),
        0 <= k < step_line_spec(ps, dl).len(),
    ensures
        ({
            let (bar, v) = step_line_spec(ps, dl)[k];
            let j = first_after(ps, bar as int, 0) - 1;
            &&& 0 <= j < ps.len()
            &&& ps[j].bar_index <= bar
            &&& v == ps[j].value
            &&& forall|m: int| j < m < ps.len() ==> ps[m].bar_index > bar
        }),
{
    let start = ps[0].bar_index;
    let bar = start + k;
    lemma_first_after(ps, bar, 0);
    lemma_step_ptr_sorted(ps, bar);
    assert(ps[0].bar_index <= bar);
    assert(first_after(ps, bar, 0) >= 1);
}

/// The terminal's step line: from the first point's bar to the last bar, each bar carries
/// the value of the latest point reached by a pointer that advances over points on or
/// before the bar.
pub fn step_line(ps: &[BandPoint], dl: usize) -> (r: Vec<(usize, i64)>)
    ensures
        r@ == step_line_spec(ps@, dl),
{
    let mut values: Vec<(usize, i64)> = Vec::new();
    if ps.len() == 0 {
        return values;
    }
    let start = ps[0].bar_index;
    let mut pt: usize = 1;
    let mut bar: usize = 0;
    while bar < dl
        invariant
            ps.len() >= 1,
            start == ps@[0].bar_index,
            bar <= dl,
            pt as int == step_ptr(ps@, bar as int - 1),
            values.len() == if bar > start { bar - start } else { 0 },
            forall|k: int|
                0 <= k < values.len() ==> values@[k] == ((start + k) as usize, ps@[step_ptr(
                    ps@,
                    start + k,
                ) - 1].value),
        decreases dl - bar,
    {
        proof {
            lemma_step_ptr(ps@, bar as int - 1);
        }
        let ghost pt0 = pt as int;
        while pt < ps.len() && ps[pt].bar_index <= bar
            invariant
                1 <= pt0 <= pt <= ps.len(),
                step_adv(ps@, pt0, bar as int) == step_adv(ps@, pt as int, bar as int),
            decreases ps.len() - pt,
        {
            pt = pt + 1;
        }
        proof {
            lemma_step_ptr(ps@, bar as int);
        }
        if bar >= start {
            values.push((bar, ps[pt - 1].value));
        }
        bar = bar + 1;
    }
    proof {
        if start < dl {
            assert(values@ =~= step_line_spec(ps@, dl));
        } else {
            assert(values@ =~= step_line_spec(ps@, dl));
        }
    }
    values
}

// ===== Line end points =====

/// A drawn line between two price points.
#[derive(Debug, Clone, Copy, PartialEq, Eq, Structural)]
pub struct LineEnds {
    pub start_bar: usize,
    pub start_price: i64,
    pub end_bar: usize,
    pub end_price: i64,
    pub is_up: bool,
}

/// Line from the start of stroke `si` to the end of stroke `ei`, when both exist.
pub open spec fn stroke_span(strokes: Seq<Stroke>, si: usize, ei: usize, is_up: bool) -> Option<LineEnds> {
    if si < strokes.len() && ei < strokes.len() {
        Some(
            LineEnds {
                start_bar: strokes[si as int].start_bar,
                start_price: strokes[si as int].start_price,
                end_bar: strokes[ei as int].end_bar,
                end_price: strokes[ei as int].end_price,
                is_up,
            },
        )
    } else {
        None
    }
}

/// Line of a segment.
pub open spec fn segment_line(strokes: Seq<Stroke>, seg: (usize, usize, bool)) -> Option<LineEnds> {
    stroke_span(strokes, seg.0, seg.1, seg.2)
}

/// Line of a big segment: from its first segment's first stroke to its last segment's last.
pub open spec fn big_segment_line(
    strokes: Seq<Stroke>,
    segs: Seq<(usize, usize, bool)>,
    big: (usize, usize, bool),
) -> Option<LineEnds> {
    if big.0 < segs.len() && big.1 < segs.len() {
        stroke_span(strokes, segs[big.0 as int].0, segs[big.1 as int].1, big.2)
    } else {
        None
    }
}

/// Line of a superior segment, resolved through big segments and segments to strokes.
pub open spec fn superior_line(
    strokes: Seq<Stroke>,
    segs: Seq<(usize, usize, bool)>,
    bigs: Seq<(usize, usize, bool)>,
    sup: (usize, usize, bool),
) -> Option<LineEnds> {
    if sup.0 < bigs.len() && sup.1 < bigs.len() {
        big_segment_line(strokes, segs, (bigs[sup.0 as int].0, bigs[sup.1 as int].1, sup.2))
    } else {
        None
    }
}

/// Lines of the first `n` groups at `level` (1 segments, 2 big segments, 3 superior
/// segments), skipping those that do not resolve.
pub open spec fn lines_upto(
    strokes: Seq<Stroke>,
    segs: Seq<(usize, usize, bool)>,
    bigs: Seq<(usize, usize, bool)>,
    groups: Seq<(usize, usize, bool)>,
    level: u8,
    n: int,
) -> Seq<LineEnds>
    decreases n,
{
    if n <= 0 || n > groups.len() {
        Seq::empty()
    } else {
        let r = lines_upto(strokes, segs, bigs, groups, level, n - 1);
        let g = groups[n - 1];
        let line = if level == 1 {
            segment_line(strokes, g)
        } else if level == 2 {
            big_segment_line(strokes, segs, g)
        } else {
            superior_line(strokes, segs, bigs, g)
        };
        match line {
            Some(l) => r.push(l),
            None => r,
        }
    }
}

fn stroke_span_exec(strokes: &[Stroke], si: usize, ei: usize, is_up: bool) -> (r: Option<LineEnds>)
    ensures
        r == stroke_span(strokes@, si, ei, is_up),
{
    if si < strokes.len() && ei < strokes.len() {
        Some(
            LineEnds {
                start_bar: strokes[si].start_bar,
                start_price: strokes[si].start_price,
                end_bar: strokes[ei].end_bar,
                end_price: strokes[ei].end_price,
                is_up,
            },
        )
    } else {
        None
    }
}

fn lines_exec(
    strokes: &[Stroke],
    segs: &[(usize, usize, bool)],
    bigs: &[(usize, usize, bool)],
    groups: &[(usize, usize, bool)],
    level: u8,
) -> (r: Vec<LineEnds>)
    ensures
        r@ == lines_upto(strokes@, segs@, bigs@, groups@, level, groups@.len() as int),
{
    let mut out: Vec<LineEnds> = Vec::new();
    let mut k: usize = 0;
    while k < groups.len()
        invariant
            k <= groups.len(),
            out@ == lines_upto(strokes@, segs@, bigs@, groups@, level, k as int),
        decreases groups.len() - k,
    {
        let g = groups[k];
        let line = if level == 1 {
            stroke_span_exec(strokes, g.0, g.1, g.2)
        } else if level == 2 {
            if g.0 < segs.len() && g.1 < segs.len() {
                stroke_span_exec(strokes, segs[g.0].0, segs[g.1].1, g.2)
            } else {
                None
            }
        } else if g.0 < bigs.len() && g.1 < bigs.len() {
            let b0 = bigs[g.0].0;
            let b1 = bigs[g.1].1;
            if b0 < segs.len() && b1 < segs.len() {
                stroke_span_exec(strokes, segs[b0].0, segs[b1].1, g.2)
            } else {
                None
            }
        } else {
            None
        };
        match line {
            Some(l) => out.push(l),
            None => {},
        }
        k = k + 1;
    }
    out
}

/// Lines of the segments whose strokes exist.
pub fn segment_lines(strokes: &[Stroke], segs: &[(usize, usize, bool)]) -> (r: Vec<LineEnds>)
    ensures
        r@ == lines_upto(strokes@, segs@, Seq::empty(), segs@, 1, segs@.len() as int),
{
    let none: Vec<(usize, usize, bool)> = Vec::new();
    lines_exec(strokes, segs, none.as_slice(), segs, 1)
}

/// Lines of the big segments that resolve to strokes.
pub fn big_segment_lines(strokes: &[Stroke], segs: &[(usize, usize, bool)], bigs: &[(usize, usize, bool)]) -> (r:
    Vec<LineEnds>)
    ensures
        r@ == lines_upto(strokes@, segs@, Seq::empty(), bigs@, 2, bigs@.len() as int),
{
    let none: Vec<(usize, usize, bool)> = Vec::new();
    lines_exec(strokes, segs, none.as_slice(), bigs, 2)
}

/// Lines of the superior segments that resolve to strokes.
pub fn superior_lines(
    strokes: &[Stroke],
    segs: &[(usize, usize, bool)],
    bigs: &[(usize, usize, bool)],
    sups: &[(usize, usize, bool)],
) -> (r: Vec<LineEnds>)
    ensures
        r@ == lines_upto(strokes@, segs@, bigs@, sups@, 3, sups@.len() as int),
{
    lines_exec(strokes, segs, bigs, sups, 3)
}

/// A line as drawn on `data_len` bars: ends swapped so that the start bar comes first;
/// `None` when it spans no bar or ends beyond the data.
pub open spec fn drawable_span(l: LineEnds, data_len: usize) -> Option<LineEnds> {
    let o = if l.start_bar <= l.end_bar {
        l
    } else {
        LineEnds {
            start_bar: l.end_bar,
            start_price: l.end_price,
            end_bar: l.start_bar,
            end_price: l.start_price,
            is_up: l.is_up,
        }
    };
    if o.end_bar <= o.start_bar || o.end_bar >= data_len {
        None
    } else {
        Some(o)
    }
}

/// The drawable form of a line on `data_len` bars (see [`drawable_span`]).
pub fn drawable(l: LineEnds, data_len: usize) -> (r: Option<LineEnds>)
    ensures
        r == drawable_span(l, data_len),
{
    let o = if l.start_bar <= l.end_bar {
        l
    } else {
        LineEnds {
            start_bar: l.end_bar,
            start_price: l.end_price,
            end_bar: l.start_bar,
            end_price: l.start_price,
            is_up: l.is_up,
        }
    };
    if o.end_bar <= o.start_bar || o.end_bar >= data_len {
        None
    } else {
        Some(o)
    }
}

} // verus!
