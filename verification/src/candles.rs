use vstd::prelude::*;

use crate::types::Fractal;
use crate::types::MergedCandle;

verus! {

// ===== Inclusion processing of raw candles =====

/// One candle range contains the other.
pub open spec fn is_contain_spec(h1: i64, l1: i64, h2: i64, l2: i64) -> bool {
    (h1 >= h2 && l1 <= l2) || (h2 >= h1 && l2 <= l1)
}

fn is_contain(h1: i64, l1: i64, h2: i64, l2: i64) -> (r: bool)
    ensures
        r == is_contain_spec(h1, l1, h2, l2),
{
    (h1 >= h2 && l1 <= l2) || (h2 >= h1 && l2 <= l1)
}

pub open spec fn max_i64(a: i64, b: i64) -> i64 {
    if a >= b {
        a
    } else {
        b
    }
}

pub open spec fn min_i64(a: i64, b: i64) -> i64 {
    if a <= b {
        a
    } else {
        b
    }
}

/// Folds bar `i` (prices `h`, `l`) into the merged sequence `m` under trend `trend`.
pub open spec fn merge_step(m: Seq<MergedCandle>, trend: bool, h: i64, l: i64, i: usize) -> (
    Seq<MergedCandle>,
    bool,
) {
    let last = m.last();
    if !is_contain_spec(h, l, last.high, last.low) {
        let t2 = if h > last.high && l > last.low {
            true
        } else if h < last.high && l < last.low {
            false
        } else {
            trend
        };
        (m.push(MergedCandle { high: h, low: l, high_bar_index: i, low_bar_index: i }), t2)
    } else if trend {
        let c = MergedCandle {
            high: max_i64(last.high, h),
            low: max_i64(last.low, l),
            high_bar_index: if h >= last.high {
                i
            } else {
                last.high_bar_index
            },
            low_bar_index: if l >= last.low {
                i
            } else {
                last.low_bar_index
            },
        };
        (m.update(m.len() - 1, c), trend)
    } else {
        let c = MergedCandle {
            high: min_i64(last.high, h),
            low: min_i64(last.low, l),
            high_bar_index: if h <= last.high {
                i
            } else {
                last.high_bar_index
            },
            low_bar_index: if l <= last.low {
                i
            } else {
                last.low_bar_index
            },
        };
        (m.update(m.len() - 1, c), trend)
    }
}

/// Merged candles and trend after the first `n` bars (`n >= 1`).
pub open spec fn merge_state(highs: Seq<i64>, lows: Seq<i64>, n: nat) -> (Seq<MergedCandle>, bool)
    decreases n,
{
    if n <= 1 {
        (seq![MergedCandle { high: highs[0], low: lows[0], high_bar_index: 0, low_bar_index: 0 }], false)
    } else {
        let (m, t) = merge_state(highs, lows, (n - 1) as nat);
        merge_step(m, t, highs[n - 1], lows[n - 1], (n - 1) as usize)
    }
}

/// The merged candle sequence of a whole bar series.
pub open spec fn merged_candles_spec(highs: Seq<i64>, lows: Seq<i64>) -> Seq<MergedCandle> {
    if highs.len() == 0 {
        Seq::empty()
    } else {
        merge_state(highs, lows, highs.len()).0
    }
}

/// Both ends of `b` lie strictly above those of `a`.
pub open spec fn strictly_up(a: MergedCandle, b: MergedCandle) -> bool {
    b.high > a.high && b.low > a.low
}

/// Both ends of `b` lie strictly below those of `a`.
pub open spec fn strictly_down(a: MergedCandle, b: MergedCandle) -> bool {
    b.high < a.high && b.low < a.low
}

/// No two neighbouring candles of `m` contain one another.
pub open spec fn no_inclusion(m: Seq<MergedCandle>) -> bool {
    forall|k: int|
        0 <= k < m.len() - 1 ==> strictly_up(#[trigger] m[k], m[k + 1]) || strictly_down(
            m[k],
            m[k + 1],
        )
}

spec fn merge_inv(m: Seq<MergedCandle>, t: bool) -> bool {
    &&& m.len() >= 1
    &&& no_inclusion(m)
    &&& m.len() >= 2 ==> (t ==> strictly_up(m[m.len() - 2], m[m.len() - 1]))
    &&& m.len() >= 2 ==> (!t ==> strictly_down(m[m.len() - 2], m[m.len() - 1]))
}

proof fn lemma_merge_state_inv(highs: Seq<i64>, lows: Seq<i64>, n: nat)
    requires
        n >= 1,
    ensures
        merge_inv(merge_state(highs, lows, n).0, merge_state(highs, lows, n).1),
        merge_state(highs, lows, n).0.len() <= n,
    decreases n,
{
    if n > 1 {
        lemma_merge_state_inv(highs, lows, (n - 1) as nat);
        let (m, t) = merge_state(highs, lows, (n - 1) as nat);
        let (m2, t2) = merge_state(highs, lows, n);
        assert forall|k: int| 0 <= k < m2.len() - 1 implies strictly_up(
            #[trigger] m2[k],
            m2[k + 1],
        ) || strictly_down(m2[k], m2[k + 1]) by {
            if k < m.len() - 2 {
                assert(m2[k] == m[k]);
                assert(m2[k + 1] == m[k + 1]);
            }
        }
    }
}

/// Law: after inclusion processing, no two neighbouring merged candles contain one
/// another; each is strictly above or strictly below its predecessor.
pub proof fn lemma_merged_no_inclusion(highs: Seq<i64>, lows: Seq<i64>)
    ensures
        no_inclusion(merged_candles_spec(highs, lows)),
        merged_candles_spec(highs, lows).len() <= highs.len(),
        highs.len() > 0 ==> merged_candles_spec(highs, lows).len() >= 1,
{
    if highs.len() > 0 {
        lemma_merge_state_inv(highs, lows, highs.len());
    }
}

/// Merges candles in inclusion relation, following the current trend direction.
pub fn process_merged_candles(highs: &[i64], lows: &[i64]) -> (merged: Vec<MergedCandle>)
    requires
        lows.len() >= highs.len(),
    ensures
        merged@ == merged_candles_spec(highs@, lows@),
{
    let n = highs.len();
    let mut merged: Vec<MergedCandle> = Vec::new();
    if n == 0 {
        return merged;
    }
    merged.push(MergedCandle { high: highs[0], low: lows[0], high_bar_index: 0, low_bar_index: 0 });
    let mut trend: bool = false;
    assert(merged@ == merge_state(highs@, lows@, 1).0);
    let mut i: usize = 1;
    while i < n
        invariant
            n == highs.len(),
            lows.len() >= highs.len(),
            1 <= i <= n,
            (merged@, trend) == merge_state(highs@, lows@, i as nat),
            merged.len() >= 1,
        decreases n - i,
    {
        let cur_h = highs[i];
        let cur_l = lows[i];
        let li = merged.len() - 1;
        let last = merged[li];
        if !is_contain(cur_h, cur_l, last.high, last.low) {
            if cur_h > last.high && cur_l > last.low {
                trend = true;
            } else if cur_h < last.high && cur_l < last.low {
                trend = false;
            }
            merged.push(
                MergedCandle { high: cur_h, low: cur_l, high_bar_index: i, low_bar_index: i },
            );
        } else if trend {
            let new_high = if last.high >= cur_h {
                last.high
            } else {
                cur_h
            };
            let new_low = if last.low >= cur_l {
                last.low
            } else {
                cur_l
            };
            let hbi = if cur_h >= last.high {
                i
            } else {
                last.high_bar_index
            };
            let lbi = if cur_l >= last.low {
                i
            } else {
                last.low_bar_index
            };
            merged.set(
                li,
                MergedCandle { high: new_high, low: new_low, high_bar_index: hbi, low_bar_index: lbi },
            );
        } else {
            let new_high = if last.high <= cur_h {
                last.high
            } else {
                cur_h
            };
            let new_low = if last.low <= cur_l {
                last.low
            } else {
                cur_l
            };
            let hbi = if cur_h <= last.high {
                i
            } else {
                last.high_bar_index
            };
            let lbi = if cur_l <= last.low {
                i
            } else {
                last.low_bar_index
            };
            merged.set(
                li,
                MergedCandle { high: new_high, low: new_low, high_bar_index: hbi, low_bar_index: lbi },
            );
        }
        i = i + 1;
    }
    merged
}

// ===== Fractal identification =====

/// The fractal whose middle candle is `merged[i + 1]`, if any.
pub open spec fn fractal_at(merged: Seq<MergedCandle>, i: int) -> Option<Fractal> {
    let left = merged[i + 2];
    let mid = merged[i + 1];
    let right = merged[i];
    if mid.high > left.high && mid.high > right.high && mid.low > left.low && mid.low > right.low {
        Some(
            Fractal {
                price: mid.high,
                is_top: true,
                bar_index: mid.high_bar_index,
                merged_index: (i + 1) as usize,
                time: mid.high_bar_index,
            },
        )
    } else if mid.low < left.low && mid.low < right.low && mid.high < left.high && mid.high
        < right.high {
        Some(
            Fractal {
                price: mid.low,
                is_top: false,
                bar_index: mid.low_bar_index,
                merged_index: (i + 1) as usize,
                time: mid.low_bar_index,
            },
        )
    } else {
        None
    }
}

/// Fractals found among the windows starting at `0..k`, in order.
pub open spec fn fractals_upto(merged: Seq<MergedCandle>, k: nat) -> Seq<Fractal>
    decreases k,
{
    if k == 0 {
        Seq::empty()
    } else {
        let s = fractals_upto(merged, (k - 1) as nat);
        match fractal_at(merged, k - 1) {
            Some(f) => s.push(f),
            None => s,
        }
    }
}

pub open spec fn fractals_spec(merged: Seq<MergedCandle>) -> Seq<Fractal> {
    if merged.len() < 3 {
        Seq::empty()
    } else {
        fractals_upto(merged, (merged.len() - 2) as nat)
    }
}

/// Finds top and bottom fractals over every window of three merged candles.
pub fn identify_fractals(merged: &[MergedCandle]) -> (points: Vec<Fractal>)
    ensures
        points@ == fractals_spec(merged@),
{
    let mc = merged.len();
    let mut points: Vec<Fractal> = Vec::new();
    if mc < 3 {
        return points;
    }
    let mut i: usize = 0;
    while i < mc - 2
        invariant
            mc == merged.len(),
            mc >= 3,
            i <= mc - 2,
            points@ == fractals_upto(merged@, i as nat),
        decreases mc - 2 - i,
    {
        let left = merged[i + 2];
        let mid = merged[i + 1];
        let right = merged[i];
        let is_top = mid.high > left.high && mid.high > right.high && mid.low > left.low && mid.low
            > right.low;
        let is_bot = mid.low < left.low && mid.low < right.low && mid.high < left.high && mid.high
            < right.high;
        if is_top {
            points.push(
                Fractal {
                    price: mid.high,
                    is_top: true,
                    bar_index: mid.high_bar_index,
                    merged_index: i + 1,
                    time: mid.high_bar_index,
                },
            );
        } else if is_bot {
            points.push(
                Fractal {
                    price: mid.low,
                    is_top: false,
                    bar_index: mid.low_bar_index,
                    merged_index: i + 1,
                    time: mid.low_bar_index,
                },
            );
        }
        i = i + 1;
    }
    points
}

// ===== Stable ordering by bar index =====

/// Inserts `x` after every element whose bar index is not greater than its own.
pub open spec fn insert_by_bar(s: Seq<Fractal>, x: Fractal) -> Seq<Fractal>
    decreases s.len(),
{
    if s.len() == 0 {
        seq![x]
    } else if s.last().bar_index <= x.bar_index {
        s.push(x)
    } else {
        insert_by_bar(s.drop_last(), x).push(s.last())
    }
}

/// Stable sort by bar index (insertion sort).
pub open spec fn sort_by_bar(s: Seq<Fractal>) -> Seq<Fractal>
    decreases s.len(),
{
    if s.len() == 0 {
        s
    } else {
        insert_by_bar(sort_by_bar(s.drop_last()), s.last())
    }
}

pub open spec fn sorted_by_bar(s: Seq<Fractal>) -> bool {
    forall|a: int, b: int| 0 <= a <= b < s.len() ==> #[trigger] s[a].bar_index <= #[trigger] s[b].bar_index
}

proof fn lemma_insert_by_bar(s: Seq<Fractal>, x: Fractal)
    requires
        sorted_by_bar(s),
    ensures
        sorted_by_bar(insert_by_bar(s, x)),
        insert_by_bar(s, x).to_multiset() == s.to_multiset().insert(x),
        insert_by_bar(s, x).len() == s.len() + 1,
    decreases s.len(),
{
    broadcast use vstd::seq_lib::group_to_multiset_ensures;

    if s.len() == 0 {
        assert(insert_by_bar(s, x) =~= seq![x]);
        assert(seq![x] =~= Seq::<Fractal>::empty().push(x));
    } else if s.last().bar_index <= x.bar_index {
    } else {
        let s0 = s.drop_last();
        assert(sorted_by_bar(s0));
        lemma_insert_by_bar(s0, x);
        let r0 = insert_by_bar(s0, x);
        let r = r0.push(s.last());
        assert forall|a: int, b: int| 0 <= a <= b < r.len() implies #[trigger] r[a].bar_index
            <= #[trigger] r[b].bar_index by {
            if b == r.len() - 1 && a < b {
                // every element of r0 is x or an element of s0
                assert(r0.to_multiset().count(r0[a]) > 0);
                assert(s0.to_multiset().insert(x).count(r0[a]) > 0);
                if r0[a] != x {
                    assert(s0.to_multiset().count(r0[a]) > 0);
                    assert(s0.contains(r0[a]));
                    let j = choose|j: int| 0 <= j < s0.len() && s0[j] == r0[a];
                    assert(s[j] == s0[j]);
                }
            }
        }
        assert(s =~= s0.push(s.last()));
    }
}

/// Law: the stable order by bar index is sorted and a permutation of its input.
pub proof fn lemma_sort_by_bar(s: Seq<Fractal>)
    ensures
        sorted_by_bar(sort_by_bar(s)),
        sort_by_bar(s).to_multiset() == s.to_multiset(),
        sort_by_bar(s).len() == s.len(),
    decreases s.len(),
{
    broadcast use vstd::seq_lib::group_to_multiset_ensures;

    if s.len() > 0 {
        lemma_sort_by_bar(s.drop_last());
        lemma_insert_by_bar(sort_by_bar(s.drop_last()), s.last());
        assert(s =~= s.drop_last().push(s.last()));
    }
}

proof fn lemma_insert_split(s: Seq<Fractal>, x: Fractal, j: int)
    requires
        0 < j <= s.len(),
        s[j - 1].bar_index > x.bar_index,
    ensures
        insert_by_bar(s.take(j), x) + s.skip(j) == insert_by_bar(s.take(j - 1), x) + s.skip(j - 1),
{
    let t = s.take(j);
    assert(t.drop_last() =~= s.take(j - 1));
    assert(t.last() == s[j - 1]);
    assert(insert_by_bar(t, x) == insert_by_bar(s.take(j - 1), x).push(s[j - 1]));
    assert(insert_by_bar(s.take(j - 1), x).push(s[j - 1]) + s.skip(j) =~= insert_by_bar(
        s.take(j - 1),
        x,
    ) + s.skip(j - 1));
}

/// Inserts `x` into the vector at the place a stable sort by bar index puts it.
fn insert_fractal_by_bar(v: &mut Vec<Fractal>, x: Fractal)
    ensures
        final(v)@ == insert_by_bar(old(v)@, x),
{
    let ghost s = v@;
    let mut j: usize = v.len();
    assert(s.take(j as int) =~= s);
    assert(s.skip(j as int) =~= Seq::<Fractal>::empty());
    while j > 0 && v[j - 1].bar_index > x.bar_index
        invariant
            v@ == s,
            j <= s.len(),
            insert_by_bar(s, x) == insert_by_bar(s.take(j as int), x) + s.skip(j as int),
        decreases j,
    {
        proof {
            lemma_insert_split(s, x, j as int);
        }
        j = j - 1;
    }
    proof {
        let t = s.take(j as int);
        if j > 0 {
            assert(t.last() == s[j - 1]);
            assert(insert_by_bar(t, x) == t.push(x));
        } else {
            assert(t =~= Seq::<Fractal>::empty());
            assert(insert_by_bar(t, x) == seq![x]);
        }
    }
    v.insert(j, x);
    assert(v@ =~= s.take(j as int).push(x) + s.skip(j as int));
}

/// Sorts fractals by bar index, keeping the input order among equal bar indices.
pub fn sort_fractals_by_bar(points: &[Fractal]) -> (sorted: Vec<Fractal>)
    ensures
        sorted@ == sort_by_bar(points@),
{
    let mut sorted: Vec<Fractal> = Vec::new();
    let mut i: usize = 0;
    while i < points.len()
        invariant
            i <= points.len(),
            sorted@ == sort_by_bar(points@.take(i as int)),
        decreases points.len() - i,
    {
        proof {
            let t = points@.take(i as int + 1);
            assert(t.drop_last() =~= points@.take(i as int));
        }
        insert_fractal_by_bar(&mut sorted, points[i]);
        i = i + 1;
    }
    assert(points@.take(i as int) =~= points@);
    sorted
}

// ===== Fractal filtering =====

/// Adds `curr` to the alternating chain `valid`: a new direction is appended, a more
/// extreme fractal of the same direction replaces the last one.
pub open spec fn filter_step(valid: Seq<Fractal>, curr: Fractal) -> Seq<Fractal> {
    let prev = valid.last();
    if curr.is_top != prev.is_top {
        valid.push(curr)
    } else if curr.is_top {
        if curr.price > prev.price {
            valid.update(valid.len() - 1, curr)
        } else {
            valid
        }
    } else {
        if curr.price < prev.price {
            valid.update(valid.len() - 1, curr)
        } else {
            valid
        }
    }
}

/// The chain after the first `k >= 1` fractals of `s`.
pub open spec fn filter_fold(s: Seq<Fractal>, k: nat) -> Seq<Fractal>
    decreases k,
{
    if k <= 1 {
        seq![s[0]]
    } else {
        filter_step(filter_fold(s, (k - 1) as nat), s[k - 1])
    }
}

pub open spec fn filter_fractals_spec(points: Seq<Fractal>) -> Seq<Fractal> {
    if points.len() == 0 {
        Seq::empty()
    } else {
        let sorted = sort_by_bar(points);
        filter_fold(sorted, sorted.len())
    }
}

/// Neighbouring fractals of `s` have opposite directions.
pub open spec fn alternating(s: Seq<Fractal>) -> bool {
    forall|k: int| 0 <= k < s.len() - 1 ==> #[trigger] s[k].is_top != s[k + 1].is_top
}

proof fn lemma_filter_fold_alternating(s: Seq<Fractal>, k: nat)
    requires
        1 <= k <= s.len(),
    ensures
        alternating(filter_fold(s, k)),
        filter_fold(s, k).len() >= 1,
        filter_fold(s, k).len() <= k,
    decreases k,
{
    if k > 1 {
        lemma_filter_fold_alternating(s, (k - 1) as nat);
        let v = filter_fold(s, (k - 1) as nat);
        let v2 = filter_fold(s, k);
        assert forall|j: int| 0 <= j < v2.len() - 1 implies #[trigger] v2[j].is_top
            != v2[j + 1].is_top by {
            if j < v.len() - 1 {
                assert(v2[j] == v[j]);
            }
        }
    }
}

/// Law: filtered fractals alternate between tops and bottoms.
pub proof fn lemma_filter_alternating(points: Seq<Fractal>)
    ensures
        alternating(filter_fractals_spec(points)),
        points.len() > 0 ==> filter_fractals_spec(points).len() >= 1,
{
    if points.len() > 0 {
        lemma_sort_by_bar(points);
        lemma_filter_fold_alternating(sort_by_bar(points), sort_by_bar(points).len());
    }
}

/// Orders fractals by bar, then keeps an alternating chain of the most extreme ones.
pub fn filter_fractals(points: &[Fractal]) -> (valid: Vec<Fractal>)
    ensures
        valid@ == filter_fractals_spec(points@),
{
    let total = points.len();
    if total < 1 {
        return Vec::new();
    }
    let sorted_pts = sort_fractals_by_bar(points);
    proof {
        lemma_sort_by_bar(points@);
    }
    let mut valid: Vec<Fractal> = Vec::new();
    valid.push(sorted_pts[0]);
    let mut i: usize = 1;
    while i < total
        invariant
            total == points.len(),
            sorted_pts@ == sort_by_bar(points@),
            sorted_pts.len() == total,
            1 <= i <= total,
            valid@ == filter_fold(sorted_pts@, i as nat),
            valid.len() >= 1,
        decreases total - i,
    {
        let li = valid.len() - 1;
        let prev = valid[li];
        let curr = sorted_pts[i];
        if curr.is_top != prev.is_top {
            valid.push(curr);
        } else if curr.is_top {
            if curr.price > prev.price {
                valid.set(li, curr);
            }
        } else {
            if curr.price < prev.price {
                valid.set(li, curr);
            }
        }
        i = i + 1;
    }
    valid
}


// ===== Time order =====

/// Bar indices of `s` strictly increase.
pub open spec fn strictly_sorted_by_bar(s: Seq<Fractal>) -> bool {
    forall|a: int, b: int|
        0 <= a < b < s.len() ==> #[trigger] s[a].bar_index < #[trigger] s[b].bar_index
}

/// The earlier of the two bars a merged candle takes its extremes from.
pub open spec fn first_bar(c: MergedCandle) -> int {
    if c.high_bar_index <= c.low_bar_index {
        c.high_bar_index as int
    } else {
        c.low_bar_index as int
    }
}

/// The later of the two bars a merged candle takes its extremes from.
pub open spec fn last_bar(c: MergedCandle) -> int {
    if c.high_bar_index <= c.low_bar_index {
        c.low_bar_index as int
    } else {
        c.high_bar_index as int
    }
}

/// Merged candles cover disjoint, increasing runs of bars, all before bar `n`.
pub open spec fn bars_in_order(m: Seq<MergedCandle>, n: int) -> bool {
    &&& forall|a: int, b: int|
        0 <= a < b < m.len() ==> last_bar(#[trigger] m[a]) < first_bar(#[trigger] m[b])
    &&& forall|a: int| 0 <= a < m.len() ==> last_bar(#[trigger] m[a]) < n
}

proof fn lemma_merge_state_bars(highs: Seq<i64>, lows: Seq<i64>, n: nat)
    requires
        1 <= n <= usize::MAX,
    ensures
        bars_in_order(merge_state(highs, lows, n).0, n as int),
    decreases n,
{
    if n > 1 {
        lemma_merge_state_bars(highs, lows, (n - 1) as nat);
        lemma_merge_state_inv(highs, lows, (n - 1) as nat);
        let (m, t) = merge_state(highs, lows, (n - 1) as nat);
        let m2 = merge_state(highs, lows, n).0;
        let last = m.last();
        assert(last == m[m.len() - 1]);
        let i = (n - 1) as usize;
        assert(i as int == n - 1);
        assert(m2 == merge_step(m, t, highs[n - 1], lows[n - 1], i).0);
        assert(last_bar(last) < i);
        if m2.len() == m.len() {
            assert(first_bar(m2[m.len() - 1]) >= first_bar(last));
            assert forall|a: int, b: int| 0 <= a < b < m2.len() implies last_bar(#[trigger] m2[a])
                < first_bar(#[trigger] m2[b]) by {
                assert(m2[a] == m[a]);
                if b < m.len() - 1 {
                    assert(m2[b] == m[b]);
                }
            }
            assert forall|a: int| 0 <= a < m2.len() implies last_bar(#[trigger] m2[a]) < n by {
                if a < m.len() - 1 {
                    assert(m2[a] == m[a]);
                }
            }
        } else {
            assert forall|a: int, b: int| 0 <= a < b < m2.len() implies last_bar(#[trigger] m2[a])
                < first_bar(#[trigger] m2[b]) by {
                assert(m2[a] == m[a]);
                if b < m.len() {
                    assert(m2[b] == m[b]);
                }
            }
            assert forall|a: int| 0 <= a < m2.len() implies last_bar(#[trigger] m2[a]) < n by {
                if a < m.len() {
                    assert(m2[a] == m[a]);
                }
            }
        }
    }
}

/// Merged candles of a bar series cover increasing runs of bars.
pub proof fn lemma_merged_bars_in_order(highs: Seq<i64>, lows: Seq<i64>)
    requires
        highs.len() <= usize::MAX,
    ensures
        bars_in_order(merged_candles_spec(highs, lows), highs.len() as int),
{
    if highs.len() > 0 {
        lemma_merge_state_bars(highs, lows, highs.len());
    }
}

proof fn lemma_fractals_upto_sorted(merged: Seq<MergedCandle>, n: int, k: nat)
    requires
        bars_in_order(merged, n),
        k + 2 <= merged.len(),
    ensures
        strictly_sorted_by_bar(fractals_upto(merged, k)),
        k >= 1 ==> forall|j: int|
            0 <= j < fractals_upto(merged, k).len() ==> #[trigger] fractals_upto(merged, k)[j].bar_index
                <= last_bar(merged[k as int]),
        k == 0 ==> fractals_upto(merged, k).len() == 0,
    decreases k,
{
    if k > 0 {
        let k1 = (k - 1) as nat;
        lemma_fractals_upto_sorted(merged, n, k1);
        let s = fractals_upto(merged, k1);
        let s2 = fractals_upto(merged, k);
        if k1 >= 1 {
            assert(last_bar(merged[k1 as int]) < first_bar(merged[k as int]));
        }
        match fractal_at(merged, k - 1) {
            Some(f) => {
                assert(s2 == s.push(f));
                assert(first_bar(merged[k as int]) <= f.bar_index <= last_bar(merged[k as int]));
                assert forall|a: int, b: int| 0 <= a < b < s2.len() implies #[trigger] s2[a].bar_index
                    < #[trigger] s2[b].bar_index by {
                    assert(s2[a] == s[a]);
                    if b < s.len() {
                        assert(s2[b] == s[b]);
                    }
                }
                assert forall|j: int| 0 <= j < s2.len() implies #[trigger] s2[j].bar_index <= last_bar(
                    merged[k as int],
                ) by {
                    if j < s.len() {
                        assert(s2[j] == s[j]);
                    }
                }
            },
            None => {
                assert(s2 == s);
            },
        }
    }
}

/// Fractals found on merged candles that cover increasing runs of bars are in strictly
/// increasing bar order.
pub proof fn lemma_fractals_sorted(merged: Seq<MergedCandle>, n: int)
    requires
        bars_in_order(merged, n),
    ensures
        strictly_sorted_by_bar(fractals_spec(merged)),
{
    if merged.len() >= 3 {
        lemma_fractals_upto_sorted(merged, n, (merged.len() - 2) as nat);
    }
}

proof fn lemma_sort_by_bar_identity(s: Seq<Fractal>)
    requires
        sorted_by_bar(s),
    ensures
        sort_by_bar(s) == s,
    decreases s.len(),
{
    if s.len() > 0 {
        let s0 = s.drop_last();
        assert(sorted_by_bar(s0));
        lemma_sort_by_bar_identity(s0);
        if s0.len() > 0 {
            assert(s0.last() == s[s.len() - 2]);
        } else {
            assert(seq![s.last()] =~= s);
        }
        assert(s0.push(s.last()) =~= s);
    }
}

proof fn lemma_filter_fold_sorted(s: Seq<Fractal>, k: nat)
    requires
        strictly_sorted_by_bar(s),
        1 <= k <= s.len(),
    ensures
        strictly_sorted_by_bar(filter_fold(s, k)),
        filter_fold(s, k).len() >= 1,
        filter_fold(s, k).last().bar_index <= s[k - 1].bar_index,
    decreases k,
{
    if k == 1 {
        assert(filter_fold(s, k) =~= seq![s[0]]);
    } else {
        let k1 = (k - 1) as nat;
        lemma_filter_fold_sorted(s, k1);
        let c = filter_fold(s, k1);
        let c2 = filter_fold(s, k);
        let curr = s[k - 1];
        assert(s[k - 2].bar_index < curr.bar_index);
        assert(c.last() == c[c.len() - 1]);
        if c2.len() == c.len() + 1 {
            assert(c2 == c.push(curr));
        }
        assert forall|a: int, b: int| 0 <= a < b < c2.len() implies #[trigger] c2[a].bar_index
            < #[trigger] c2[b].bar_index by {
            if b < c.len() - 1 {
                assert(c2[a] == c[a] && c2[b] == c[b]);
            } else if b == c.len() - 1 {
                assert(c2[a] == c[a]);
                if c.len() >= 2 && a <= c.len() - 2 {
                    assert(c[a].bar_index <= c[c.len() - 2].bar_index);
                }
            } else {
                assert(c2[a] == c[a]);
            }
        }
    }
}

/// Law: the filtered fractals of a bar series are in strictly increasing bar order.
pub proof fn lemma_filtered_in_time_order(highs: Seq<i64>, lows: Seq<i64>)
    requires
        highs.len() <= usize::MAX,
    ensures
        strictly_sorted_by_bar(filter_fractals_spec(fractals_spec(merged_candles_spec(highs, lows)))),
{
    let merged = merged_candles_spec(highs, lows);
    lemma_merged_bars_in_order(highs, lows);
    lemma_fractals_sorted(merged, highs.len() as int);
    let pts = fractals_spec(merged);
    if pts.len() > 0 {
        assert(sorted_by_bar(pts)) by {
            assert forall|a: int, b: int| 0 <= a <= b < pts.len() implies #[trigger] pts[a].bar_index
                <= #[trigger] pts[b].bar_index by {
                if a < b {
                    assert(pts[a].bar_index < pts[b].bar_index);
                }
            }
        }
        lemma_sort_by_bar_identity(pts);
        lemma_filter_fold_sorted(pts, pts.len());
    }
}

// ===== Where fractals sit =====

/// Every merged candle takes its high from bar `high_bar_index` and its low from bar
/// `low_bar_index`, both among the first `n` bars.
pub open spec fn extremes_from_bars(m: Seq<MergedCandle>, highs: Seq<i64>, lows: Seq<i64>, n: int) -> bool {
    forall|k: int|
        0 <= k < m.len() ==> {
            &&& (#[trigger] m[k]).high_bar_index < n
            &&& m[k].low_bar_index < n
            &&& highs[m[k].high_bar_index as int] == m[k].high
            &&& lows[m[k].low_bar_index as int] == m[k].low
        }
}

proof fn lemma_merge_state_extremes(highs: Seq<i64>, lows: Seq<i64>, n: nat)
    requires
        1 <= n <= usize::MAX,
    ensures
        extremes_from_bars(merge_state(highs, lows, n).0, highs, lows, n as int),
    decreases n,
{
    if n > 1 {
        lemma_merge_state_extremes(highs, lows, (n - 1) as nat);
        lemma_merge_state_inv(highs, lows, (n - 1) as nat);
        let (m, t) = merge_state(highs, lows, (n - 1) as nat);
        let m2 = merge_state(highs, lows, n).0;
        let i = (n - 1) as usize;
        assert(i as int == n - 1);
        assert(m2 == merge_step(m, t, highs[n - 1], lows[n - 1], i).0);
        assert(m.last() == m[m.len() - 1]);
        assert forall|k: int| 0 <= k < m2.len() implies {
            &&& (#[trigger] m2[k]).high_bar_index < n
            &&& m2[k].low_bar_index < n
            &&& highs[m2[k].high_bar_index as int] == m2[k].high
            &&& lows[m2[k].low_bar_index as int] == m2[k].low
        } by {
            if k < m.len() - 1 || (k == m.len() - 1 && m2.len() > m.len()) {
                assert(m2[k] == m[k]);
            }
        }
    } else {
        let m = merge_state(highs, lows, n).0;
        assert(m[0].high_bar_index == 0 && m[0].low_bar_index == 0);
    }
}

/// `f` is the fractal of merged candle `f.merged_index`: a top takes that candle's high
/// and the bar it came from and stands strictly above both neighbours; a bottom takes its
/// low and the bar it came from and stands strictly below both neighbours.
pub open spec fn fractal_on_candle(merged: Seq<MergedCandle>, f: Fractal) -> bool {
    let mi = f.merged_index as int;
    let c = merged[mi];
    &&& 1 <= mi < merged.len() - 1
    &&& f.time == f.bar_index
    &&& f.is_top ==> {
        &&& f.price == c.high
        &&& f.bar_index == c.high_bar_index
        &&& c.high > merged[mi - 1].high
        &&& c.high > merged[mi + 1].high
    }
    &&& !f.is_top ==> {
        &&& f.price == c.low
        &&& f.bar_index == c.low_bar_index
        &&& c.low < merged[mi - 1].low
        &&& c.low < merged[mi + 1].low
    }
}

proof fn lemma_fractals_upto_on_candle(merged: Seq<MergedCandle>, k: nat)
    requires
        k + 2 <= merged.len() <= usize::MAX,
    ensures
        forall|j: int|
            0 <= j < fractals_upto(merged, k).len() ==> fractal_on_candle(
                merged,
                #[trigger] fractals_upto(merged, k)[j],
            ),
    decreases k,
{
    if k > 0 {
        let k1 = (k - 1) as nat;
        lemma_fractals_upto_on_candle(merged, k1);
        let s = fractals_upto(merged, k1);
        let s2 = fractals_upto(merged, k);
        match fractal_at(merged, k - 1) {
            Some(f) => {
                assert(s2 == s.push(f));
                assert(f.merged_index as int == k);
                assert(fractal_on_candle(merged, f));
                assert forall|j: int| 0 <= j < s2.len() implies fractal_on_candle(merged, #[trigger] s2[j]) by {
                    if j < s.len() {
                        assert(s2[j] == s[j]);
                    }
                }
            },
            None => {
                assert(s2 == s);
            },
        }
    }
}

/// Law: every fractal of a bar series sits on a merged candle that is a strict local
/// extreme, and is dated at the bar that made its price: a top at a bar whose high is the
/// top's price, a bottom at a bar whose low is the bottom's price.
pub proof fn lemma_fractals_mark_their_bars(highs: Seq<i64>, lows: Seq<i64>)
    requires
        highs.len() <= usize::MAX,
    ensures
        ({
            let merged = merged_candles_spec(highs, lows);
            let fs = fractals_spec(merged);
            forall|j: int|
                0 <= j < fs.len() ==> {
                    &&& fractal_on_candle(merged, #[trigger] fs[j])
                    &&& fs[j].bar_index < highs.len()
                    &&& fs[j].is_top ==> highs[fs[j].bar_index as int] == fs[j].price
                    &&& !fs[j].is_top ==> lows[fs[j].bar_index as int] == fs[j].price
                }
        }),
{
    let merged = merged_candles_spec(highs, lows);
    let fs = fractals_spec(merged);
    lemma_merged_no_inclusion(highs, lows);
    if highs.len() > 0 {
        lemma_merge_state_extremes(highs, lows, highs.len());
    }
    if merged.len() >= 3 {
        lemma_fractals_upto_on_candle(merged, (merged.len() - 2) as nat);
        assert forall|j: int| 0 <= j < fs.len() implies {
            &&& fractal_on_candle(merged, #[trigger] fs[j])
            &&& fs[j].bar_index < highs.len()
            &&& fs[j].is_top ==> highs[fs[j].bar_index as int] == fs[j].price
            &&& !fs[j].is_top ==> lows[fs[j].bar_index as int] == fs[j].price
        } by {
            let c = merged[fs[j].merged_index as int];
            assert(extremes_from_bars(merged, highs, lows, highs.len() as int));
            assert(c.high_bar_index < highs.len());
        }
    }
}

/// Merged candle `mi` stands strictly above (top) or below (bottom) both neighbours.
pub open spec fn local_extreme(merged: Seq<MergedCandle>, mi: int, top: bool) -> bool {
    let c = merged[mi];
    let a = merged[mi - 1];
    let b = merged[mi + 1];
    &&& 1 <= mi < merged.len() - 1
    &&& if top {
        c.high > a.high && c.high > b.high && c.low > a.low && c.low > b.low
    } else {
        c.low < a.low && c.low < b.low && c.high < a.high && c.high < b.high
    }
}

/// Some fractal of `fs` of direction `top` sits on merged candle `mi`.
pub open spec fn fractal_found(fs: Seq<Fractal>, mi: int, top: bool) -> bool {
    exists|j: int| 0 <= j < fs.len() && (#[trigger] fs[j]).merged_index == mi && fs[j].is_top == top
}

proof fn lemma_fractals_upto_complete(merged: Seq<MergedCandle>, k: nat)
    requires
        k + 2 <= merged.len() <= usize::MAX,
    ensures
        forall|mi: int, top: bool|
            #[trigger] local_extreme(merged, mi, top) && mi <= k ==> fractal_found(
                fractals_upto(merged, k),
                mi,
                top,
            ),
    decreases k,
{
    if k > 0 {
        let k1 = (k - 1) as nat;
        lemma_fractals_upto_complete(merged, k1);
        let s = fractals_upto(merged, k1);
        let s2 = fractals_upto(merged, k);
        assert forall|mi: int, top: bool| #[trigger] local_extreme(merged, mi, top) && mi <= k implies fractal_found(
            s2,
            mi,
            top,
        ) by {
            if mi < k {
                assert(fractal_found(s, mi, top));
                let j = choose|j: int| 0 <= j < s.len() && (#[trigger] s[j]).merged_index == mi && s[j].is_top == top;
                match fractal_at(merged, k - 1) {
                    Some(f) => {
                        assert(s2 == s.push(f));
                        assert(s2[j] == s[j]);
                    },
                    None => {},
                }
            } else {
                match fractal_at(merged, k - 1) {
                    Some(f) => {
                        assert(s2 == s.push(f));
                        assert(s2[s.len() as int] == f);
                        assert(f.merged_index as int == k);
                    },
                    None => {},
                }
            }
        }
    }
}

/// Law: every merged candle that stands strictly above both neighbours (highs and lows)
/// gives a top fractal, and every one strictly below both gives a bottom fractal.
pub proof fn lemma_fractals_complete(merged: Seq<MergedCandle>)
    requires
        merged.len() <= usize::MAX,
    ensures
        forall|mi: int, top: bool|
            #[trigger] local_extreme(merged, mi, top) ==> fractal_found(fractals_spec(merged), mi, top),
{
    if merged.len() >= 3 {
        lemma_fractals_upto_complete(merged, (merged.len() - 2) as nat);
    }
}

} // verus!
