use vstd::prelude::*;

use crate::candles::alternating;
use crate::candles::max_i64;
use crate::candles::min_i64;
use crate::candles::strictly_sorted_by_bar;
use crate::types::Fractal;

verus! {

/// An optional index read as a mathematical integer.
pub open spec fn oi(o: Option<usize>) -> Option<int> {
    match o {
        Some(x) => Some(x as int),
        None => None,
    }
}

pub open spec fn abs_diff(a: usize, b: usize) -> int {
    if a > b {
        a - b
    } else {
        b - a
    }
}

fn abs_diff_exec(a: usize, b: usize) -> (r: usize)
    ensures
        r == abs_diff(a, b),
{
    if a > b {
        a - b
    } else {
        b - a
    }
}

// ===== C1: interference between the two candidate end points =====

/// Fractal `f` breaks the candidate stroke `last -> current`.
pub open spec fn interferes(f: Fractal, last: Fractal, current: Fractal) -> bool {
    if last.is_top && !current.is_top {
        (!f.is_top && f.price < current.price) || (f.is_top && f.price > last.price)
    } else if !last.is_top && current.is_top {
        (f.is_top && f.price > current.price) || (!f.is_top && f.price < last.price)
    } else {
        false
    }
}

/// Scans `vf[j-1], vf[j-2], ...` back to the first fractal earlier than `last`;
/// true when none of them interferes.
pub open spec fn anchor_valid_scan(vf: Seq<Fractal>, j: int, last: Fractal, current: Fractal) -> bool
    decreases j,
{
    if j <= 0 || j > vf.len() {
        true
    } else if vf[j - 1].time < last.time {
        true
    } else if interferes(vf[j - 1], last, current) {
        false
    } else {
        anchor_valid_scan(vf, j - 1, last, current)
    }
}

fn check_anchor_valid(valid_fractals: &[Fractal], i: usize, last: Fractal, current: Fractal) -> (r:
    bool)
    requires
        i <= valid_fractals.len(),
    ensures
        r == anchor_valid_scan(valid_fractals@, i as int, last, current),
{
    let mut j: usize = i;
    while j > 0
        invariant
            j <= i <= valid_fractals.len(),
            anchor_valid_scan(valid_fractals@, i as int, last, current) == anchor_valid_scan(
                valid_fractals@,
                j as int,
                last,
                current,
            ),
        decreases j,
    {
        let f = valid_fractals[j - 1];
        if f.time < last.time {
            return true;
        }
        if last.is_top && !current.is_top {
            if !f.is_top && f.price <= current.price && f.price != current.price {
                return false;
            }
            if f.is_top && f.price >= last.price && f.price != last.price {
                return false;
            }
        } else if !last.is_top && current.is_top {
            if f.is_top && f.price >= current.price && f.price != current.price {
                return false;
            }
            if !f.is_top && f.price <= last.price && f.price != last.price {
                return false;
            }
        }
        j = j - 1;
    }
    true
}

// ===== C2: consecutive new highs / new lows =====

/// Up stroke case 2: from fractal `i` on, the first bottom->top pair whose top exceeds the
/// previous pair's top, before any bottom falls to `first_low`.
pub open spec fn up_stroke_case2_scan(arr: Seq<Fractal>, i: int, first_low: i64, prev_high: i64) -> Option<
    int,
>
    decreases arr.len() - i,
{
    if i < 1 || i >= arr.len() {
        None
    } else if !arr[i - 1].is_top && arr[i].is_top {
        if arr[i - 1].price <= first_low {
            None
        } else if arr[i].price > prev_high {
            Some(i)
        } else {
            up_stroke_case2_scan(arr, i + 1, first_low, arr[i].price)
        }
    } else {
        up_stroke_case2_scan(arr, i + 1, first_low, prev_high)
    }
}

/// Mirror of [`up_stroke_case2_scan`] for down strokes.
pub open spec fn down_stroke_case2_scan(arr: Seq<Fractal>, i: int, first_high: i64, prev_low: i64) -> Option<
    int,
>
    decreases arr.len() - i,
{
    if i < 1 || i >= arr.len() {
        None
    } else if arr[i - 1].is_top && !arr[i].is_top {
        if arr[i - 1].price >= first_high {
            None
        } else if arr[i].price < prev_low {
            Some(i)
        } else {
            down_stroke_case2_scan(arr, i + 1, first_high, arr[i].price)
        }
    } else {
        down_stroke_case2_scan(arr, i + 1, first_high, prev_low)
    }
}

proof fn lemma_up_stroke_case2_scan(arr: Seq<Fractal>, i: int, first_low: i64, prev_high: i64)
    ensures
        up_stroke_case2_scan(arr, i, first_low, prev_high) matches Some(e) ==> i <= e < arr.len()
            && arr[e].is_top,
    decreases arr.len() - i,
{
    if i >= 1 && i < arr.len() {
        if !arr[i - 1].is_top && arr[i].is_top {
            lemma_up_stroke_case2_scan(arr, i + 1, first_low, arr[i].price);
        } else {
            lemma_up_stroke_case2_scan(arr, i + 1, first_low, prev_high);
        }
    }
}

proof fn lemma_down_stroke_case2_scan(arr: Seq<Fractal>, i: int, first_high: i64, prev_low: i64)
    ensures
        down_stroke_case2_scan(arr, i, first_high, prev_low) matches Some(e) ==> i <= e < arr.len()
            && !arr[e].is_top,
    decreases arr.len() - i,
{
    if i >= 1 && i < arr.len() {
        if arr[i - 1].is_top && !arr[i].is_top {
            lemma_down_stroke_case2_scan(arr, i + 1, first_high, arr[i].price);
        } else {
            lemma_down_stroke_case2_scan(arr, i + 1, first_high, prev_low);
        }
    }
}

fn check_up_stroke_case2(fractal_arr: &[Fractal], start_idx: usize, first_low: i64, prev_high: i64) -> (r:
    Option<usize>)
    ensures
        oi(r) == up_stroke_case2_scan(fractal_arr@, start_idx + 1, first_low, prev_high),
{
    let count = fractal_arr.len();
    if start_idx >= count || start_idx + 1 >= count {
        return None;
    }
    let mut ph = prev_high;
    let mut i: usize = start_idx + 1;
    while i < count
        invariant
            count == fractal_arr.len(),
            1 <= i <= count,
            up_stroke_case2_scan(fractal_arr@, start_idx + 1, first_low, prev_high)
                == up_stroke_case2_scan(fractal_arr@, i as int, first_low, ph),
        decreases count - i,
    {
        if !fractal_arr[i - 1].is_top && fractal_arr[i].is_top {
            let current_low = fractal_arr[i - 1].price;
            let current_high = fractal_arr[i].price;
            if current_low <= first_low {
                return None;
            }
            if current_high > ph {
                return Some(i);
            }
            ph = current_high;
        }
        i = i + 1;
    }
    None
}

fn check_down_stroke_case2(fractal_arr: &[Fractal], start_idx: usize, first_high: i64, prev_low: i64) -> (r:
    Option<usize>)
    ensures
        oi(r) == down_stroke_case2_scan(fractal_arr@, start_idx + 1, first_high, prev_low),
{
    let count = fractal_arr.len();
    if start_idx >= count || start_idx + 1 >= count {
        return None;
    }
    let mut pl = prev_low;
    let mut i: usize = start_idx + 1;
    while i < count
        invariant
            count == fractal_arr.len(),
            1 <= i <= count,
            down_stroke_case2_scan(fractal_arr@, start_idx + 1, first_high, prev_low)
                == down_stroke_case2_scan(fractal_arr@, i as int, first_high, pl),
        decreases count - i,
    {
        if fractal_arr[i - 1].is_top && !fractal_arr[i].is_top {
            let current_high = fractal_arr[i - 1].price;
            let current_low = fractal_arr[i].price;
            if current_high >= first_high {
                return None;
            }
            if current_low < pl {
                return Some(i);
            }
            pl = current_low;
        }
        i = i + 1;
    }
    None
}

// ===== C4: post-hoc promotion when two closed virtual strokes follow =====

/// Closing down pass: pairs (top t, bottom t+1) stepping by two from `t`, first bottom
/// below the previous bottom before any top reaches `first_high`.
pub open spec fn down_close_scan(v: Seq<Fractal>, first_high: i64, prev_low: i64, t: int) -> Option<
    int,
>
    decreases v.len() - t,
{
    if t < 0 || t + 1 >= v.len() {
        None
    } else if v[t].is_top {
        if v[t].price >= first_high {
            None
        } else if v[t + 1].price < prev_low {
            Some(t)
        } else {
            down_close_scan(v, first_high, v[t + 1].price, t + 2)
        }
    } else {
        down_close_scan(v, first_high, prev_low, t + 2)
    }
}

/// Closing up pass: pairs (bottom t, top t+1) stepping by two from `t`, first top above
/// the previous top before any bottom falls to `first_low`.
pub open spec fn up_close_scan(v: Seq<Fractal>, first_low: i64, prev_high: i64, t: int) -> Option<
    int,
>
    decreases v.len() - t,
{
    if t < 0 || t + 1 >= v.len() {
        None
    } else if !v[t].is_top {
        if v[t].price <= first_low {
            None
        } else if v[t + 1].price > prev_high {
            Some(t)
        } else {
            up_close_scan(v, first_low, v[t + 1].price, t + 2)
        }
    } else {
        up_close_scan(v, first_low, prev_high, t + 2)
    }
}

proof fn lemma_down_close_scan(v: Seq<Fractal>, first_high: i64, prev_low: i64, t: int)
    ensures
        down_close_scan(v, first_high, prev_low, t) matches Some(e) ==> t <= e && e + 1 < v.len(),
    decreases v.len() - t,
{
    if t >= 0 && t + 1 < v.len() {
        if v[t].is_top {
            lemma_down_close_scan(v, first_high, v[t + 1].price, t + 2);
        } else {
            lemma_down_close_scan(v, first_high, prev_low, t + 2);
        }
    }
}

proof fn lemma_up_close_scan(v: Seq<Fractal>, first_low: i64, prev_high: i64, t: int)
    ensures
        up_close_scan(v, first_low, prev_high, t) matches Some(e) ==> t <= e && e + 1 < v.len(),
    decreases v.len() - t,
{
    if t >= 0 && t + 1 < v.len() {
        if !v[t].is_top {
            lemma_up_close_scan(v, first_low, v[t + 1].price, t + 2);
        } else {
            lemma_up_close_scan(v, first_low, prev_high, t + 2);
        }
    }
}

/// Search for an up candidate's two closed virtual strokes: first a closing down pass,
/// then (scanning on after it) a closing up pass; yields (up pass start, up pass close).
pub open spec fn up_c4_search(v: Seq<Fractal>, k: int, down_found: bool) -> Option<(int, int)>
    decreases v.len() - k,
    via up_c4_search_decreases
{
    if k < 0 || k + 1 >= v.len() {
        None
    } else if !down_found {
        if v[k].is_top {
            match down_close_scan(v, v[k].price, v[k + 1].price, k + 2) {
                Some(t) => up_c4_search(v, t + 1, true),
                None => up_c4_search(v, k + 1, false),
            }
        } else {
            up_c4_search(v, k + 1, false)
        }
    } else if !v[k].is_top {
        match up_close_scan(v, v[k].price, v[k + 1].price, k + 2) {
            Some(t) => Some((k, t)),
            None => up_c4_search(v, k + 1, true),
        }
    } else {
        up_c4_search(v, k + 1, true)
    }
}

#[via_fn]
proof fn up_c4_search_decreases(v: Seq<Fractal>, k: int, down_found: bool) {
    if k >= 0 && k + 1 < v.len() && !down_found && v[k].is_top {
        lemma_down_close_scan(v, v[k].price, v[k + 1].price, k + 2);
    }
}

/// Mirror of [`up_c4_search`]: a closing up pass, then a closing down pass;
/// yields (down pass start, down pass close).
pub open spec fn down_c4_search(v: Seq<Fractal>, k: int, up_found: bool) -> Option<(int, int)>
    decreases v.len() - k,
    via down_c4_search_decreases
{
    if k < 0 || k + 1 >= v.len() {
        None
    } else if !up_found {
        if !v[k].is_top {
            match up_close_scan(v, v[k].price, v[k + 1].price, k + 2) {
                Some(t) => down_c4_search(v, t + 1, true),
                None => down_c4_search(v, k + 1, false),
            }
        } else {
            down_c4_search(v, k + 1, false)
        }
    } else if v[k].is_top {
        match down_close_scan(v, v[k].price, v[k + 1].price, k + 2) {
            Some(t) => Some((k, t)),
            None => down_c4_search(v, k + 1, true),
        }
    } else {
        down_c4_search(v, k + 1, true)
    }
}

#[via_fn]
proof fn down_c4_search_decreases(v: Seq<Fractal>, k: int, up_found: bool) {
    if k >= 0 && k + 1 < v.len() && !up_found && !v[k].is_top {
        lemma_up_close_scan(v, v[k].price, v[k + 1].price, k + 2);
    }
}

/// Lowest bottom of the down virtual strokes starting in `[j, stop)`, seeded with `acc`.
pub open spec fn window_low(v: Seq<Fractal>, j: int, stop: int, acc: i64) -> i64
    decreases v.len() - j,
{
    if j < 0 || j >= stop || j + 1 >= v.len() {
        acc
    } else {
        window_low(
            v,
            j + 1,
            stop,
            if v[j].is_top {
                min_i64(acc, v[j + 1].price)
            } else {
                acc
            },
        )
    }
}

/// Highest top of the up virtual strokes starting in `[j, stop)`, seeded with `acc`.
pub open spec fn window_high(v: Seq<Fractal>, j: int, stop: int, acc: i64) -> i64
    decreases v.len() - j,
{
    if j < 0 || j >= stop || j + 1 >= v.len() {
        acc
    } else {
        window_high(
            v,
            j + 1,
            stop,
            if !v[j].is_top {
                max_i64(acc, v[j + 1].price)
            } else {
                acc
            },
        )
    }
}

/// Up candidate `(low_a -> high_a)` ending at fractal `i` is promoted when the following
/// fractals already form a closed down pass and a closed up pass that stay inside it.
pub open spec fn up_stroke_case4_spec(v: Seq<Fractal>, i: int, low_a: i64, high_a: i64) -> bool {
    if i + 2 >= v.len() || i < 0 {
        false
    } else {
        match up_c4_search(v, i, false) {
            None => false,
            Some((up_start, up_end)) => window_low(v, i + 1, up_start, v[i + 1].price) > low_a
                && window_high(v, i + 1, up_end + 1, v[i + 1].price) <= high_a,
        }
    }
}

/// Mirror of [`up_stroke_case4_spec`] for a down candidate `(high_a -> low_a)`.
pub open spec fn down_stroke_case4_spec(v: Seq<Fractal>, i: int, high_a: i64, low_a: i64) -> bool {
    if i + 2 >= v.len() || i < 0 {
        false
    } else {
        match down_c4_search(v, i, false) {
            None => false,
            Some((down_start, down_end)) => window_high(v, i + 1, down_start, v[i + 1].price)
                < high_a && window_low(v, i + 1, down_end + 1, v[i + 1].price) >= low_a,
        }
    }
}

fn down_close(v: &[Fractal], first_high: i64, prev_low: i64, start: usize) -> (r: Option<usize>)
    ensures
        oi(r) == down_close_scan(v@, first_high, prev_low, start as int),
{
    let n = v.len();
    let mut t = start;
    let mut pl = prev_low;
        while t < n && t + 1 < n
        invariant
            n == v.len(),
            down_close_scan(v@, first_high, prev_low, start as int) == down_close_scan(
                v@,
                first_high,
                pl,
                t as int,
            ),
        decreases n - t,
    {
        if v[t].is_top {
            if v[t].price >= first_high {
                return None;
            }
            if v[t + 1].price < pl {
                return Some(t);
            }
            pl = v[t + 1].price;
        }
        t = t + 2;
    }
    None
}

fn up_close(v: &[Fractal], first_low: i64, prev_high: i64, start: usize) -> (r: Option<usize>)
    ensures
        oi(r) == up_close_scan(v@, first_low, prev_high, start as int),
{
    let n = v.len();
    let mut t = start;
    let mut ph = prev_high;
        while t < n && t + 1 < n
        invariant
            n == v.len(),
            up_close_scan(v@, first_low, prev_high, start as int) == up_close_scan(
                v@,
                first_low,
                ph,
                t as int,
            ),
        decreases n - t,
    {
        if !v[t].is_top {
            if v[t].price <= first_low {
                return None;
            }
            if v[t + 1].price > ph {
                return Some(t);
            }
            ph = v[t + 1].price;
        }
        t = t + 2;
    }
    None
}

fn window_low_exec(v: &[Fractal], j: usize, stop: usize, acc: i64) -> (r: i64)
    ensures
        r == window_low(v@, j as int, stop as int, acc),
{
    let n = v.len();
    let mut j = j;
    let mut acc2 = acc;
    let ghost j0 = j;
    while j < stop && j < n && j + 1 < n
        invariant
            n == v.len(),
            window_low(v@, j0 as int, stop as int, acc) == window_low(
                v@,
                j as int,
                stop as int,
                acc2,
            ),
        decreases n - j,
    {
        if v[j].is_top {
            let p = v[j + 1].price;
            acc2 = if acc2 <= p {
                acc2
            } else {
                p
            };
        }
        j = j + 1;
    }
    acc2
}

fn window_high_exec(v: &[Fractal], j: usize, stop: usize, acc: i64) -> (r: i64)
    ensures
        r == window_high(v@, j as int, stop as int, acc),
{
    let n = v.len();
    let mut j = j;
    let mut acc2 = acc;
    let ghost j0 = j;
    while j < stop && j < n && j + 1 < n
        invariant
            n == v.len(),
            window_high(v@, j0 as int, stop as int, acc) == window_high(
                v@,
                j as int,
                stop as int,
                acc2,
            ),
        decreases n - j,
    {
        if !v[j].is_top {
            let p = v[j + 1].price;
            acc2 = if acc2 >= p {
                acc2
            } else {
                p
            };
        }
        j = j + 1;
    }
    acc2
}

pub open spec fn oip(o: Option<(usize, usize)>) -> Option<(int, int)> {
    match o {
        Some((a, b)) => Some((a as int, b as int)),
        None => None,
    }
}

fn up_c4_search_exec(valid: &[Fractal], i: usize) -> (found: Option<(usize, usize)>)
    ensures
        oip(found) == up_c4_search(valid@, i as int, false),
{
    let n = valid.len();
    let mut down_found = false;
    let mut k: usize = i;
    let mut found: Option<(usize, usize)> = None;
    while k < n && k + 1 < n
        invariant_except_break
            found is None,
        invariant
            n == valid.len(),
            up_c4_search(valid@, i as int, false) == up_c4_search(valid@, k as int, down_found),
        ensures
            oip(found) == up_c4_search(valid@, i as int, false),
        decreases n - k,
    {
        if !down_found {
            if valid[k].is_top {
                let c = down_close(valid, valid[k].price, valid[k + 1].price, k + 2);
                match c {
                    Some(t) => {
                        proof {
                            lemma_down_close_scan(
                                valid@,
                                valid[k as int].price,
                                valid[k + 1].price,
                                k + 2,
                            );
                        }
                        down_found = true;
                        k = t;
                    },
                    None => {},
                }
            }
        } else if !valid[k].is_top {
            let c = up_close(valid, valid[k].price, valid[k + 1].price, k + 2);
            match c {
                Some(t) => {
                    found = Some((k, t));
                    break ;
                },
                None => {},
            }
        }
        k = k + 1;
    }
    found
}

fn down_c4_search_exec(valid: &[Fractal], i: usize) -> (found: Option<(usize, usize)>)
    ensures
        oip(found) == down_c4_search(valid@, i as int, false),
{
    let n = valid.len();
    let mut up_found = false;
    let mut k: usize = i;
    let mut found: Option<(usize, usize)> = None;
    while k < n && k + 1 < n
        invariant_except_break
            found is None,
        invariant
            n == valid.len(),
            down_c4_search(valid@, i as int, false) == down_c4_search(valid@, k as int, up_found),
        ensures
            oip(found) == down_c4_search(valid@, i as int, false),
        decreases n - k,
    {
        if !up_found {
            if !valid[k].is_top {
                let c = up_close(valid, valid[k].price, valid[k + 1].price, k + 2);
                match c {
                    Some(t) => {
                        proof {
                            lemma_up_close_scan(
                                valid@,
                                valid[k as int].price,
                                valid[k + 1].price,
                                k + 2,
                            );
                        }
                        up_found = true;
                        k = t;
                    },
                    None => {},
                }
            }
        } else if valid[k].is_top {
            let c = down_close(valid, valid[k].price, valid[k + 1].price, k + 2);
            match c {
                Some(t) => {
                    found = Some((k, t));
                    break ;
                },
                None => {},
            }
        }
        k = k + 1;
    }
    found
}

/// Up stroke case 4 (post-hoc promotion) for the candidate ending at fractal `i`.
pub fn check_up_stroke_case4(valid: &[Fractal], i: usize, low_a: i64, high_a: i64) -> (r: bool)
    ensures
        r == up_stroke_case4_spec(valid@, i as int, low_a, high_a),
{
    let n = valid.len();
    if i >= n || n - i <= 2 {
        return false;
    }
    match up_c4_search_exec(valid, i) {
        None => false,
        Some((up_start, up_end)) => {
            let real_low = window_low_exec(valid, i + 1, up_start, valid[i + 1].price);
            if real_low <= low_a {
                return false;
            }
            if up_end >= n {
                proof {
                    assert(window_high(valid@, i + 1, up_end + 1, valid[i + 1].price)
                        == window_high(valid@, i + 1, n as int, valid[i + 1].price)) by {
                        lemma_window_high_stop(valid@, i + 1, up_end + 1, valid[i + 1].price);
                    }
                }
            }
            let stop = if up_end >= n { n } else { up_end + 1 };
            let real_high = window_high_exec(valid, i + 1, stop, valid[i + 1].price);
            if real_high > high_a {
                return false;
            }
            true
        },
    }
}

/// Down stroke case 4 (post-hoc promotion) for the candidate ending at fractal `i`.
pub fn check_down_stroke_case4(valid: &[Fractal], i: usize, high_a: i64, low_a: i64) -> (r: bool)
    ensures
        r == down_stroke_case4_spec(valid@, i as int, high_a, low_a),
{
    let n = valid.len();
    if i >= n || n - i <= 2 {
        return false;
    }
    match down_c4_search_exec(valid, i) {
        None => false,
        Some((down_start, down_end)) => {
            let real_high = window_high_exec(valid, i + 1, down_start, valid[i + 1].price);
            if real_high >= high_a {
                return false;
            }
            if down_end >= n {
                proof {
                    lemma_window_low_stop(valid@, i + 1, down_end + 1, valid[i + 1].price);
                }
            }
            let stop = if down_end >= n { n } else { down_end + 1 };
            let real_low = window_low_exec(valid, i + 1, stop, valid[i + 1].price);
            if real_low < low_a {
                return false;
            }
            true
        },
    }
}

/// A stop beyond the sequence acts as the sequence end.
proof fn lemma_window_high_stop(v: Seq<Fractal>, j: int, stop: int, acc: i64)
    requires
        stop >= v.len(),
    ensures
        window_high(v, j, stop, acc) == window_high(v, j, v.len() as int, acc),
    decreases v.len() - j,
{
    if j >= 0 && j + 1 < v.len() {
        lemma_window_high_stop(
            v,
            j + 1,
            stop,
            if !v[j].is_top {
                max_i64(acc, v[j + 1].price)
            } else {
                acc
            },
        );
    }
}

proof fn lemma_window_low_stop(v: Seq<Fractal>, j: int, stop: int, acc: i64)
    requires
        stop >= v.len(),
    ensures
        window_low(v, j, stop, acc) == window_low(v, j, v.len() as int, acc),
    decreases v.len() - j,
{
    if j >= 0 && j + 1 < v.len() {
        lemma_window_low_stop(
            v,
            j + 1,
            stop,
            if v[j].is_top {
                min_i64(acc, v[j + 1].price)
            } else {
                acc
            },
        );
    }
}

// ===== Stroke chain construction =====

/// Decision for a candidate stroke `last -> current` (with `current = v[i]`):
/// (accepted, next index to examine, index of the accepted end fractal).
pub open spec fn stroke_decision(
    v: Seq<Fractal>,
    case3_enabled: bool,
    case4_enabled: bool,
    min_bars: usize,
    fin: Seq<Fractal>,
    i: int,
) -> (bool, int, int) {
    let last_idx = fin.len() - 1;
    let last = fin[last_idx];
    let current = v[i];
    let is_up = !last.is_top && current.is_top;
    let is_down = last.is_top && !current.is_top;
    // C1: standard stroke
    let c1 = abs_diff(last.bar_index, current.bar_index) >= min_bars && abs_diff(
        last.merged_index,
        current.merged_index,
    ) > 1 && anchor_valid_scan(v, i, last, current);
    let has_prev = last_idx >= 1;
    let prev = fin[last_idx - 1];
    // C2: consecutive new extremes, with the F1 correction
    let (valid2, next2, end2) = if c1 {
        (true, i + 1, i)
    } else if is_up {
        match up_stroke_case2_scan(v, i + 1, last.price, current.price) {
            Some(e) => if case3_enabled && has_prev && prev.is_top == current.is_top
                && current.price > prev.price && current.price > v[e].price {
                (true, i + 1, i)
            } else {
                (true, e + 1, e)
            },
            None => (false, i + 1, i),
        }
    } else if is_down {
        match down_stroke_case2_scan(v, i + 1, last.price, current.price) {
            Some(e) => if case3_enabled && has_prev && prev.is_top == current.is_top
                && current.price < prev.price && current.price < v[e].price {
                (true, i + 1, i)
            } else {
                (true, e + 1, e)
            },
            None => (false, i + 1, i),
        }
    } else {
        (false, i + 1, i)
    };
    // C3: strong breakout of the fractal before last
    let valid3 = valid2 || (case3_enabled && has_prev && prev.is_top == current.is_top && (
    (is_up && current.price > prev.price) || (is_down && current.price < prev.price)));
    // C4: post-hoc promotion
    let c4 = case4_enabled && !(valid3 && end2 == i) && (if is_up {
        up_stroke_case4_spec(v, i, last.price, current.price)
    } else if is_down {
        down_stroke_case4_spec(v, i, last.price, current.price)
    } else {
        false
    });
    if c4 {
        (true, i + 1, i)
    } else {
        (valid3, next2, end2)
    }
}

/// One step of the chain builder at fractal `i`: (new chain, next index).
pub open spec fn stroke_step(
    v: Seq<Fractal>,
    case3_enabled: bool,
    case4_enabled: bool,
    min_bars: usize,
    fin: Seq<Fractal>,
    i: int,
) -> (Seq<Fractal>, int) {
    let last_idx = fin.len() - 1;
    let last = fin[last_idx];
    let current = v[i];
    if last.is_top == current.is_top {
        let replace = if last.is_top {
            current.price >= last.price
        } else {
            current.price <= last.price
        };
        (
            if replace {
                fin.update(last_idx, current)
            } else {
                fin
            },
            i + 1,
        )
    } else {
        let (valid, next, end) = stroke_decision(
            v,
            case3_enabled,
            case4_enabled,
            min_bars,
            fin,
            i,
        );
        if valid {
            (fin.push(v[end]), next)
        } else {
            (fin, i + 1)
        }
    }
}

/// Runs the chain builder from fractal `i` to the end.
pub open spec fn stroke_run(
    v: Seq<Fractal>,
    case3_enabled: bool,
    case4_enabled: bool,
    min_bars: usize,
    fin: Seq<Fractal>,
    i: int,
) -> Seq<Fractal>
    decreases v.len() - i,
    via stroke_run_decreases
{
    if i < 1 || i >= v.len() || fin.len() == 0 {
        fin
    } else {
        let (fin2, i2) = stroke_step(v, case3_enabled, case4_enabled, min_bars, fin, i);
        stroke_run(v, case3_enabled, case4_enabled, min_bars, fin2, i2)
    }
}

proof fn lemma_stroke_decision(
    v: Seq<Fractal>,
    case3_enabled: bool,
    case4_enabled: bool,
    min_bars: usize,
    fin: Seq<Fractal>,
    i: int,
)
    requires
        1 <= i < v.len(),
        fin.len() >= 1,
        fin.last().is_top != v[i].is_top,
    ensures
        ({
            let (valid, next, end) = stroke_decision(
                v,
                case3_enabled,
                case4_enabled,
                min_bars,
                fin,
                i,
            );
            &&& i < next <= v.len()
            &&& next == end + 1
            &&& i <= end < v.len()
            &&& v[end].is_top == v[i].is_top
        }),
{
    let last = fin[fin.len() - 1];
    let current = v[i];
    if !last.is_top && current.is_top {
        lemma_up_stroke_case2_scan(v, i + 1, last.price, current.price);
    } else {
        lemma_down_stroke_case2_scan(v, i + 1, last.price, current.price);
    }
}

#[via_fn]
proof fn stroke_run_decreases(
    v: Seq<Fractal>,
    case3_enabled: bool,
    case4_enabled: bool,
    min_bars: usize,
    fin: Seq<Fractal>,
    i: int,
) {
    if !(i < 1 || i >= v.len() || fin.len() == 0) {
        if fin[fin.len() - 1].is_top != v[i].is_top {
            lemma_stroke_decision(v, case3_enabled, case4_enabled, min_bars, fin, i);
        }
    }
}

/// First index at or after `j` holding a fractal with `a0`'s bar and merged indices.
pub open spec fn position_of(v: Seq<Fractal>, a0: Fractal, j: int) -> Option<int>
    decreases v.len() - j,
{
    if j < 0 || j >= v.len() {
        None
    } else if v[j].bar_index == a0.bar_index && v[j].merged_index == a0.merged_index {
        Some(j)
    } else {
        position_of(v, a0, j + 1)
    }
}

/// The most extreme fractal of direction `!a0_top` among `v[0..n]` (earliest on ties).
pub open spec fn opposite_extreme(v: Seq<Fractal>, a0_top: bool, n: int) -> Option<Fractal>
    decreases n,
{
    if n <= 0 || n > v.len() {
        None
    } else {
        let prev = opposite_extreme(v, a0_top, n - 1);
        let f = v[n - 1];
        if f.is_top != a0_top {
            let better = match prev {
                None => true,
                Some(cur) => if f.is_top {
                    f.price > cur.price
                } else {
                    f.price < cur.price
                },
            };
            if better {
                Some(f)
            } else {
                prev
            }
        } else {
            prev
        }
    }
}

/// Prepends the opposite extreme from the head's sliding zone when it forms a C1 stroke
/// with the chain head.
pub open spec fn head_insert(v: Seq<Fractal>, fin: Seq<Fractal>, min_bars: usize) -> Seq<Fractal> {
    if fin.len() < 2 {
        fin
    } else {
        let a0 = fin[0];
        match position_of(v, a0, 0) {
            None => fin,
            Some(a0_idx) => match opposite_extreme(v, a0.is_top, a0_idx) {
                None => fin,
                Some(bm) => if abs_diff(a0.bar_index, bm.bar_index) >= min_bars && abs_diff(
                    a0.merged_index,
                    bm.merged_index,
                ) > 1 && anchor_valid_scan(v, a0_idx, bm, a0) {
                    seq![bm] + fin
                } else {
                    fin
                },
            },
        }
    }
}

/// The final stroke end points chosen from the filtered fractals.
pub open spec fn strokes_fractals_spec(
    v: Seq<Fractal>,
    case3_enabled: bool,
    case4_enabled: bool,
    min_bars: usize,
) -> Seq<Fractal> {
    if v.len() < 1 {
        Seq::empty()
    } else {
        head_insert(
            v,
            stroke_run(v, case3_enabled, case4_enabled, min_bars, seq![v[0]], 1),
            min_bars,
        )
    }
}

fn position_of_exec(v: &[Fractal], a0: Fractal) -> (r: Option<usize>)
    ensures
        oi(r) == position_of(v@, a0, 0),
{
    let mut j: usize = 0;
    while j < v.len()
        invariant
            j <= v.len(),
            position_of(v@, a0, 0) == position_of(v@, a0, j as int),
        decreases v.len() - j,
    {
        if v[j].bar_index == a0.bar_index && v[j].merged_index == a0.merged_index {
            return Some(j);
        }
        j = j + 1;
    }
    None
}

fn opposite_extreme_exec(v: &[Fractal], a0_top: bool, n: usize) -> (r: Option<Fractal>)
    requires
        n <= v.len(),
    ensures
        r == opposite_extreme(v@, a0_top, n as int),
{
    let mut bm: Option<Fractal> = None;
    let mut j: usize = 0;
    while j < n
        invariant
            n <= v.len(),
            j <= n,
            bm == opposite_extreme(v@, a0_top, j as int),
        decreases n - j,
    {
        let f = v[j];
        if f.is_top != a0_top {
            let better = match bm {
                None => true,
                Some(cur) => if f.is_top {
                    f.price > cur.price
                } else {
                    f.price < cur.price
                },
            };
            if better {
                bm = Some(f);
            }
        }
        j = j + 1;
    }
    bm
}

/// Builds the stroke chain (end fractals) from filtered fractals; the case 4 promotion is on.
pub fn process_strokes_fractals(valid_fractals: &[Fractal], case3_enabled: bool, min_bars: usize) -> (r:
    Vec<Fractal>)
    ensures
        r@ == strokes_fractals_spec(valid_fractals@, case3_enabled, true, min_bars),
{
    process_strokes_fractals_with_cases(valid_fractals, case3_enabled, true, min_bars)
}

/// Builds the stroke chain with switches for the case 3 breakout (and F1 correction) and
/// the case 4 promotion.
pub fn process_strokes_fractals_with_cases(
    valid_fractals: &[Fractal],
    case3_enabled: bool,
    case4_enabled: bool,
    min_bars: usize,
) -> (final_fractals: Vec<Fractal>)
    ensures
        final_fractals@ == strokes_fractals_spec(
            valid_fractals@,
            case3_enabled,
            case4_enabled,
            min_bars,
        ),
{
    let total = valid_fractals.len();
    let mut final_fractals: Vec<Fractal> = Vec::new();
    if total < 1 {
        return final_fractals;
    }
    final_fractals.push(valid_fractals[0]);
    let ghost v = valid_fractals@;
    let ghost result = stroke_run(v, case3_enabled, case4_enabled, min_bars, seq![v[0]], 1);
    assert(final_fractals@ == seq![v[0]]);
    let mut i: usize = 1;
    while i < total
        invariant
            total == valid_fractals.len(),
            v == valid_fractals@,
            1 <= i <= total,
            final_fractals.len() >= 1,
            result == stroke_run(v, case3_enabled, case4_enabled, min_bars, final_fractals@, i as int),
        decreases total - i,
    {
        let last_idx = final_fractals.len() - 1;
        let last = final_fractals[last_idx];
        let current = valid_fractals[i];
        if last.is_top == current.is_top {
            if last.is_top {
                if current.price >= last.price {
                    final_fractals.set(last_idx, current);
                }
            } else {
                if current.price <= last.price {
                    final_fractals.set(last_idx, current);
                }
            }
            i = i + 1;
        } else {
            let ghost fin = final_fractals@;
            proof {
                lemma_stroke_decision(v, case3_enabled, case4_enabled, min_bars, fin, i as int);
            }
            let bar_diff = abs_diff_exec(last.bar_index, current.bar_index);
            let is_up = !last.is_top && current.is_top;
            let is_down = last.is_top && !current.is_top;
            let mut valid = false;
            let mut next_i = i + 1;
            let mut end_fractal_idx = i;
            // C1
            if bar_diff >= min_bars {
                let merged_index_diff = abs_diff_exec(last.merged_index, current.merged_index);
                if merged_index_diff > 1 {
                    if check_anchor_valid(valid_fractals, i, last, current) {
                        valid = true;
                    }
                }
            }
            // C2 (+ F1)
            if !valid {
                if is_up {
                    let c2 = check_up_stroke_case2(valid_fractals, i, last.price, current.price);
                    proof {
                        lemma_up_stroke_case2_scan(v, i + 1, last.price, current.price);
                    }
                    match c2 {
                        Some(end_idx) => {
                            valid = true;
                            next_i = end_idx + 1;
                            end_fractal_idx = end_idx;
                            if case3_enabled && last_idx >= 1 {
                                let k = last_idx - 1;
                                if final_fractals[k].is_top == current.is_top && current.price
                                    > final_fractals[k].price && current.price
                                    > valid_fractals[end_idx].price {
                                    next_i = i + 1;
                                    end_fractal_idx = i;
                                }
                            }
                        },
                        None => {},
                    }
                } else if is_down {
                    let c2 = check_down_stroke_case2(valid_fractals, i, last.price, current.price);
                    proof {
                        lemma_down_stroke_case2_scan(v, i + 1, last.price, current.price);
                    }
                    match c2 {
                        Some(end_idx) => {
                            valid = true;
                            next_i = end_idx + 1;
                            end_fractal_idx = end_idx;
                            if case3_enabled && last_idx >= 1 {
                                let k = last_idx - 1;
                                if final_fractals[k].is_top == current.is_top && current.price
                                    < final_fractals[k].price && current.price
                                    < valid_fractals[end_idx].price {
                                    next_i = i + 1;
                                    end_fractal_idx = i;
                                }
                            }
                        },
                        None => {},
                    }
                }
            }
            // C3
            if !valid && case3_enabled && last_idx >= 1 {
                let k = last_idx - 1;
                if final_fractals[k].is_top == current.is_top {
                    if is_up && current.price > final_fractals[k].price {
                        valid = true;
                    } else if is_down && current.price < final_fractals[k].price {
                        valid = true;
                    }
                }
            }
            // C4
            if case4_enabled && !(valid && end_fractal_idx == i) {
                let c4_ok = if is_up {
                    check_up_stroke_case4(valid_fractals, i, last.price, current.price)
                } else if is_down {
                    check_down_stroke_case4(valid_fractals, i, last.price, current.price)
                } else {
                    false
                };
                if c4_ok {
                    valid = true;
                    next_i = i + 1;
                    end_fractal_idx = i;
                }
            }
            assert((valid, next_i as int, end_fractal_idx as int) == stroke_decision(
                v,
                case3_enabled,
                case4_enabled,
                min_bars,
                fin,
                i as int,
            ));
            if valid {
                final_fractals.push(valid_fractals[end_fractal_idx]);
                i = next_i;
            } else {
                i = i + 1;
            }
        }
    }
    // Head of the chain: a reverse stroke from the opposite extreme in the sliding zone.
    if final_fractals.len() >= 2 {
        let a0 = final_fractals[0];
        match position_of_exec(valid_fractals, a0) {
            Some(a0_idx) => {
                proof {
                    lemma_position_of_bound(v, a0, 0);
                }
                match opposite_extreme_exec(valid_fractals, a0.is_top, a0_idx) {
                    Some(bm) => {
                        let bar_diff = abs_diff_exec(a0.bar_index, bm.bar_index);
                        if bar_diff >= min_bars {
                            let mdiff = abs_diff_exec(a0.merged_index, bm.merged_index);
                            if mdiff > 1 && check_anchor_valid(valid_fractals, a0_idx, bm, a0) {
                                final_fractals.insert(0, bm);
                                assert(final_fractals@ =~= seq![bm] + result);
                            }
                        }
                    },
                    None => {},
                }
            },
            None => {},
        }
    }
    final_fractals
}

proof fn lemma_position_of_bound(v: Seq<Fractal>, a0: Fractal, j: int)
    ensures
        position_of(v, a0, j) matches Some(p) ==> j <= p < v.len(),
    decreases v.len() - j,
{
    if j >= 0 && j < v.len() {
        lemma_position_of_bound(v, a0, j + 1);
    }
}

/// Every element of `fin` occurs in `v`.
pub open spec fn drawn_from(fin: Seq<Fractal>, v: Seq<Fractal>) -> bool {
    forall|k: int| 0 <= k < fin.len() ==> v.contains(#[trigger] fin[k])
}

proof fn lemma_stroke_run_inv(
    v: Seq<Fractal>,
    case3_enabled: bool,
    case4_enabled: bool,
    min_bars: usize,
    fin: Seq<Fractal>,
    i: int,
)
    requires
        alternating(fin),
        drawn_from(fin, v),
        fin.len() >= 1,
    ensures
        ({
            let r = stroke_run(v, case3_enabled, case4_enabled, min_bars, fin, i);
            alternating(r) && drawn_from(r, v) && r.len() >= 1
        }),
    decreases v.len() - i,
{
    if !(i < 1 || i >= v.len() || fin.len() == 0) {
        let (fin2, i2) = stroke_step(v, case3_enabled, case4_enabled, min_bars, fin, i);
        let last_idx = fin.len() - 1;
        if fin[last_idx].is_top != v[i].is_top {
            lemma_stroke_decision(v, case3_enabled, case4_enabled, min_bars, fin, i);
            let (valid, next, end) = stroke_decision(
                v,
                case3_enabled,
                case4_enabled,
                min_bars,
                fin,
                i,
            );
            if valid {
                assert(fin2 == fin.push(v[end]));
                assert(v.contains(v[end]));
                assert forall|k: int| 0 <= k < fin2.len() - 1 implies #[trigger] fin2[k].is_top
                    != fin2[k + 1].is_top by {
                    if k < fin.len() - 1 {
                        assert(fin2[k] == fin[k] && fin2[k + 1] == fin[k + 1]);
                    }
                }
                assert forall|k: int| 0 <= k < fin2.len() implies v.contains(#[trigger] fin2[k]) by {
                    if k < fin.len() {
                        assert(fin2[k] == fin[k]);
                    }
                }
            }
        } else {
            assert(v.contains(v[i]));
            assert forall|k: int| 0 <= k < fin2.len() - 1 implies #[trigger] fin2[k].is_top
                != fin2[k + 1].is_top by {
                if k < fin.len() - 2 {
                    assert(fin2[k] == fin[k] && fin2[k + 1] == fin[k + 1]);
                }
            }
            assert forall|k: int| 0 <= k < fin2.len() implies v.contains(#[trigger] fin2[k]) by {
                if k < fin.len() - 1 {
                    assert(fin2[k] == fin[k]);
                }
            }
        }
        lemma_stroke_run_inv(v, case3_enabled, case4_enabled, min_bars, fin2, i2);
    }
}

proof fn lemma_opposite_extreme(v: Seq<Fractal>, a0_top: bool, n: int)
    ensures
        opposite_extreme(v, a0_top, n) matches Some(f) ==> v.contains(f) && f.is_top != a0_top,
    decreases n,
{
    if !(n <= 0 || n > v.len()) {
        lemma_opposite_extreme(v, a0_top, n - 1);
        assert(v.contains(v[n - 1]));
    }
}

/// Law: the stroke chain alternates between tops and bottoms, is non-empty for a
/// non-empty input, and every end point is one of the input fractals.
pub proof fn lemma_stroke_chain_alternates(
    v: Seq<Fractal>,
    case3_enabled: bool,
    case4_enabled: bool,
    min_bars: usize,
)
    ensures
        alternating(strokes_fractals_spec(v, case3_enabled, case4_enabled, min_bars)),
        drawn_from(strokes_fractals_spec(v, case3_enabled, case4_enabled, min_bars), v),
        v.len() >= 1 ==> strokes_fractals_spec(v, case3_enabled, case4_enabled, min_bars).len()
            >= 1,
{
    if v.len() >= 1 {
        let fin0 = seq![v[0]];
        assert(v.contains(v[0]));
        assert(drawn_from(fin0, v));
        lemma_stroke_run_inv(v, case3_enabled, case4_enabled, min_bars, fin0, 1);
        let r = stroke_run(v, case3_enabled, case4_enabled, min_bars, fin0, 1);
        if r.len() >= 2 {
            let a0 = r[0];
            match position_of(v, a0, 0) {
                None => {},
                Some(a0_idx) => {
                    lemma_opposite_extreme(v, a0.is_top, a0_idx);
                    match opposite_extreme(v, a0.is_top, a0_idx) {
                        None => {},
                        Some(bm) => {
                            let h = seq![bm] + r;
                            assert forall|k: int| 0 <= k < h.len() - 1 implies #[trigger] h[k].is_top
                                != h[k + 1].is_top by {
                                if k >= 1 {
                                    assert(h[k] == r[k - 1] && h[k + 1] == r[k]);
                                }
                            }
                            assert forall|k: int| 0 <= k < h.len() implies v.contains(#[trigger] h[k]) by {
                                if k >= 1 {
                                    assert(h[k] == r[k - 1]);
                                }
                            }
                        },
                    }
                },
            }
        }
    }
}


proof fn lemma_stroke_run_sorted(
    v: Seq<Fractal>,
    case3_enabled: bool,
    case4_enabled: bool,
    min_bars: usize,
    fin: Seq<Fractal>,
    i: int,
)
    requires
        strictly_sorted_by_bar(v),
        strictly_sorted_by_bar(fin),
        fin.len() >= 1,
        i >= 1,
        0 <= i < v.len() ==> fin.last().bar_index < v[i].bar_index,
    ensures
        strictly_sorted_by_bar(stroke_run(v, case3_enabled, case4_enabled, min_bars, fin, i)),
    decreases v.len() - i,
{
    if i < v.len() {
        let (fin2, i2) = stroke_step(v, case3_enabled, case4_enabled, min_bars, fin, i);
        let last_idx = fin.len() - 1;
        let last = fin[last_idx];
        assert(last == fin.last());
        if last.is_top == v[i].is_top {
            assert(i2 == i + 1);
            if fin2 != fin {
                assert(fin2 == fin.update(last_idx, v[i]));
                assert forall|a: int, b: int| 0 <= a < b < fin2.len() implies #[trigger] fin2[a].bar_index
                    < #[trigger] fin2[b].bar_index by {
                    assert(fin2[a] == fin[a]);
                    if b < last_idx {
                        assert(fin2[b] == fin[b]);
                    } else {
                        assert(fin[a].bar_index <= last.bar_index);
                    }
                }
                assert(fin2.last() == v[i]);
            }
            if i2 < v.len() {
                assert(v[i].bar_index < v[i2].bar_index);
            }
        } else {
            lemma_stroke_decision(v, case3_enabled, case4_enabled, min_bars, fin, i);
            let (valid, next, end) = stroke_decision(
                v,
                case3_enabled,
                case4_enabled,
                min_bars,
                fin,
                i,
            );
            if valid {
                assert(fin2 == fin.push(v[end]));
                assert(i2 == next);
                if end > i {
                    assert(v[i].bar_index < v[end].bar_index);
                }
                assert forall|a: int, b: int| 0 <= a < b < fin2.len() implies #[trigger] fin2[a].bar_index
                    < #[trigger] fin2[b].bar_index by {
                    assert(fin2[a] == fin[a]);
                    if b < fin.len() {
                        assert(fin2[b] == fin[b]);
                    } else {
                        assert(fin[a].bar_index <= last.bar_index);
                    }
                }
                assert(fin2.last() == v[end]);
                if i2 < v.len() {
                    assert(v[end].bar_index < v[i2].bar_index);
                }
            } else {
                assert(fin2 == fin && i2 == i + 1);
                if i2 < v.len() {
                    assert(v[i].bar_index < v[i2].bar_index);
                }
            }
        }
        lemma_stroke_run_sorted(v, case3_enabled, case4_enabled, min_bars, fin2, i2);
    }
}

proof fn lemma_position_of(v: Seq<Fractal>, a0: Fractal, j: int)
    ensures
        position_of(v, a0, j) matches Some(p) ==> 0 <= p < v.len() && v[p].bar_index
            == a0.bar_index,
    decreases v.len() - j,
{
    if !(j < 0 || j >= v.len()) {
        lemma_position_of(v, a0, j + 1);
    }
}

proof fn lemma_opposite_extreme_before(v: Seq<Fractal>, a0_top: bool, n: int)
    ensures
        opposite_extreme(v, a0_top, n) matches Some(f) ==> exists|j: int|
            0 <= j < n && #[trigger] v[j] == f,
    decreases n,
{
    if !(n <= 0 || n > v.len()) {
        lemma_opposite_extreme_before(v, a0_top, n - 1);
        let f = v[n - 1];
        assert(v[n - 1] == f);
    }
}

/// Law: when the filtered fractals are in strictly increasing bar order, so are the
/// stroke end points, and every stroke starts before it ends.
pub proof fn lemma_stroke_chain_in_time_order(
    v: Seq<Fractal>,
    case3_enabled: bool,
    case4_enabled: bool,
    min_bars: usize,
)
    requires
        strictly_sorted_by_bar(v),
    ensures
        strictly_sorted_by_bar(strokes_fractals_spec(v, case3_enabled, case4_enabled, min_bars)),
{
    if v.len() >= 1 {
        let fin0 = seq![v[0]];
        lemma_stroke_run_sorted(v, case3_enabled, case4_enabled, min_bars, fin0, 1);
        let r = stroke_run(v, case3_enabled, case4_enabled, min_bars, fin0, 1);
        if r.len() >= 2 {
            let a0 = r[0];
            lemma_position_of(v, a0, 0);
            match position_of(v, a0, 0) {
                None => {},
                Some(a0_idx) => {
                    lemma_opposite_extreme_before(v, a0.is_top, a0_idx);
                    match opposite_extreme(v, a0.is_top, a0_idx) {
                        None => {},
                        Some(bm) => {
                            let j = choose|j: int| 0 <= j < a0_idx && #[trigger] v[j] == bm;
                            assert(bm.bar_index < a0.bar_index);
                            let h = seq![bm] + r;
                            assert forall|a: int, b: int| 0 <= a < b < h.len() implies #[trigger] h[a].bar_index
                                < #[trigger] h[b].bar_index by {
                                assert(h[b] == r[b - 1]);
                                if a >= 1 {
                                    assert(h[a] == r[a - 1]);
                                } else if b > 1 {
                                    assert(r[0].bar_index < r[b - 1].bar_index);
                                }
                            }
                        },
                    }
                },
            }
        }
    }
}

/// `idx` picks, in strictly increasing order, the positions in `v` of the elements of `c`.
pub open spec fn index_witness(c: Seq<Fractal>, v: Seq<Fractal>, idx: Seq<int>) -> bool {
    &&& idx.len() == c.len()
    &&& forall|k: int| 0 <= k < idx.len() ==> 0 <= #[trigger] idx[k] < v.len() && c[k] == v[idx[k]]
    &&& forall|a: int, b: int| 0 <= a < b < idx.len() ==> #[trigger] idx[a] < #[trigger] idx[b]
}

/// `c` is a subsequence of `v` that keeps `v`'s order.
pub open spec fn ordered_subsequence(c: Seq<Fractal>, v: Seq<Fractal>) -> bool {
    exists|idx: Seq<int>| index_witness(c, v, idx)
}

proof fn lemma_stroke_run_subsequence(
    v: Seq<Fractal>,
    case3_enabled: bool,
    case4_enabled: bool,
    min_bars: usize,
    fin: Seq<Fractal>,
    i: int,
    idx: Seq<int>,
)
    requires
        index_witness(fin, v, idx),
        fin.len() >= 1,
        i >= 1,
        idx.last() < i,
    ensures
        ordered_subsequence(stroke_run(v, case3_enabled, case4_enabled, min_bars, fin, i), v),
    decreases v.len() - i,
{
    if i >= v.len() {
        assert(index_witness(stroke_run(v, case3_enabled, case4_enabled, min_bars, fin, i), v, idx));
    } else {
        let (fin2, i2) = stroke_step(v, case3_enabled, case4_enabled, min_bars, fin, i);
        let last_idx = fin.len() - 1;
        let last = fin[last_idx];
        assert(idx.last() == idx[last_idx]);
        let idx2 = if last.is_top == v[i].is_top {
            if fin2 != fin {
                idx.update(last_idx, i)
            } else {
                idx
            }
        } else {
            lemma_stroke_decision(v, case3_enabled, case4_enabled, min_bars, fin, i);
            let (valid, next, end) = stroke_decision(
                v,
                case3_enabled,
                case4_enabled,
                min_bars,
                fin,
                i,
            );
            if valid {
                idx.push(end)
            } else {
                idx
            }
        };
        assert(index_witness(fin2, v, idx2)) by {
            assert forall|a: int, b: int| 0 <= a < b < idx2.len() implies #[trigger] idx2[a]
                < #[trigger] idx2[b] by {
                assert(idx2[a] == idx[a]);
                if b < last_idx {
                    assert(idx2[b] == idx[b]);
                } else if b == last_idx {
                    if a < last_idx {
                        assert(idx[a] < idx[last_idx]);
                    }
                } else {
                    assert(idx[a] <= idx[last_idx]);
                }
            }
            assert forall|k: int| 0 <= k < idx2.len() implies 0 <= #[trigger] idx2[k] < v.len()
                && fin2[k] == v[idx2[k]] by {
                if k < last_idx {
                    assert(idx2[k] == idx[k] && fin2[k] == fin[k]);
                }
            }
        }
        assert(idx2.last() < i2);
        lemma_stroke_run_subsequence(v, case3_enabled, case4_enabled, min_bars, fin2, i2, idx2);
    }
}

proof fn lemma_position_of_at_most(v: Seq<Fractal>, a0: Fractal, j: int, p: int)
    requires
        0 <= j <= p < v.len(),
        v[p].bar_index == a0.bar_index,
        v[p].merged_index == a0.merged_index,
    ensures
        position_of(v, a0, j) matches Some(q) && q <= p,
    decreases p - j,
{
    if j < p {
        lemma_position_of_at_most(v, a0, j + 1, p);
    }
}

/// Law: for any input, the stroke chain is a subsequence of the filtered fractals that
/// keeps their order.
pub proof fn lemma_stroke_chain_subsequence(
    v: Seq<Fractal>,
    case3_enabled: bool,
    case4_enabled: bool,
    min_bars: usize,
)
    ensures
        ordered_subsequence(strokes_fractals_spec(v, case3_enabled, case4_enabled, min_bars), v),
{
    if v.len() == 0 {
        assert(index_witness(strokes_fractals_spec(v, case3_enabled, case4_enabled, min_bars), v, Seq::<int>::empty()));
    } else {
        let fin0 = seq![v[0]];
        let idx0 = seq![0int];
        assert(index_witness(fin0, v, idx0));
        lemma_stroke_run_subsequence(v, case3_enabled, case4_enabled, min_bars, fin0, 1, idx0);
        let r = stroke_run(v, case3_enabled, case4_enabled, min_bars, fin0, 1);
        let idx = choose|idx: Seq<int>| index_witness(r, v, idx);
        let out = strokes_fractals_spec(v, case3_enabled, case4_enabled, min_bars);
        if out != r {
            let a0 = r[0];
            assert(idx[0] < v.len() && v[idx[0]] == a0);
            lemma_position_of_at_most(v, a0, 0, idx[0]);
            let a0_idx = position_of(v, a0, 0).unwrap();
            lemma_opposite_extreme_before(v, a0.is_top, a0_idx);
            let bm = opposite_extreme(v, a0.is_top, a0_idx).unwrap();
            let j = choose|j: int| 0 <= j < a0_idx && #[trigger] v[j] == bm;
            assert(out == seq![bm] + r);
            let idx2 = seq![j] + idx;
            assert forall|a: int, b: int| 0 <= a < b < idx2.len() implies #[trigger] idx2[a]
                < #[trigger] idx2[b] by {
                assert(idx2[b] == idx[b - 1]);
                if a >= 1 {
                    assert(idx2[a] == idx[a - 1]);
                } else if b > 1 {
                    assert(idx[0] < idx[b - 1]);
                }
            }
            assert forall|k: int| 0 <= k < idx2.len() implies 0 <= #[trigger] idx2[k] < v.len()
                && out[k] == v[idx2[k]] by {
                if k >= 1 {
                    assert(idx2[k] == idx[k - 1] && out[k] == r[k - 1]);
                }
            }
            assert(index_witness(out, v, idx2));
        } else {
            assert(index_witness(out, v, idx));
        }
    }
}

} // verus!
