use vstd::prelude::*;

use crate::types::Stroke;

verus! {

// ===== Segment case 2: consecutive higher highs / lower lows =====

/// From stroke `i` on: the first up stroke whose end exceeds the previous up stroke's end,
/// before any up stroke starts at or below `first_low`.
pub open spec fn up_seg_case2_scan(s: Seq<Stroke>, i: int, first_low: i64, prev_high: i64) -> Option<int>
    decreases s.len() - i,
{
    if i < 0 || i >= s.len() {
        None
    } else if s[i].is_up {
        if s[i].start_price <= first_low {
            None
        } else if s[i].end_price > prev_high {
            Some(i)
        } else {
            up_seg_case2_scan(s, i + 1, first_low, s[i].end_price)
        }
    } else {
        up_seg_case2_scan(s, i + 1, first_low, prev_high)
    }
}

/// Mirror of [`up_seg_case2_scan`] for down strokes.
pub open spec fn down_seg_case2_scan(s: Seq<Stroke>, i: int, first_high: i64, prev_low: i64) -> Option<
    int,
>
    decreases s.len() - i,
{
    if i < 0 || i >= s.len() {
        None
    } else if !s[i].is_up {
        if s[i].start_price >= first_high {
            None
        } else if s[i].end_price < prev_low {
            Some(i)
        } else {
            down_seg_case2_scan(s, i + 1, first_high, s[i].end_price)
        }
    } else {
        down_seg_case2_scan(s, i + 1, first_high, prev_low)
    }
}

/// Up segment case 2 starting at stroke `start`: (found, end stroke) or (false, start).
pub open spec fn up_seg_case2(s: Seq<Stroke>, start: usize) -> (bool, usize) {
    if start >= s.len() || !s[start as int].is_up || start + 1 >= s.len() {
        (false, start)
    } else {
        match up_seg_case2_scan(
            s,
            start + 1,
            s[start as int].start_price,
            s[start as int].end_price,
        ) {
            Some(e) => (true, e as usize),
            None => (false, start),
        }
    }
}

/// Down segment case 2 starting at stroke `start`: (found, end stroke) or (false, start).
pub open spec fn down_seg_case2(s: Seq<Stroke>, start: usize) -> (bool, usize) {
    if start >= s.len() || s[start as int].is_up || start + 1 >= s.len() {
        (false, start)
    } else {
        match down_seg_case2_scan(
            s,
            start + 1,
            s[start as int].start_price,
            s[start as int].end_price,
        ) {
            Some(e) => (true, e as usize),
            None => (false, start),
        }
    }
}

/// Case 2 in the direction of stroke `i`.
pub open spec fn seg_case2(s: Seq<Stroke>, i: usize) -> (bool, usize) {
    if s[i as int].is_up {
        up_seg_case2(s, i)
    } else {
        down_seg_case2(s, i)
    }
}

/// The case 2 result of every stroke.
pub open spec fn case2_table(s: Seq<Stroke>) -> Seq<(bool, usize)> {
    Seq::new(s.len(), |i: int| seg_case2(s, i as usize))
}

proof fn lemma_up_seg_case2_scan(s: Seq<Stroke>, i: int, first_low: i64, prev_high: i64)
    ensures
        up_seg_case2_scan(s, i, first_low, prev_high) matches Some(e) ==> i <= e < s.len()
            && s[e].is_up,
    decreases s.len() - i,
{
    if i >= 0 && i < s.len() {
        if s[i].is_up {
            lemma_up_seg_case2_scan(s, i + 1, first_low, s[i].end_price);
        } else {
            lemma_up_seg_case2_scan(s, i + 1, first_low, prev_high);
        }
    }
}

proof fn lemma_down_seg_case2_scan(s: Seq<Stroke>, i: int, first_high: i64, prev_low: i64)
    ensures
        down_seg_case2_scan(s, i, first_high, prev_low) matches Some(e) ==> i <= e < s.len()
            && !s[e].is_up,
    decreases s.len() - i,
{
    if i >= 0 && i < s.len() {
        if !s[i].is_up {
            lemma_down_seg_case2_scan(s, i + 1, first_high, s[i].end_price);
        } else {
            lemma_down_seg_case2_scan(s, i + 1, first_high, prev_low);
        }
    }
}

/// A found case 2 segment ends on a later stroke of its own direction.
pub proof fn lemma_seg_case2(s: Seq<Stroke>, i: usize)
    requires
        i < s.len() <= usize::MAX,
    ensures
        up_seg_case2(s, i).0 ==> i < up_seg_case2(s, i).1 < s.len() && s[up_seg_case2(
            s,
            i,
        ).1 as int].is_up && s[i as int].is_up,
        !up_seg_case2(s, i).0 ==> up_seg_case2(s, i).1 == i,
        down_seg_case2(s, i).0 ==> i < down_seg_case2(s, i).1 < s.len() && !s[down_seg_case2(
            s,
            i,
        ).1 as int].is_up && !s[i as int].is_up,
        !down_seg_case2(s, i).0 ==> down_seg_case2(s, i).1 == i,
        seg_case2(s, i).0 ==> i < seg_case2(s, i).1 < s.len() && s[seg_case2(s, i).1 as int].is_up
            == s[i as int].is_up,
        !seg_case2(s, i).0 ==> seg_case2(s, i).1 == i,
{
    if i + 1 < s.len() {
        lemma_up_seg_case2_scan(s, i + 1, s[i as int].start_price, s[i as int].end_price);
        lemma_down_seg_case2_scan(s, i + 1, s[i as int].start_price, s[i as int].end_price);
    }
}

/// Up segment case 2 at `start_idx`: (true, end stroke) when consecutive up strokes make a
/// higher high before any of them starts at or below the first stroke's start.
pub fn check_up_segment_case2(strokes: &[Stroke], start_idx: usize) -> (r: (bool, usize))
    ensures
        r == up_seg_case2(strokes@, start_idx),
{
    let count = strokes.len();
    if start_idx >= count || !strokes[start_idx].is_up {
        return (false, start_idx);
    }
    if start_idx + 1 >= count {
        return (false, start_idx);
    }
    let first_low = strokes[start_idx].start_price;
    let mut prev_high = strokes[start_idx].end_price;
    let mut i: usize = start_idx + 1;
    while i < count
        invariant
            count == strokes.len(),
            start_idx < count,
            first_low == strokes@[start_idx as int].start_price,
            strokes@[start_idx as int].is_up,
            start_idx + 1 < count,
            i <= count,
            up_seg_case2_scan(
                strokes@,
                start_idx + 1,
                first_low,
                strokes@[start_idx as int].end_price,
            ) == up_seg_case2_scan(strokes@, i as int, first_low, prev_high),
        decreases count - i,
    {
        if strokes[i].is_up {
            let cur_low = strokes[i].start_price;
            let cur_high = strokes[i].end_price;
            if cur_low <= first_low {
                return (false, start_idx);
            }
            if cur_high > prev_high {
                return (true, i);
            }
            prev_high = cur_high;
        }
        i = i + 1;
    }
    (false, start_idx)
}

/// Mirror of [`check_up_segment_case2`] for down segments.
pub fn check_down_segment_case2(strokes: &[Stroke], start_idx: usize) -> (r: (bool, usize))
    ensures
        r == down_seg_case2(strokes@, start_idx),
{
    let count = strokes.len();
    if start_idx >= count || strokes[start_idx].is_up {
        return (false, start_idx);
    }
    if start_idx + 1 >= count {
        return (false, start_idx);
    }
    let first_high = strokes[start_idx].start_price;
    let mut prev_low = strokes[start_idx].end_price;
    let mut i: usize = start_idx + 1;
    while i < count
        invariant
            count == strokes.len(),
            start_idx < count,
            first_high == strokes@[start_idx as int].start_price,
            !strokes@[start_idx as int].is_up,
            start_idx + 1 < count,
            i <= count,
            down_seg_case2_scan(
                strokes@,
                start_idx + 1,
                first_high,
                strokes@[start_idx as int].end_price,
            ) == down_seg_case2_scan(strokes@, i as int, first_high, prev_low),
        decreases count - i,
    {
        if !strokes[i].is_up {
            let cur_high = strokes[i].start_price;
            let cur_low = strokes[i].end_price;
            if cur_high >= first_high {
                return (false, start_idx);
            }
            if cur_low < prev_low {
                return (true, i);
            }
            prev_low = cur_low;
        }
        i = i + 1;
    }
    (false, start_idx)
}

fn build_case2_table(strokes: &[Stroke]) -> (cache: Vec<(bool, usize)>)
    ensures
        cache@ == case2_table(strokes@),
{
    let count = strokes.len();
    let mut cache: Vec<(bool, usize)> = Vec::new();
    let mut i: usize = 0;
    while i < count
        invariant
            count == strokes.len(),
            i <= count,
            cache.len() == i,
            forall|k: int| 0 <= k < i ==> cache@[k] == seg_case2(strokes@, k as usize),
        decreases count - i,
    {
        if strokes[i].is_up {
            cache.push(check_up_segment_case2(strokes, i));
        } else {
            cache.push(check_down_segment_case2(strokes, i));
        }
        i = i + 1;
    }
    assert(cache@ =~= case2_table(strokes@));
    cache
}

// ===== Segment case 3: one stroke breaks the start of the previous opposite segment =====

/// Walks back from stroke `j - 1` to the nearest opposite stroke that has a case 2 segment
/// or started a case 3 segment; compares `extreme` with its start.
pub open spec fn up_case3_back(
    s: Seq<Stroke>,
    start: int,
    cache: Seq<(bool, usize)>,
    c3: Seq<bool>,
    j: int,
    high_a: i64,
) -> (bool, usize)
    decreases j,
{
    if j <= 0 {
        (false, usize::MAX)
    } else {
        let i = j - 1;
        if !s[i].is_up {
            if cache[i].0 {
                if cache[i].1 >= start {
                    (false, usize::MAX)
                } else {
                    (high_a > s[i].start_price, i as usize)
                }
            } else if c3[i] {
                (high_a > s[i].start_price, i as usize)
            } else {
                up_case3_back(s, start, cache, c3, j - 1, high_a)
            }
        } else {
            up_case3_back(s, start, cache, c3, j - 1, high_a)
        }
    }
}

/// Mirror of [`up_case3_back`].
pub open spec fn down_case3_back(
    s: Seq<Stroke>,
    start: int,
    cache: Seq<(bool, usize)>,
    c3: Seq<bool>,
    j: int,
    low_a: i64,
) -> (bool, usize)
    decreases j,
{
    if j <= 0 {
        (false, usize::MAX)
    } else {
        let i = j - 1;
        if s[i].is_up {
            if cache[i].0 {
                if cache[i].1 >= start {
                    (false, usize::MAX)
                } else {
                    (low_a < s[i].start_price, i as usize)
                }
            } else if c3[i] {
                (low_a < s[i].start_price, i as usize)
            } else {
                down_case3_back(s, start, cache, c3, j - 1, low_a)
            }
        } else {
            down_case3_back(s, start, cache, c3, j - 1, low_a)
        }
    }
}

/// Up segment case 3 at `start`: (ok, start, base stroke).
pub open spec fn up_seg_case3(s: Seq<Stroke>, start: usize, cache: Seq<(bool, usize)>, c3: Seq<bool>) -> (
    bool,
    usize,
    usize,
) {
    if start >= s.len() || !s[start as int].is_up {
        (false, start, usize::MAX)
    } else {
        let (ok, base) = up_case3_back(
            s,
            start as int,
            cache,
            c3,
            start as int,
            s[start as int].end_price,
        );
        (ok, start, base)
    }
}

/// Down segment case 3 at `start`: (ok, start, base stroke).
pub open spec fn down_seg_case3(s: Seq<Stroke>, start: usize, cache: Seq<(bool, usize)>, c3: Seq<bool>) -> (
    bool,
    usize,
    usize,
) {
    if start >= s.len() || s[start as int].is_up {
        (false, start, usize::MAX)
    } else {
        let (ok, base) = down_case3_back(
            s,
            start as int,
            cache,
            c3,
            start as int,
            s[start as int].end_price,
        );
        (ok, start, base)
    }
}

proof fn lemma_up_case3_back(
    s: Seq<Stroke>,
    start: int,
    cache: Seq<(bool, usize)>,
    c3: Seq<bool>,
    j: int,
    high_a: i64,
)
    requires
        j <= start <= usize::MAX,
    ensures
        up_case3_back(s, start, cache, c3, j, high_a).0 ==> up_case3_back(
            s,
            start,
            cache,
            c3,
            j,
            high_a,
        ).1 < j && !s[up_case3_back(s, start, cache, c3, j, high_a).1 as int].is_up && (
        cache[up_case3_back(s, start, cache, c3, j, high_a).1 as int].0 ==> cache[up_case3_back(
            s,
            start,
            cache,
            c3,
            j,
            high_a,
        ).1 as int].1 < start),
    decreases j,
{
    if j > 0 {
        lemma_up_case3_back(s, start, cache, c3, j - 1, high_a);
    }
}

proof fn lemma_down_case3_back(
    s: Seq<Stroke>,
    start: int,
    cache: Seq<(bool, usize)>,
    c3: Seq<bool>,
    j: int,
    low_a: i64,
)
    requires
        j <= start <= usize::MAX,
    ensures
        down_case3_back(s, start, cache, c3, j, low_a).0 ==> down_case3_back(
            s,
            start,
            cache,
            c3,
            j,
            low_a,
        ).1 < j && s[down_case3_back(s, start, cache, c3, j, low_a).1 as int].is_up && (
        cache[down_case3_back(s, start, cache, c3, j, low_a).1 as int].0 ==> cache[down_case3_back(
            s,
            start,
            cache,
            c3,
            j,
            low_a,
        ).1 as int].1 < start),
    decreases j,
{
    if j > 0 {
        lemma_down_case3_back(s, start, cache, c3, j - 1, low_a);
    }
}

fn check_up_segment_case3(
    strokes: &[Stroke],
    start_idx: usize,
    seg_case2_cache: &[(bool, usize)],
    c3_seg_starts: &[bool],
) -> (r: (bool, usize, usize))
    requires
        seg_case2_cache.len() == strokes.len(),
        c3_seg_starts.len() == strokes.len(),
    ensures
        r == up_seg_case3(strokes@, start_idx, seg_case2_cache@, c3_seg_starts@),
{
    let count = strokes.len();
    if start_idx >= count || !strokes[start_idx].is_up {
        return (false, start_idx, usize::MAX);
    }
    let high_a = strokes[start_idx].end_price;
    let mut j: usize = start_idx;
    while j > 0
        invariant
            count == strokes.len(),
            seg_case2_cache.len() == count,
            c3_seg_starts.len() == count,
            start_idx < count,
            j <= start_idx,
            high_a == strokes@[start_idx as int].end_price,
            strokes@[start_idx as int].is_up,
            up_case3_back(
                strokes@,
                start_idx as int,
                seg_case2_cache@,
                c3_seg_starts@,
                start_idx as int,
                high_a,
            ) == up_case3_back(
                strokes@,
                start_idx as int,
                seg_case2_cache@,
                c3_seg_starts@,
                j as int,
                high_a,
            ),
        decreases j,
    {
        let i = j - 1;
        if !strokes[i].is_up {
            let (ok, end_i) = seg_case2_cache[i];
            if ok {
                if end_i >= start_idx {
                    return (false, start_idx, usize::MAX);
                }
                return (high_a > strokes[i].start_price, start_idx, i);
            }
            if c3_seg_starts[i] {
                return (high_a > strokes[i].start_price, start_idx, i);
            }
        }
        j = j - 1;
    }
    (false, start_idx, usize::MAX)
}

fn check_down_segment_case3(
    strokes: &[Stroke],
    start_idx: usize,
    seg_case2_cache: &[(bool, usize)],
    c3_seg_starts: &[bool],
) -> (r: (bool, usize, usize))
    requires
        seg_case2_cache.len() == strokes.len(),
        c3_seg_starts.len() == strokes.len(),
    ensures
        r == down_seg_case3(strokes@, start_idx, seg_case2_cache@, c3_seg_starts@),
{
    let count = strokes.len();
    if start_idx >= count || strokes[start_idx].is_up {
        return (false, start_idx, usize::MAX);
    }
    let low_a = strokes[start_idx].end_price;
    let mut j: usize = start_idx;
    while j > 0
        invariant
            count == strokes.len(),
            seg_case2_cache.len() == count,
            c3_seg_starts.len() == count,
            start_idx < count,
            j <= start_idx,
            low_a == strokes@[start_idx as int].end_price,
            !strokes@[start_idx as int].is_up,
            down_case3_back(
                strokes@,
                start_idx as int,
                seg_case2_cache@,
                c3_seg_starts@,
                start_idx as int,
                low_a,
            ) == down_case3_back(
                strokes@,
                start_idx as int,
                seg_case2_cache@,
                c3_seg_starts@,
                j as int,
                low_a,
            ),
        decreases j,
    {
        let i = j - 1;
        if strokes[i].is_up {
            let (ok, end_i) = seg_case2_cache[i];
            if ok {
                if end_i >= start_idx {
                    return (false, start_idx, usize::MAX);
                }
                return (low_a < strokes[i].start_price, start_idx, i);
            }
            if c3_seg_starts[i] {
                return (low_a < strokes[i].start_price, start_idx, i);
            }
        }
        j = j - 1;
    }
    (false, start_idx, usize::MAX)
}

// ===== Segment case 4: a single stroke containing a closed opposite + same pair =====

/// Most extreme end price (highest for up, lowest for down) among strokes of direction
/// `is_up` in `[i, boundary)`, seeded with `acc`.
pub open spec fn real_end_scan(s: Seq<Stroke>, i: int, boundary: int, is_up: bool, acc: i64) -> i64
    decreases s.len() - i,
{
    if i < 0 || i >= boundary || i >= s.len() {
        acc
    } else {
        let acc2 = if s[i].is_up == is_up {
            if is_up && s[i].end_price > acc {
                s[i].end_price
            } else if !is_up && s[i].end_price < acc {
                s[i].end_price
            } else {
                acc
            }
        } else {
            acc
        };
        real_end_scan(s, i + 1, boundary, is_up, acc2)
    }
}

/// Real end price of the segment that starts at `seg_start`, looking up to `boundary`.
pub open spec fn real_seg_end_price(s: Seq<Stroke>, seg_start: int, is_up: bool, boundary: int) -> i64 {
    real_end_scan(s, seg_start + 1, boundary, is_up, s[seg_start].end_price)
}

fn get_real_seg_end_price(strokes: &[Stroke], seg_start_idx: usize, is_up: bool, boundary_idx: usize) -> (r:
    i64)
    requires
        seg_start_idx < strokes.len(),
    ensures
        r == real_seg_end_price(strokes@, seg_start_idx as int, is_up, boundary_idx as int),
{
    let mut end_price = strokes[seg_start_idx].end_price;
    let mut i: usize = seg_start_idx + 1;
    while i < boundary_idx && i < strokes.len()
        invariant
            seg_start_idx < strokes.len(),
            seg_start_idx + 1 <= i,
            real_seg_end_price(strokes@, seg_start_idx as int, is_up, boundary_idx as int)
                == real_end_scan(strokes@, i as int, boundary_idx as int, is_up, end_price),
        decreases boundary_idx - i,
    {
        if strokes[i].is_up == is_up {
            let cand = strokes[i].end_price;
            if is_up && cand > end_price {
                end_price = cand;
            } else if !is_up && cand < end_price {
                end_price = cand;
            }
        }
        i = i + 1;
    }
    end_price
}

/// From stroke `i`: first a down case 2 segment, then (after it) an up case 2 segment;
/// yields (up segment start, up segment end).
pub open spec fn seg_up_c4_search(s: Seq<Stroke>, i: int, down_found: bool) -> Option<(int, int)>
    decreases s.len() - i,
    via seg_up_c4_search_decreases
{
    if i < 0 || i >= s.len() || s.len() > usize::MAX {
        None
    } else if !down_found {
        if !s[i].is_up && down_seg_case2(s, i as usize).0 {
            seg_up_c4_search(s, down_seg_case2(s, i as usize).1 + 1, true)
        } else {
            seg_up_c4_search(s, i + 1, false)
        }
    } else if s[i].is_up && up_seg_case2(s, i as usize).0 {
        Some((i, up_seg_case2(s, i as usize).1 as int))
    } else {
        seg_up_c4_search(s, i + 1, true)
    }
}

#[via_fn]
proof fn seg_up_c4_search_decreases(s: Seq<Stroke>, i: int, down_found: bool) {
    if 0 <= i < s.len() && s.len() <= usize::MAX {
        lemma_seg_case2(s, i as usize);
    }
}

/// Mirror of [`seg_up_c4_search`]: an up case 2 segment, then a down one;
/// yields (down segment start, down segment end).
pub open spec fn seg_down_c4_search(s: Seq<Stroke>, i: int, up_found: bool) -> Option<(int, int)>
    decreases s.len() - i,
    via seg_down_c4_search_decreases
{
    if i < 0 || i >= s.len() || s.len() > usize::MAX {
        None
    } else if !up_found {
        if s[i].is_up && up_seg_case2(s, i as usize).0 {
            seg_down_c4_search(s, up_seg_case2(s, i as usize).1 + 1, true)
        } else {
            seg_down_c4_search(s, i + 1, false)
        }
    } else if !s[i].is_up && down_seg_case2(s, i as usize).0 {
        Some((i, down_seg_case2(s, i as usize).1 as int))
    } else {
        seg_down_c4_search(s, i + 1, true)
    }
}

#[via_fn]
proof fn seg_down_c4_search_decreases(s: Seq<Stroke>, i: int, up_found: bool) {
    if 0 <= i < s.len() && s.len() <= usize::MAX {
        lemma_seg_case2(s, i as usize);
    }
}

/// Up segment case 4 at `start`: the single up stroke contains a closed down case 2
/// segment followed by a closed up case 2 segment, neither breaking its ends.
pub open spec fn up_seg_case4(s: Seq<Stroke>, start: usize) -> bool {
    if start + 2 >= s.len() || !s[start as int].is_up {
        false
    } else {
        match seg_up_c4_search(s, start + 1, false) {
            None => false,
            Some((up_start, up_end)) => real_seg_end_price(s, start + 1, false, up_start)
                > s[start as int].start_price && real_seg_end_price(s, start + 1, true, up_end + 1)
                <= s[start as int].end_price,
        }
    }
}

/// Mirror of [`up_seg_case4`] for a single down stroke.
pub open spec fn down_seg_case4(s: Seq<Stroke>, start: usize) -> bool {
    if start + 2 >= s.len() || s[start as int].is_up {
        false
    } else {
        match seg_down_c4_search(s, start + 1, false) {
            None => false,
            Some((down_start, down_end)) => real_seg_end_price(s, start + 1, true, down_start)
                < s[start as int].start_price && real_seg_end_price(
                s,
                start + 1,
                false,
                down_end + 1,
            ) >= s[start as int].end_price,
        }
    }
}

proof fn lemma_seg_up_c4_search(s: Seq<Stroke>, i: int, down_found: bool)
    ensures
        seg_up_c4_search(s, i, down_found) matches Some((a, b)) ==> i <= a < b < s.len(),
    decreases s.len() - i,
{
    if 0 <= i < s.len() && s.len() <= usize::MAX {
        lemma_seg_case2(s, i as usize);
        if !down_found {
            if !s[i].is_up && down_seg_case2(s, i as usize).0 {
                lemma_seg_up_c4_search(s, down_seg_case2(s, i as usize).1 + 1, true);
            } else {
                lemma_seg_up_c4_search(s, i + 1, false);
            }
        } else if !(s[i].is_up && up_seg_case2(s, i as usize).0) {
            lemma_seg_up_c4_search(s, i + 1, true);
        }
    }
}

proof fn lemma_seg_down_c4_search(s: Seq<Stroke>, i: int, up_found: bool)
    ensures
        seg_down_c4_search(s, i, up_found) matches Some((a, b)) ==> i <= a < b < s.len(),
    decreases s.len() - i,
{
    if 0 <= i < s.len() && s.len() <= usize::MAX {
        lemma_seg_case2(s, i as usize);
        if !up_found {
            if s[i].is_up && up_seg_case2(s, i as usize).0 {
                lemma_seg_down_c4_search(s, up_seg_case2(s, i as usize).1 + 1, true);
            } else {
                lemma_seg_down_c4_search(s, i + 1, false);
            }
        } else if !(!s[i].is_up && down_seg_case2(s, i as usize).0) {
            lemma_seg_down_c4_search(s, i + 1, true);
        }
    }
}

fn check_up_segment_case4(strokes: &[Stroke], start_idx: usize) -> (r: (bool, usize))
    ensures
        r == (up_seg_case4(strokes@, start_idx), start_idx),
{
    let count = strokes.len();
    if start_idx >= count || count - start_idx <= 2 {
        return (false, start_idx);
    }
    if !strokes[start_idx].is_up {
        return (false, start_idx);
    }
    let low_a = strokes[start_idx].start_price;
    let high_a = strokes[start_idx].end_price;
    let mut down_found = false;
    let mut found: Option<(usize, usize)> = None;
    let mut i: usize = start_idx + 1;
    while i < count
        invariant_except_break
            found is None,
        invariant
            count == strokes.len(),
            seg_up_c4_search(strokes@, start_idx + 1, false) == seg_up_c4_search(
                strokes@,
                i as int,
                down_found,
            ),
        ensures
            match found {
                Some((a, b)) => seg_up_c4_search(strokes@, start_idx + 1, false) == Some(
                    (a as int, b as int),
                ),
                None => seg_up_c4_search(strokes@, start_idx + 1, false) is None,
            },
        decreases count - i,
    {
        proof {
            lemma_seg_case2(strokes@, i);
        }
        if !down_found {
            if !strokes[i].is_up {
                let (ok, end_i) = check_down_segment_case2(strokes, i);
                if ok {
                    down_found = true;
                    i = end_i;
                }
            }
        } else {
            if strokes[i].is_up {
                let (ok, end_i) = check_up_segment_case2(strokes, i);
                if ok {
                    found = Some((i, end_i));
                    break ;
                }
            }
        }
        i = i + 1;
    }
    match found {
        None => (false, start_idx),
        Some((up_seg_start, up_seg_end)) => {
            proof {
                lemma_seg_up_c4_search(strokes@, start_idx + 1, false);
            }
            let real_down_low = get_real_seg_end_price(strokes, start_idx + 1, false, up_seg_start);
            if real_down_low <= low_a {
                return (false, start_idx);
            }
            let real_up_high = get_real_seg_end_price(
                strokes,
                start_idx + 1,
                true,
                up_seg_end + 1,
            );
            if real_up_high > high_a {
                return (false, start_idx);
            }
            (true, start_idx)
        },
    }
}

fn check_down_segment_case4(strokes: &[Stroke], start_idx: usize) -> (r: (bool, usize))
    ensures
        r == (down_seg_case4(strokes@, start_idx), start_idx),
{
    let count = strokes.len();
    if start_idx >= count || count - start_idx <= 2 {
        return (false, start_idx);
    }
    if strokes[start_idx].is_up {
        return (false, start_idx);
    }
    let high_a = strokes[start_idx].start_price;
    let low_a = strokes[start_idx].end_price;
    let mut up_found = false;
    let mut found: Option<(usize, usize)> = None;
    let mut i: usize = start_idx + 1;
    while i < count
        invariant_except_break
            found is None,
        invariant
            count == strokes.len(),
            seg_down_c4_search(strokes@, start_idx + 1, false) == seg_down_c4_search(
                strokes@,
                i as int,
                up_found,
            ),
        ensures
            match found {
                Some((a, b)) => seg_down_c4_search(strokes@, start_idx + 1, false) == Some(
                    (a as int, b as int),
                ),
                None => seg_down_c4_search(strokes@, start_idx + 1, false) is None,
            },
        decreases count - i,
    {
        proof {
            lemma_seg_case2(strokes@, i);
        }
        if !up_found {
            if strokes[i].is_up {
                let (ok, end_i) = check_up_segment_case2(strokes, i);
                if ok {
                    up_found = true;
                    i = end_i;
                }
            }
        } else {
            if !strokes[i].is_up {
                let (ok, end_i) = check_down_segment_case2(strokes, i);
                if ok {
                    found = Some((i, end_i));
                    break ;
                }
            }
        }
        i = i + 1;
    }
    match found {
        None => (false, start_idx),
        Some((down_seg_start, down_seg_end)) => {
            proof {
                lemma_seg_down_c4_search(strokes@, start_idx + 1, false);
            }
            let real_up_high = get_real_seg_end_price(strokes, start_idx + 1, true, down_seg_start);
            if real_up_high >= high_a {
                return (false, start_idx);
            }
            let real_down_low = get_real_seg_end_price(
                strokes,
                start_idx + 1,
                false,
                down_seg_end + 1,
            );
            if real_down_low < low_a {
                return (false, start_idx);
            }
            (true, start_idx)
        },
    }
}

// ===== Segment state machine (shared by segments and case 3 event collection) =====

/// State of the segment builder.
pub struct SegState {
    pub i: int,
    pub looking_up: bool,
    pub first: bool,
    pub c3_starts: Seq<bool>,
    pub segs: Seq<(usize, usize, bool)>,
    pub events: Seq<(usize, usize, usize, bool)>,
}

pub open spec fn seg_init(s: Seq<Stroke>) -> SegState {
    SegState {
        i: 0,
        looking_up: true,
        first: true,
        c3_starts: Seq::new(s.len(), |k: int| false),
        segs: Seq::empty(),
        events: Seq::empty(),
    }
}

/// Candidates at stroke `i` for a segment of direction `up_dir`:
/// (found, earliest end, case 3 hit, case 3 base stroke).
pub open spec fn seg_choice(
    s: Seq<Stroke>,
    c3_starts: Seq<bool>,
    enable_case3: bool,
    enable_case4: bool,
    i: int,
    up_dir: bool,
) -> (bool, usize, bool, usize) {
    let cache = case2_table(s);
    let c2 = cache[i];
    let (ok3, _x, base) = if up_dir {
        up_seg_case3(s, i as usize, cache, c3_starts)
    } else {
        down_seg_case3(s, i as usize, cache, c3_starts)
    };
    let ok4 = if up_dir {
        up_seg_case4(s, i as usize)
    } else {
        down_seg_case4(s, i as usize)
    };
    let has3 = enable_case3 && ok3;
    let has4 = enable_case4 && ok4;
    let found = c2.0 || has3 || has4;
    let best = if has3 || has4 {
        if c2.0 && c2.1 < i {
            c2.1
        } else {
            i as usize
        }
    } else {
        c2.1
    };
    (found, best, has3, base)
}

/// One step of the segment builder at stroke `st.i`.
pub open spec fn seg_step(s: Seq<Stroke>, enable_case3: bool, enable_case4: bool, st: SegState) -> SegState {
    let i = st.i;
    let up = s[i].is_up;
    let branch_up = st.looking_up && up;
    let branch_down = (!st.looking_up && !up) || (st.first && !up);
    if !branch_up && !branch_down {
        SegState { i: i + 1, ..st }
    } else {
        let (found, best, is_c3, base) = seg_choice(
            s,
            st.c3_starts,
            enable_case3,
            enable_case4,
            i,
            branch_up,
        );
        if !found {
            SegState { i: i + 1, ..st }
        } else {
            let cache = case2_table(s);
            let mark = is_c3 && best == i;
            let first_seg_down = st.first && !up;
            SegState {
                i: best + 1,
                looking_up: if first_seg_down {
                    st.looking_up
                } else {
                    !st.looking_up
                },
                first: false,
                c3_starts: if mark {
                    st.c3_starts.update(i, true)
                } else {
                    st.c3_starts
                },
                segs: st.segs.push((i as usize, best, up)),
                events: if mark {
                    st.events.push(
                        (
                            i as usize,
                            base,
                            if cache[base as int].0 {
                                cache[base as int].1
                            } else {
                                base
                            },
                            up,
                        ),
                    )
                } else {
                    st.events
                },
            }
        }
    }
}

/// Runs the segment builder to the end of the strokes.
pub open spec fn seg_run(s: Seq<Stroke>, enable_case3: bool, enable_case4: bool, st: SegState) -> SegState
    decreases s.len() - st.i,
    via seg_run_decreases
{
    if st.i < 0 || st.i >= s.len() || s.len() > usize::MAX {
        st
    } else {
        seg_run(s, enable_case3, enable_case4, seg_step(s, enable_case3, enable_case4, st))
    }
}

proof fn lemma_seg_choice(
    s: Seq<Stroke>,
    c3_starts: Seq<bool>,
    enable_case3: bool,
    enable_case4: bool,
    i: int,
    up_dir: bool,
)
    requires
        0 <= i < s.len() <= usize::MAX,
    ensures
        ({
            let (found, best, is_c3, base) = seg_choice(
                s,
                c3_starts,
                enable_case3,
                enable_case4,
                i,
                up_dir,
            );
            found ==> i <= best < s.len() && s[best as int].is_up == s[i].is_up
        }),
        ({
            let (found, best, is_c3, base) = seg_choice(
                s,
                c3_starts,
                enable_case3,
                enable_case4,
                i,
                up_dir,
            );
            is_c3 ==> base < i && s[base as int].is_up != s[i].is_up && (case2_table(s)[base as int].0
                ==> case2_table(s)[base as int].1 < i)
        }),
{
    lemma_seg_case2(s, i as usize);
    let cache = case2_table(s);
    lemma_up_case3_back(s, i, cache, c3_starts, i, s[i].end_price);
    lemma_down_case3_back(s, i, cache, c3_starts, i, s[i].end_price);
}

#[via_fn]
proof fn seg_run_decreases(s: Seq<Stroke>, enable_case3: bool, enable_case4: bool, st: SegState) {
    if !(st.i < 0 || st.i >= s.len() || s.len() > usize::MAX) {
        lemma_seg_choice(s, st.c3_starts, enable_case3, enable_case4, st.i, true);
        lemma_seg_choice(s, st.c3_starts, enable_case3, enable_case4, st.i, false);
    }
}

/// The segment builder's result on the whole stroke sequence.
pub open spec fn seg_machine(s: Seq<Stroke>, enable_case3: bool, enable_case4: bool) -> SegState {
    seg_run(s, enable_case3, enable_case4, seg_init(s))
}

fn run_segment_machine(strokes: &[Stroke], enable_case3: bool, enable_case4: bool) -> (r: (
    Vec<(usize, usize, bool)>,
    Vec<(usize, usize, usize, bool)>,
))
    ensures
        r.0@ == seg_machine(strokes@, enable_case3, enable_case4).segs,
        r.1@ == seg_machine(strokes@, enable_case3, enable_case4).events,
{
    let count = strokes.len();
    let ghost s = strokes@;
    let seg_case2_cache = build_case2_table(strokes);
    let mut segments: Vec<(usize, usize, bool)> = Vec::new();
    let mut events: Vec<(usize, usize, usize, bool)> = Vec::new();
    let mut c3_seg_starts: Vec<bool> = Vec::new();
    let mut k: usize = 0;
    while k < count
        invariant
            k <= count,
            c3_seg_starts.len() == k,
            forall|m: int| 0 <= m < k ==> c3_seg_starts@[m] == false,
        decreases count - k,
    {
        c3_seg_starts.push(false);
        k = k + 1;
    }
    assert(c3_seg_starts@ =~= seg_init(s).c3_starts);
    let mut i: usize = 0;
    let mut looking_for_up = true;
    let mut first = true;
    let ghost target = seg_machine(s, enable_case3, enable_case4);
    while i < count
        invariant
            count == strokes.len(),
            s == strokes@,
            seg_case2_cache@ == case2_table(s),
            c3_seg_starts.len() == count,
            i <= count,
            target == seg_run(
                s,
                enable_case3,
                enable_case4,
                SegState {
                    i: i as int,
                    looking_up: looking_for_up,
                    first,
                    c3_starts: c3_seg_starts@,
                    segs: segments@,
                    events: events@,
                },
            ),
        decreases count - i,
    {
        let ghost st = SegState {
            i: i as int,
            looking_up: looking_for_up,
            first,
            c3_starts: c3_seg_starts@,
            segs: segments@,
            events: events@,
        };
        let up = strokes[i].is_up;
        let branch_up = looking_for_up && up;
        let branch_down = (!looking_for_up && !up) || (first && !up);
        if !branch_up && !branch_down {
            i = i + 1;
        } else {
            proof {
                lemma_seg_choice(s, c3_seg_starts@, enable_case3, enable_case4, i as int, branch_up);
            }
            let (ok_c2, end_i_c2) = seg_case2_cache[i];
            let (ok_c3, _x, b) = if branch_up {
                check_up_segment_case3(strokes, i, &seg_case2_cache, &c3_seg_starts)
            } else {
                check_down_segment_case3(strokes, i, &seg_case2_cache, &c3_seg_starts)
            };
            let (ok_c4, _y) = if branch_up {
                check_up_segment_case4(strokes, i)
            } else {
                check_down_segment_case4(strokes, i)
            };
            let has3 = enable_case3 && ok_c3;
            let has4 = enable_case4 && ok_c4;
            let found = ok_c2 || has3 || has4;
            let best_end = if has3 || has4 {
                if ok_c2 && end_i_c2 < i {
                    end_i_c2
                } else {
                    i
                }
            } else {
                end_i_c2
            };
            if !found {
                i = i + 1;
            } else {
                if has3 && best_end == i {
                    c3_seg_starts.set(i, true);
                    let end_i = if seg_case2_cache[b].0 {
                        seg_case2_cache[b].1
                    } else {
                        b
                    };
                    events.push((i, b, end_i, up));
                }
                let first_seg_down = first && !up;
                segments.push((i, best_end, up));
                i = best_end + 1;
                if !first_seg_down {
                    looking_for_up = !looking_for_up;
                }
                first = false;
            }
        }
        assert(SegState {
            i: i as int,
            looking_up: looking_for_up,
            first,
            c3_starts: c3_seg_starts@,
            segs: segments@,
            events: events@,
        } == seg_step(s, enable_case3, enable_case4, st));
    }
    (segments, events)
}

// ===== End point extension and public segment builders =====

/// Moves a segment end to the last later stroke of its direction (before `stop`) that
/// reaches a new extreme (ties move too).
pub open spec fn extend_end(s: Seq<Stroke>, si: int, stop: int, is_up: bool, end: int) -> int
    decreases stop - si,
{
    if si >= stop {
        end
    } else {
        let e2 = if 0 <= si < s.len() && s[si].is_up == is_up && (if is_up {
            s[si].end_price >= s[end].end_price
        } else {
            s[si].end_price <= s[end].end_price
        }) {
            si
        } else {
            end
        };
        extend_end(s, si + 1, stop, is_up, e2)
    }
}

/// Start of the segment after `k`, or the stroke count for the last one.
pub open spec fn next_start(s: Seq<Stroke>, segs: Seq<(usize, usize, bool)>, k: int) -> int {
    if k + 1 < segs.len() {
        segs[k + 1].0 as int
    } else {
        s.len() as int
    }
}

/// Every segment with its end point extended.
pub open spec fn extended_segments(s: Seq<Stroke>, segs: Seq<(usize, usize, bool)>) -> Seq<
    (usize, usize, bool),
> {
    Seq::new(
        segs.len(),
        |k: int|
            (
                segs[k].0,
                extend_end(
                    s,
                    segs[k].1 + 1,
                    next_start(s, segs, k),
                    segs[k].2,
                    segs[k].1 as int,
                ) as usize,
                segs[k].2,
            ),
    )
}

/// The segments built from a stroke sequence (case 3 / case 4 switches).
pub open spec fn segments_spec(s: Seq<Stroke>, enable_case3: bool, enable_case4: bool) -> Seq<
    (usize, usize, bool),
> {
    if s.len() < 2 {
        Seq::empty()
    } else {
        extended_segments(s, seg_machine(s, enable_case3, enable_case4).segs)
    }
}

/// The case 3 events recorded while building segments.
pub open spec fn case3_events_spec(s: Seq<Stroke>, enable_case3: bool, enable_case4: bool) -> Seq<
    (usize, usize, usize, bool),
> {
    if s.len() < 2 {
        Seq::empty()
    } else {
        seg_machine(s, enable_case3, enable_case4).events
    }
}

/// Segments are ordered, inside the stroke range, start and end on strokes of their own
/// direction, and alternate in direction.
pub open spec fn well_formed_segments(s: Seq<Stroke>, segs: Seq<(usize, usize, bool)>) -> bool {
    &&& forall|k: int|
        0 <= k < segs.len() ==> {
            &&& (#[trigger] segs[k]).0 <= segs[k].1 < s.len()
            &&& s[segs[k].0 as int].is_up == segs[k].2
            &&& s[segs[k].1 as int].is_up == segs[k].2
        }
    &&& forall|k: int|
        0 <= k < segs.len() - 1 ==> (#[trigger] segs[k]).1 < segs[k + 1].0 && segs[k].2
            != segs[k + 1].2
}

/// Case 3 events point backwards: base <= base segment end < trigger stroke.
pub open spec fn well_formed_events(s: Seq<Stroke>, events: Seq<(usize, usize, usize, bool)>) -> bool {
    forall|k: int|
        0 <= k < events.len() ==> {
            &&& (#[trigger] events[k]).1 <= events[k].2 < events[k].0 < s.len()
            &&& s[events[k].0 as int].is_up == events[k].3
            &&& s[events[k].1 as int].is_up != events[k].3
        }
}

spec fn machine_inv(s: Seq<Stroke>, st: SegState) -> bool {
    &&& 0 <= st.i <= s.len()
    &&& st.c3_starts.len() == s.len()
    &&& well_formed_segments(s, st.segs)
    &&& well_formed_events(s, st.events)
    &&& forall|k: int| 0 <= k < st.segs.len() ==> (#[trigger] st.segs[k]).1 < st.i
    &&& forall|k: int| 0 <= k < st.events.len() ==> (#[trigger] st.events[k]).0 < st.i
    &&& st.segs.len() > 0 ==> !st.first && st.looking_up == !st.segs.last().2
    &&& st.segs.len() == 0 ==> st.first
    &&& st.first ==> st.looking_up && st.segs.len() == 0
}

#[verifier::rlimit(80)]
#[verifier::spinoff_prover]
proof fn lemma_seg_step_inv(s: Seq<Stroke>, enable_case3: bool, enable_case4: bool, st: SegState)
    requires
        machine_inv(s, st),
        s.len() <= usize::MAX,
        0 <= st.i < s.len(),
    ensures
        machine_inv(s, seg_step(s, enable_case3, enable_case4, st)),
        seg_step(s, enable_case3, enable_case4, st).i > st.i,
{
    let i = st.i;
    let up = s[i].is_up;
    let branch_up = st.looking_up && up;
    lemma_seg_choice(s, st.c3_starts, enable_case3, enable_case4, i, true);
    lemma_seg_choice(s, st.c3_starts, enable_case3, enable_case4, i, false);
    let st2 = seg_step(s, enable_case3, enable_case4, st);
    let (found, best, is_c3, base) = seg_choice(
        s,
        st.c3_starts,
        enable_case3,
        enable_case4,
        i,
        branch_up,
    );
    if st2.segs.len() > st.segs.len() {
        if is_c3 {
            lemma_seg_case2(s, base);
        }
        assert(st2.segs == st.segs.push((i as usize, best, up)));
        assert forall|k: int| 0 <= k < st2.segs.len() - 1 implies (#[trigger] st2.segs[k]).1
            < st2.segs[k + 1].0 && st2.segs[k].2 != st2.segs[k + 1].2 by {
            if k < st.segs.len() - 1 {
                assert(st2.segs[k] == st.segs[k] && st2.segs[k + 1] == st.segs[k + 1]);
            } else {
                assert(st2.segs[k] == st.segs[k]);
            }
        }
        assert forall|k: int| 0 <= k < st2.segs.len() implies {
            &&& (#[trigger] st2.segs[k]).0 <= st2.segs[k].1 < s.len()
            &&& s[st2.segs[k].0 as int].is_up == st2.segs[k].2
            &&& s[st2.segs[k].1 as int].is_up == st2.segs[k].2
        } by {
            if k < st.segs.len() {
                assert(st2.segs[k] == st.segs[k]);
            }
        }
        assert forall|k: int| 0 <= k < st2.segs.len() implies (#[trigger] st2.segs[k]).1 < st2.i by {
            if k < st.segs.len() {
                assert(st2.segs[k] == st.segs[k]);
            }
        }
        assert forall|k: int| 0 <= k < st2.events.len() implies {
            &&& (#[trigger] st2.events[k]).1 <= st2.events[k].2 < st2.events[k].0 < s.len()
            &&& s[st2.events[k].0 as int].is_up == st2.events[k].3
            &&& s[st2.events[k].1 as int].is_up != st2.events[k].3
        } by {
            if k < st.events.len() {
                assert(st2.events[k] == st.events[k]);
            }
        }
        assert forall|k: int| 0 <= k < st2.events.len() implies (#[trigger] st2.events[k]).0
            < st2.i by {
            if k < st.events.len() {
                assert(st2.events[k] == st.events[k]);
            }
        }
    }
}

proof fn lemma_seg_run_inv(s: Seq<Stroke>, enable_case3: bool, enable_case4: bool, st: SegState)
    requires
        machine_inv(s, st),
        s.len() <= usize::MAX,
    ensures
        machine_inv(s, seg_run(s, enable_case3, enable_case4, st)),
    decreases s.len() - st.i,
{
    if !(st.i < 0 || st.i >= s.len()) {
        lemma_seg_step_inv(s, enable_case3, enable_case4, st);
        lemma_seg_run_inv(s, enable_case3, enable_case4, seg_step(s, enable_case3, enable_case4, st));
    }
}

proof fn lemma_extend_end(s: Seq<Stroke>, si: int, stop: int, is_up: bool, end: int)
    requires
        0 <= end < s.len(),
        s[end].is_up == is_up,
        end < si,
    ensures
        end <= extend_end(s, si, stop, is_up, end) < s.len(),
        extend_end(s, si, stop, is_up, end) == end || extend_end(s, si, stop, is_up, end) < stop,
        s[extend_end(s, si, stop, is_up, end)].is_up == is_up,
    decreases stop - si,
{
    if si < stop {
        let e2 = if 0 <= si < s.len() && s[si].is_up == is_up && (if is_up {
            s[si].end_price >= s[end].end_price
        } else {
            s[si].end_price <= s[end].end_price
        }) {
            si
        } else {
            end
        };
        lemma_extend_end(s, si + 1, stop, is_up, e2);
    }
}

/// Law: segments are well formed (ordered, in range, direction-consistent, alternating),
/// and case 3 events point back to an earlier opposite base stroke.
pub proof fn lemma_segments_well_formed(s: Seq<Stroke>, enable_case3: bool, enable_case4: bool)
    requires
        s.len() <= usize::MAX,
    ensures
        well_formed_segments(s, segments_spec(s, enable_case3, enable_case4)),
        well_formed_events(s, case3_events_spec(s, enable_case3, enable_case4)),
{
    if s.len() >= 2 {
        let init = seg_init(s);
        assert(machine_inv(s, init));
        lemma_seg_run_inv(s, enable_case3, enable_case4, init);
        let m = seg_machine(s, enable_case3, enable_case4);
        let segs = m.segs;
        let ext = extended_segments(s, segs);
        assert forall|k: int| 0 <= k < ext.len() implies {
            &&& (#[trigger] ext[k]).0 <= ext[k].1 < s.len()
            &&& s[ext[k].0 as int].is_up == ext[k].2
            &&& s[ext[k].1 as int].is_up == ext[k].2
        } by {
            lemma_extend_end(s, segs[k].1 + 1, next_start(s, segs, k), segs[k].2, segs[k].1 as int);
        }
        assert forall|k: int| 0 <= k < ext.len() - 1 implies (#[trigger] ext[k]).1 < ext[k + 1].0
            && ext[k].2 != ext[k + 1].2 by {
            lemma_extend_end(s, segs[k].1 + 1, next_start(s, segs, k), segs[k].2, segs[k].1 as int);
            assert(segs[k].1 < segs[k + 1].0);
        }
    }
}

/// Some segment of `sg` starts at stroke `j` and has direction `up`.
pub open spec fn starts_segment(sg: Seq<(usize, usize, bool)>, j: usize, up: bool) -> bool {
    exists|m: int| 0 <= m < sg.len() && (#[trigger] sg[m]).0 == j && sg[m].2 == up
}

/// Case 3 events come in increasing trigger order, each starts a recorded segment of its
/// own direction, and none is recorded with case 3 off.
spec fn events_inv(st: SegState, enable_case3: bool) -> bool {
    &&& forall|a: int, b: int|
        0 <= a < b < st.events.len() ==> (#[trigger] st.events[a]).0 < (#[trigger] st.events[b]).0
    &&& forall|k: int|
        0 <= k < st.events.len() ==> starts_segment(st.segs, (#[trigger] st.events[k]).0, st.events[k].3)
    &&& !enable_case3 ==> st.events.len() == 0
}

proof fn lemma_events_step(s: Seq<Stroke>, enable_case3: bool, enable_case4: bool, st: SegState)
    requires
        machine_inv(s, st),
        events_inv(st, enable_case3),
        s.len() <= usize::MAX,
        0 <= st.i < s.len(),
    ensures
        events_inv(seg_step(s, enable_case3, enable_case4, st), enable_case3),
{
    let i = st.i;
    let up = s[i].is_up;
    let branch_up = st.looking_up && up;
    let st2 = seg_step(s, enable_case3, enable_case4, st);
    let (found, best, is_c3, base) = seg_choice(
        s,
        st.c3_starts,
        enable_case3,
        enable_case4,
        i,
        branch_up,
    );
    if st2.segs.len() > st.segs.len() {
        assert(st2.segs == st.segs.push((i as usize, best, up)));
        let n = st.segs.len() as int;
        assert(st2.segs[n] == (i as usize, best, up));
        assert forall|k: int| 0 <= k < st2.events.len() implies starts_segment(
            st2.segs,
            (#[trigger] st2.events[k]).0,
            st2.events[k].3,
        ) by {
            if k < st.events.len() {
                assert(st2.events[k] == st.events[k]);
                assert(starts_segment(st.segs, st.events[k].0, st.events[k].3));
                let m = choose|m: int|
                    0 <= m < st.segs.len() && (#[trigger] st.segs[m]).0 == st.events[k].0
                        && st.segs[m].2 == st.events[k].3;
                assert(st2.segs[m] == st.segs[m]);
            } else {
                assert(st2.events[k].0 == i && st2.events[k].3 == up);
            }
        }
        assert forall|a: int, b: int| 0 <= a < b < st2.events.len() implies (
        #[trigger] st2.events[a]).0 < (#[trigger] st2.events[b]).0 by {
            assert(st2.events[a] == st.events[a]);
            if b < st.events.len() {
                assert(st2.events[b] == st.events[b]);
            } else {
                assert(st2.events[b].0 == i);
            }
        }
    }
}

proof fn lemma_events_run(s: Seq<Stroke>, enable_case3: bool, enable_case4: bool, st: SegState)
    requires
        machine_inv(s, st),
        events_inv(st, enable_case3),
        s.len() <= usize::MAX,
    ensures
        events_inv(seg_run(s, enable_case3, enable_case4, st), enable_case3),
    decreases s.len() - st.i,
{
    if !(st.i < 0 || st.i >= s.len()) {
        lemma_seg_step_inv(s, enable_case3, enable_case4, st);
        lemma_events_step(s, enable_case3, enable_case4, st);
        lemma_events_run(s, enable_case3, enable_case4, seg_step(s, enable_case3, enable_case4, st));
    }
}

/// Law: case 3 events are empty when case 3 is off, come in strictly increasing trigger
/// order, point back to an earlier opposite base, and each trigger stroke starts a segment
/// of the same direction in the segmentation built with the same switches.
pub proof fn lemma_case3_events_start_segments(
    s: Seq<Stroke>,
    enable_case3: bool,
    enable_case4: bool,
)
    requires
        s.len() <= usize::MAX,
    ensures
        ({
            let ev = case3_events_spec(s, enable_case3, enable_case4);
            let sg = segments_spec(s, enable_case3, enable_case4);
            &&& !enable_case3 ==> ev.len() == 0
            &&& forall|a: int, b: int| 0 <= a < b < ev.len() ==> (#[trigger] ev[a]).0 < (#[trigger] ev[b]).0
            &&& well_formed_events(s, ev)
            &&& forall|k: int|
                0 <= k < ev.len() ==> starts_segment(sg, (#[trigger] ev[k]).0, ev[k].3)
        }),
{
    lemma_segments_well_formed(s, enable_case3, enable_case4);
    if s.len() >= 2 {
        let init = seg_init(s);
        assert(machine_inv(s, init));
        lemma_events_run(s, enable_case3, enable_case4, init);
        let m = seg_machine(s, enable_case3, enable_case4);
        let ev = m.events;
        let sg = segments_spec(s, enable_case3, enable_case4);
        assert(sg == extended_segments(s, m.segs));
        assert forall|k: int| 0 <= k < ev.len() implies starts_segment(
            sg,
            (#[trigger] ev[k]).0,
            ev[k].3,
        ) by {
            assert(starts_segment(m.segs, ev[k].0, ev[k].3));
            let j = choose|j: int|
                0 <= j < m.segs.len() && (#[trigger] m.segs[j]).0 == ev[k].0 && m.segs[j].2 == ev[k].3;
            assert(sg[j].0 == m.segs[j].0 && sg[j].2 == m.segs[j].2);
        }
    }
}

/// Law: at the superior level, events are empty below two big segments or with case 3
/// off, come in increasing trigger order, point from a trigger big segment back to an
/// earlier big segment of the opposite direction, and each trigger starts a superior
/// segment of its own direction.
pub proof fn lemma_superior_events_start_segments(
    strokes: Seq<Stroke>,
    segs: Seq<(usize, usize, bool)>,
    bigs: Seq<(usize, usize, bool)>,
    enable_case3: bool,
    enable_case4: bool,
)
    requires
        bigs.len() <= usize::MAX,
    ensures
        ({
            let v = project_big_segments(strokes, segs, bigs);
            let ev = case3_events_spec(v, enable_case3, enable_case4);
            let sp = segments_spec(v, enable_case3, enable_case4);
            &&& (bigs.len() < 2 || !enable_case3) ==> ev.len() == 0
            &&& forall|a: int, b: int| 0 <= a < b < ev.len() ==> (#[trigger] ev[a]).0 < (#[trigger] ev[b]).0
            &&& forall|k: int|
                0 <= k < ev.len() ==> {
                    &&& (#[trigger] ev[k]).1 <= ev[k].2 < ev[k].0 < bigs.len()
                    &&& bigs[ev[k].0 as int].2 == ev[k].3
                    &&& bigs[ev[k].1 as int].2 != ev[k].3
                }
            &&& forall|k: int|
                0 <= k < ev.len() ==> starts_segment(sp, (#[trigger] ev[k]).0, ev[k].3)
        }),
{
    let v = project_big_segments(strokes, segs, bigs);
    assert(v.len() == bigs.len());
    lemma_case3_events_start_segments(v, enable_case3, enable_case4);
    let ev = case3_events_spec(v, enable_case3, enable_case4);
    assert forall|k: int| 0 <= k < ev.len() implies {
        &&& (#[trigger] ev[k]).1 <= ev[k].2 < ev[k].0 < bigs.len()
        &&& bigs[ev[k].0 as int].2 == ev[k].3
        &&& bigs[ev[k].1 as int].2 != ev[k].3
    } by {
        assert(v[ev[k].0 as int].is_up == bigs[ev[k].0 as int].2);
        assert(v[ev[k].1 as int].is_up == bigs[ev[k].1 as int].2);
    }
}

fn extend_end_exec(strokes: &[Stroke], from: usize, stop: usize, is_up: bool, end: usize) -> (r: usize)
    requires
        end < strokes.len(),
        strokes@[end as int].is_up == is_up,
        end < from,
    ensures
        r as int == extend_end(strokes@, from as int, stop as int, is_up, end as int),
{
    let mut si = from;
    let mut e = end;
    while si < stop
        invariant
            e < strokes.len(),
            strokes@[e as int].is_up == is_up,
            extend_end(strokes@, from as int, stop as int, is_up, end as int) == extend_end(
                strokes@,
                si as int,
                stop as int,
                is_up,
                e as int,
            ),
        decreases stop - si,
    {
        if si < strokes.len() && strokes[si].is_up == is_up {
            let cand_price = strokes[si].end_price;
            if is_up && cand_price >= strokes[e].end_price {
                e = si;
            } else if !is_up && cand_price <= strokes[e].end_price {
                e = si;
            }
        }
        si = si + 1;
    }
    e
}

/// Builds segments from strokes with every case (2, 3 and 4) enabled.
pub fn process_segments(strokes: &[Stroke]) -> (r: Vec<(usize, usize, bool)>)
    ensures
        r@ == segments_spec(strokes@, true, true),
{
    process_segments_with_cases(strokes, true, true)
}

/// Builds segments from strokes; case 3 and case 4 candidates can be switched off.
pub fn process_segments_with_cases(strokes: &[Stroke], enable_case3: bool, enable_case4: bool) -> (r:
    Vec<(usize, usize, bool)>)
    ensures
        r@ == segments_spec(strokes@, enable_case3, enable_case4),
{
    let count = strokes.len();
    if count < 2 {
        return Vec::new();
    }
    let (segments, _events) = run_segment_machine(strokes, enable_case3, enable_case4);
    proof {
        let init = seg_init(strokes@);
        assert(machine_inv(strokes@, init));
        lemma_seg_run_inv(strokes@, enable_case3, enable_case4, init);
    }
    let ghost segs = segments@;
    let mut out: Vec<(usize, usize, bool)> = Vec::new();
    let n = segments.len();
    let mut k: usize = 0;
    while k < n
        invariant
            n == segments.len(),
            segs == segments@,
            count == strokes.len(),
            well_formed_segments(strokes@, segs),
            k <= n,
            out.len() == k,
            forall|m: int| 0 <= m < k ==> out@[m] == extended_segments(strokes@, segs)[m],
        decreases n - k,
    {
        let (start_si, end_si, is_up) = segments[k];
        let next_start_si = if k + 1 < n {
            segments[k + 1].0
        } else {
            count
        };
        let e = extend_end_exec(strokes, end_si + 1, next_start_si, is_up, end_si);
        out.push((start_si, e, is_up));
        k = k + 1;
    }
    assert(out@ =~= extended_segments(strokes@, segs));
    out
}

/// Case 3 events of the segment builder (all cases enabled):
/// (trigger stroke, base stroke, base segment end, direction).
pub fn collect_segment_case3_events(strokes: &[Stroke]) -> (r: Vec<(usize, usize, usize, bool)>)
    ensures
        r@ == case3_events_spec(strokes@, true, true),
{
    collect_segment_case3_events_with_cases(strokes, true, true)
}

/// Case 3 events of the segment builder with the same switches as
/// [`process_segments_with_cases`].
pub fn collect_segment_case3_events_with_cases(
    strokes: &[Stroke],
    enable_case3: bool,
    enable_case4: bool,
) -> (r: Vec<(usize, usize, usize, bool)>)
    ensures
        r@ == case3_events_spec(strokes@, enable_case3, enable_case4),
{
    if strokes.len() < 2 {
        return Vec::new();
    }
    let (_segments, events) = run_segment_machine(strokes, enable_case3, enable_case4);
    events
}

// ===== Higher levels by projection =====

/// Each segment seen as one virtual stroke: its direction, its first stroke's start price
/// and its last stroke's end price (bars are not used by the segment algorithm).
pub open spec fn project_segments(s: Seq<Stroke>, segs: Seq<(usize, usize, bool)>) -> Seq<Stroke> {
    Seq::new(
        segs.len(),
        |k: int|
            Stroke {
                is_up: segs[k].2,
                start_price: s[segs[k].0 as int].start_price,
                end_price: s[segs[k].1 as int].end_price,
                start_bar: 0,
                end_bar: 0,
            },
    )
}

/// Every segment refers to strokes that exist.
pub open spec fn segs_in_range(n: nat, segs: Seq<(usize, usize, bool)>) -> bool {
    forall|k: int| 0 <= k < segs.len() ==> (#[trigger] segs[k]).0 < n && segs[k].1 < n
}

/// Every big segment refers to segments that exist, and their outer strokes exist.
pub open spec fn bigs_in_range(
    s: Seq<Stroke>,
    segs: Seq<(usize, usize, bool)>,
    bigs: Seq<(usize, usize, bool)>,
) -> bool {
    forall|k: int|
        0 <= k < bigs.len() ==> (#[trigger] bigs[k]).0 < segs.len() && bigs[k].1 < segs.len()
            && segs[bigs[k].0 as int].0 < s.len() && segs[bigs[k].1 as int].1 < s.len()
}

/// Superior-level virtual strokes: big segments resolved through segments to strokes.
pub open spec fn project_big_segments(
    s: Seq<Stroke>,
    segs: Seq<(usize, usize, bool)>,
    bigs: Seq<(usize, usize, bool)>,
) -> Seq<Stroke> {
    project_segments(project_segments(s, segs), bigs)
}

/// Every stroke is its own segment.
pub open spec fn one_per_stroke(s: Seq<Stroke>, segs: Seq<(usize, usize, bool)>) -> bool {
    &&& segs.len() == s.len()
    &&& forall|k: int| 0 <= k < segs.len() ==> #[trigger] segs[k] == (k as usize, k as usize, s[k].is_up)
}

/// Law: with one stroke per segment and one segment per big segment, the superior level
/// sees the same virtual strokes as the big segment level, so both give the same segments.
pub proof fn lemma_superior_matches_big_on_one_per_stroke(
    s: Seq<Stroke>,
    segs: Seq<(usize, usize, bool)>,
    bigs: Seq<(usize, usize, bool)>,
    enable_case3: bool,
    enable_case4: bool,
)
    requires
        s.len() <= usize::MAX,
        one_per_stroke(s, segs),
        bigs == segs,
    ensures
        segments_spec(project_big_segments(s, segs, bigs), enable_case3, enable_case4)
            == segments_spec(project_segments(s, segs), enable_case3, enable_case4),
{
    let ps = project_segments(s, segs);
    let pb = project_big_segments(s, segs, bigs);
    assert forall|k: int| 0 <= k < pb.len() implies pb[k] == ps[k] by {
        assert(segs[k] == (k as usize, k as usize, s[k].is_up));
        assert(ps[k].is_up == s[k].is_up);
    }
    assert(pb =~= ps);
}

pub(crate) fn project_segments_exec(strokes: &[Stroke], segs: &[(usize, usize, bool)]) -> (r: Vec<Stroke>)
    requires
        segs_in_range(strokes@.len(), segs@),
    ensures
        r@ == project_segments(strokes@, segs@),
{
    let mut out: Vec<Stroke> = Vec::new();
    let mut k: usize = 0;
    while k < segs.len()
        invariant
            segs_in_range(strokes@.len(), segs@),
            k <= segs.len(),
            out.len() == k,
            forall|m: int| 0 <= m < k ==> out@[m] == project_segments(strokes@, segs@)[m],
        decreases segs.len() - k,
    {
        let (si, ei, is_up) = segs[k];
        out.push(
            Stroke {
                is_up,
                start_price: strokes[si].start_price,
                end_price: strokes[ei].end_price,
                start_bar: 0,
                end_bar: 0,
            },
        );
        k = k + 1;
    }
    assert(out@ =~= project_segments(strokes@, segs@));
    out
}

pub(crate) fn project_big_segments_exec(
    strokes: &[Stroke],
    segs: &[(usize, usize, bool)],
    bigs: &[(usize, usize, bool)],
) -> (r: Vec<Stroke>)
    requires
        bigs_in_range(strokes@, segs@, bigs@),
    ensures
        r@ == project_big_segments(strokes@, segs@, bigs@),
{
    let mut out: Vec<Stroke> = Vec::new();
    let mut k: usize = 0;
    while k < bigs.len()
        invariant
            bigs_in_range(strokes@, segs@, bigs@),
            k <= bigs.len(),
            out.len() == k,
            forall|m: int|
                0 <= m < k ==> out@[m] == project_big_segments(strokes@, segs@, bigs@)[m],
        decreases bigs.len() - k,
    {
        let (si, ei, is_up) = bigs[k];
        let seg_s = segs[si];
        let seg_e = segs[ei];
        out.push(
            Stroke {
                is_up,
                start_price: strokes[seg_s.0].start_price,
                end_price: strokes[seg_e.1].end_price,
                start_bar: 0,
                end_bar: 0,
            },
        );
        k = k + 1;
    }
    assert(out@ =~= project_big_segments(strokes@, segs@, bigs@));
    out
}

/// Big segments with every case enabled.
pub fn process_big_segments(strokes: &[Stroke], segs: &[(usize, usize, bool)]) -> (r: Vec<
    (usize, usize, bool),
>)
    requires
        segs.len() >= 2 ==> segs_in_range(strokes@.len(), segs@),
    ensures
        r@ == segments_spec(project_segments(strokes@, segs@), true, true),
{
    process_big_segments_with_cases(strokes, segs, true, true)
}

/// Big segments: each segment projected to a virtual stroke, then the segment algorithm.
pub fn process_big_segments_with_cases(
    strokes: &[Stroke],
    segs: &[(usize, usize, bool)],
    enable_case3: bool,
    enable_case4: bool,
) -> (r: Vec<(usize, usize, bool)>)
    requires
        segs.len() >= 2 ==> segs_in_range(strokes@.len(), segs@),
    ensures
        r@ == segments_spec(project_segments(strokes@, segs@), enable_case3, enable_case4),
{
    if segs.len() < 2 {
        return Vec::new();
    }
    let projected = project_segments_exec(strokes, segs);
    process_segments_with_cases(&projected, enable_case3, enable_case4)
}

/// Case 3 events of the superior-segment builder, all cases enabled.
pub fn collect_superior_case3_events(
    strokes: &[Stroke],
    segs: &[(usize, usize, bool)],
    bigs: &[(usize, usize, bool)],
) -> (r: Vec<(usize, usize, usize, bool)>)
    requires
        bigs.len() >= 2 ==> bigs_in_range(strokes@, segs@, bigs@),
    ensures
        r@ == case3_events_spec(project_big_segments(strokes@, segs@, bigs@), true, true),
{
    collect_superior_case3_events_with_cases(strokes, segs, bigs, true, true)
}

/// Case 3 events of the superior-segment builder (big segments projected to strokes).
pub fn collect_superior_case3_events_with_cases(
    strokes: &[Stroke],
    segs: &[(usize, usize, bool)],
    bigs: &[(usize, usize, bool)],
    enable_case3: bool,
    enable_case4: bool,
) -> (r: Vec<(usize, usize, usize, bool)>)
    requires
        bigs.len() >= 2 ==> bigs_in_range(strokes@, segs@, bigs@),
    ensures
        r@ == case3_events_spec(
            project_big_segments(strokes@, segs@, bigs@),
            enable_case3,
            enable_case4,
        ),
{
    if bigs.len() < 2 {
        return Vec::new();
    }
    let projected = project_big_segments_exec(strokes, segs, bigs);
    collect_segment_case3_events_with_cases(&projected, enable_case3, enable_case4)
}

/// Superior segments with every case enabled.
pub fn process_superior_segments(
    strokes: &[Stroke],
    segs: &[(usize, usize, bool)],
    bigs: &[(usize, usize, bool)],
) -> (r: Vec<(usize, usize, bool)>)
    requires
        bigs.len() >= 2 ==> bigs_in_range(strokes@, segs@, bigs@),
    ensures
        r@ == segments_spec(project_big_segments(strokes@, segs@, bigs@), true, true),
{
    process_superior_segments_with_cases(strokes, segs, bigs, true, true)
}

/// Superior segments: big segments projected to virtual strokes, then the segment
/// algorithm (cases 2, 3, 4 and end point extension).
pub fn process_superior_segments_with_cases(
    strokes: &[Stroke],
    segs: &[(usize, usize, bool)],
    bigs: &[(usize, usize, bool)],
    enable_case3: bool,
    enable_case4: bool,
) -> (r: Vec<(usize, usize, bool)>)
    requires
        bigs.len() >= 2 ==> bigs_in_range(strokes@, segs@, bigs@),
    ensures
        r@ == segments_spec(
            project_big_segments(strokes@, segs@, bigs@),
            enable_case3,
            enable_case4,
        ),
{
    if bigs.len() < 2 {
        return Vec::new();
    }
    let projected = project_big_segments_exec(strokes, segs, bigs);
    process_segments_with_cases(&projected, enable_case3, enable_case4)
}

} // verus!
