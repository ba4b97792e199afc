use vstd::prelude::*;

use crate::types::Stroke;

verus! {

/// Second buy / second sell marker.
#[derive(Clone, Copy, Debug, PartialEq, Eq, Structural)]
pub struct SecondMarker {
    pub bar_index: usize,
    pub price: i64,
    /// true = second buy, false = second sell
    pub is_buy: bool,
}

/// End point (bar, price) of big segment `idx`, resolved through segments to strokes.
pub open spec fn resolve_end_spec(
    idx: int,
    bigs: Seq<(usize, usize, bool)>,
    segs: Seq<(usize, usize, bool)>,
    strokes: Seq<Stroke>,
) -> Option<(usize, i64)> {
    if 0 <= idx < bigs.len() && bigs[idx].1 < segs.len() && segs[bigs[idx].1 as int].1
        < strokes.len() {
        let st = strokes[segs[bigs[idx].1 as int].1 as int];
        Some((st.end_bar, st.end_price))
    } else {
        None
    }
}

/// Resolves the end point of a big segment: big segment -> last segment -> last stroke.
pub fn resolve_sup_end_point(
    sup_end_big_idx: usize,
    bigs: &[(usize, usize, bool)],
    segs: &[(usize, usize, bool)],
    strokes: &[Stroke],
) -> (r: Option<(usize, i64)>)
    ensures
        r == resolve_end_spec(sup_end_big_idx as int, bigs@, segs@, strokes@),
        r is Some ==> sup_end_big_idx < bigs.len(),
{
    if sup_end_big_idx >= bigs.len() {
        return None;
    }
    let big = bigs[sup_end_big_idx];
    if big.1 >= segs.len() {
        return None;
    }
    let seg = segs[big.1];
    if seg.1 >= strokes.len() {
        return None;
    }
    let st = strokes[seg.1];
    Some((st.end_bar, st.end_price))
}

/// Nearest big segment of direction `dir` strictly before `ei`.
pub open spec fn last_dir_before(bigs: Seq<(usize, usize, bool)>, ei: int, dir: bool) -> Option<int>
    decreases ei,
{
    if ei <= 0 || ei > bigs.len() {
        None
    } else if bigs[ei - 1].2 == dir {
        Some(ei - 1)
    } else {
        last_dir_before(bigs, ei - 1, dir)
    }
}

/// First big segment of direction `dir` at or after `k`.
pub open spec fn first_dir_from(bigs: Seq<(usize, usize, bool)>, k: int, dir: bool) -> Option<int>
    decreases bigs.len() - k,
{
    if k < 0 || k >= bigs.len() {
        None
    } else if bigs[k].2 == dir {
        Some(k)
    } else {
        first_dir_from(bigs, k + 1, dir)
    }
}

/// The second-buy (`buy`) or second-sell marker produced by one superior segment:
/// B = its end, A = nearest earlier big segment end of the opposite direction,
/// C = next such end after B (must pass A), D = next end of B's direction after C
/// (must not pass B).
pub open spec fn second_candidate(
    strokes: Seq<Stroke>,
    segs: Seq<(usize, usize, bool)>,
    bigs: Seq<(usize, usize, bool)>,
    sup: (usize, usize, bool),
    buy: bool,
) -> Option<SecondMarker> {
    let ei = sup.1 as int;
    if sup.2 == buy {
        None
    } else {
        match resolve_end_spec(ei, bigs, segs, strokes) {
            None => None,
            Some((_b_bar, b_price)) => match last_dir_before(bigs, ei, buy) {
                None => None,
                Some(ka) => match resolve_end_spec(ka, bigs, segs, strokes) {
                    None => None,
                    Some((_a_bar, a_price)) => match first_dir_from(bigs, ei + 1, buy) {
                        None => None,
                        Some(kc) => match resolve_end_spec(kc, bigs, segs, strokes) {
                            None => None,
                            Some((_c_bar, c_price)) => if (buy && c_price > a_price) || (!buy
                                && c_price < a_price) {
                                match first_dir_from(bigs, kc + 1, !buy) {
                                    None => None,
                                    Some(kd) => match resolve_end_spec(kd, bigs, segs, strokes) {
                                        None => None,
                                        Some((bar, price)) => if (buy && price > b_price) || (!buy
                                            && price < b_price) {
                                            Some(
                                                SecondMarker { bar_index: bar, price, is_buy: buy },
                                            )
                                        } else {
                                            None
                                        },
                                    },
                                }
                            } else {
                                None
                            },
                        },
                    },
                },
            },
        }
    }
}

pub open spec fn push_unique(ms: Seq<SecondMarker>, m: SecondMarker) -> Seq<SecondMarker> {
    if ms.contains(m) {
        ms
    } else {
        ms.push(m)
    }
}

/// Markers of the first `n` superior segments, without repeats.
pub open spec fn second_markers_upto(
    strokes: Seq<Stroke>,
    segs: Seq<(usize, usize, bool)>,
    bigs: Seq<(usize, usize, bool)>,
    sups: Seq<(usize, usize, bool)>,
    buy: bool,
    n: int,
) -> Seq<SecondMarker>
    decreases n,
{
    if n <= 0 || n > sups.len() {
        Seq::empty()
    } else {
        let ms = second_markers_upto(strokes, segs, bigs, sups, buy, n - 1);
        match second_candidate(strokes, segs, bigs, sups[n - 1], buy) {
            Some(m) => push_unique(ms, m),
            None => ms,
        }
    }
}

pub open spec fn second_markers_spec(
    strokes: Seq<Stroke>,
    segs: Seq<(usize, usize, bool)>,
    bigs: Seq<(usize, usize, bool)>,
    sups: Seq<(usize, usize, bool)>,
    buy: bool,
) -> Seq<SecondMarker> {
    if sups.len() < 3 {
        Seq::empty()
    } else {
        second_markers_upto(strokes, segs, bigs, sups, buy, sups.len() as int)
    }
}

fn contains_marker(ms: &Vec<SecondMarker>, m: SecondMarker) -> (r: bool)
    ensures
        r == ms@.contains(m),
{
    let mut k: usize = 0;
    while k < ms.len()
        invariant
            k <= ms.len(),
            forall|j: int| 0 <= j < k ==> ms@[j] != m,
        decreases ms.len() - k,
    {
        if ms[k] == m {
            return true;
        }
        k = k + 1;
    }
    false
}

fn last_dir_before_exec(bigs: &[(usize, usize, bool)], ei: usize, dir: bool) -> (r: Option<usize>)
    requires
        ei <= bigs.len(),
    ensures
        match r {
            Some(k) => last_dir_before(bigs@, ei as int, dir) == Some(k as int),
            None => last_dir_before(bigs@, ei as int, dir) is None,
        },
{
    let mut k: usize = ei;
    while k > 0
        invariant
            k <= ei <= bigs.len(),
            last_dir_before(bigs@, ei as int, dir) == last_dir_before(bigs@, k as int, dir),
        decreases k,
    {
        if bigs[k - 1].2 == dir {
            return Some(k - 1);
        }
        k = k - 1;
    }
    None
}

fn first_dir_from_exec(bigs: &[(usize, usize, bool)], from: usize, dir: bool) -> (r: Option<usize>)
    ensures
        match r {
            Some(k) => first_dir_from(bigs@, from as int, dir) == Some(k as int),
            None => first_dir_from(bigs@, from as int, dir) is None,
        },
        r matches Some(k) ==> k < bigs.len(),
{
    let mut k: usize = from;
    while k < bigs.len()
        invariant
            first_dir_from(bigs@, from as int, dir) == first_dir_from(bigs@, k as int, dir),
        decreases bigs.len() - k,
    {
        if bigs[k].2 == dir {
            return Some(k);
        }
        k = k + 1;
    }
    None
}

fn second_candidate_exec(
    strokes: &[Stroke],
    segs: &[(usize, usize, bool)],
    bigs: &[(usize, usize, bool)],
    sup: (usize, usize, bool),
    buy: bool,
) -> (r: Option<SecondMarker>)
    ensures
        r == second_candidate(strokes@, segs@, bigs@, sup, buy),
{
    let ei = sup.1;
    if sup.2 == buy {
        return None;
    }
    let b_price = match resolve_sup_end_point(ei, bigs, segs, strokes) {
        Some((_, p)) => p,
        None => {
            return None;
        },
    };
    let ka = match last_dir_before_exec(bigs, ei, buy) {
        Some(k) => k,
        None => {
            return None;
        },
    };
    let a_price = match resolve_sup_end_point(ka, bigs, segs, strokes) {
        Some((_, p)) => p,
        None => {
            return None;
        },
    };
    let kc = match first_dir_from_exec(bigs, ei + 1, buy) {
        Some(k) => k,
        None => {
            return None;
        },
    };
    let c_price = match resolve_sup_end_point(kc, bigs, segs, strokes) {
        Some((_, p)) => p,
        None => {
            return None;
        },
    };
    if !((buy && c_price > a_price) || (!buy && c_price < a_price)) {
        return None;
    }
    let kd = match first_dir_from_exec(bigs, kc + 1, !buy) {
        Some(k) => k,
        None => {
            return None;
        },
    };
    match resolve_sup_end_point(kd, bigs, segs, strokes) {
        Some((bar, price)) => {
            if (buy && price > b_price) || (!buy && price < b_price) {
                Some(SecondMarker { bar_index: bar, price, is_buy: buy })
            } else {
                None
            }
        },
        None => None,
    }
}

fn detect_second_markers(
    strokes: &[Stroke],
    segs: &[(usize, usize, bool)],
    bigs: &[(usize, usize, bool)],
    sups: &[(usize, usize, bool)],
    buy: bool,
) -> (markers: Vec<SecondMarker>)
    ensures
        markers@ == second_markers_spec(strokes@, segs@, bigs@, sups@, buy),
{
    let mut markers: Vec<SecondMarker> = Vec::new();
    if sups.len() < 3 {
        return markers;
    }
    let mut n: usize = 0;
    while n < sups.len()
        invariant
            n <= sups.len(),
            markers@ == second_markers_upto(strokes@, segs@, bigs@, sups@, buy, n as int),
        decreases sups.len() - n,
    {
        match second_candidate_exec(strokes, segs, bigs, sups[n], buy) {
            Some(m) => {
                if !contains_marker(&markers, m) {
                    markers.push(m);
                }
            },
            None => {},
        }
        n = n + 1;
    }
    markers
}

/// Second buy markers: for each down superior segment with end B, the nearest earlier up
/// big segment end A, the next up big segment end C > A after B, and the next down big
/// segment end D > B after C; the marker sits on D.
pub fn detect_second_buy_markers(
    strokes: &[Stroke],
    segs: &[(usize, usize, bool)],
    bigs: &[(usize, usize, bool)],
    sups: &[(usize, usize, bool)],
) -> (markers: Vec<SecondMarker>)
    ensures
        markers@ == second_markers_spec(strokes@, segs@, bigs@, sups@, true),
{
    detect_second_markers(strokes, segs, bigs, sups, true)
}

/// Second sell markers: the mirror of [`detect_second_buy_markers`].
pub fn detect_second_sell_markers(
    strokes: &[Stroke],
    segs: &[(usize, usize, bool)],
    bigs: &[(usize, usize, bool)],
    sups: &[(usize, usize, bool)],
) -> (markers: Vec<SecondMarker>)
    ensures
        markers@ == second_markers_spec(strokes@, segs@, bigs@, sups@, false),
{
    detect_second_markers(strokes, segs, bigs, sups, false)
}

/// No marker occurs twice.
pub open spec fn no_repeats(ms: Seq<SecondMarker>) -> bool {
    forall|a: int, b: int| 0 <= a < b < ms.len() ==> ms[a] != ms[b]
}

proof fn lemma_second_markers_upto(
    strokes: Seq<Stroke>,
    segs: Seq<(usize, usize, bool)>,
    bigs: Seq<(usize, usize, bool)>,
    sups: Seq<(usize, usize, bool)>,
    buy: bool,
    n: int,
)
    ensures
        no_repeats(second_markers_upto(strokes, segs, bigs, sups, buy, n)),
        forall|k: int|
            0 <= k < second_markers_upto(strokes, segs, bigs, sups, buy, n).len() ==> (
            #[trigger] second_markers_upto(strokes, segs, bigs, sups, buy, n)[k]).is_buy == buy,
    decreases n,
{
    if !(n <= 0 || n > sups.len()) {
        lemma_second_markers_upto(strokes, segs, bigs, sups, buy, n - 1);
        let ms = second_markers_upto(strokes, segs, bigs, sups, buy, n - 1);
        match second_candidate(strokes, segs, bigs, sups[n - 1], buy) {
            Some(m) => {
                if !ms.contains(m) {
                    let r = ms.push(m);
                    assert forall|a: int, b: int| 0 <= a < b < r.len() implies r[a] != r[b] by {
                        if b == r.len() - 1 {
                            assert(r[a] == ms[a]);
                        } else {
                            assert(r[a] == ms[a] && r[b] == ms[b]);
                        }
                    }
                    assert forall|k: int| 0 <= k < r.len() implies (#[trigger] r[k]).is_buy
                        == buy by {
                        if k < ms.len() {
                            assert(r[k] == ms[k]);
                        }
                    }
                }
            },
            None => {},
        }
    }
}

/// Law: second markers never repeat, and carry the requested buy/sell side.
pub proof fn lemma_second_markers(
    strokes: Seq<Stroke>,
    segs: Seq<(usize, usize, bool)>,
    bigs: Seq<(usize, usize, bool)>,
    sups: Seq<(usize, usize, bool)>,
    buy: bool,
)
    ensures
        no_repeats(second_markers_spec(strokes, segs, bigs, sups, buy)),
        forall|k: int|
            0 <= k < second_markers_spec(strokes, segs, bigs, sups, buy).len() ==> (
            #[trigger] second_markers_spec(strokes, segs, bigs, sups, buy)[k]).is_buy == buy,
{
    if sups.len() >= 3 {
        lemma_second_markers_upto(strokes, segs, bigs, sups, buy, sups.len() as int);
    }
}

} // verus!
