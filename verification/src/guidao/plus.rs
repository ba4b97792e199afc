//! 2+N buy and sell markers at big segment level.
//!
//! Buy side: after a down superior segment ends, the first case 1 lower-band point of the
//! big segments at or after its end locates a triple bottom; its third bottom F is marked
//! 2+1 buy when the first up big segment after the end (C) ends above F. Later down big
//! segments whose low lies below min(C, next up end) and above the superior end price,
//! before the next down superior segment ends, are marked 2+2, 2+3, ... The sell side is
//! the mirror image.

use vstd::prelude::*;

use crate::candles::max_i64;
use crate::candles::min_i64;
use crate::guidao::BandPoint;
use crate::guidao::StrokeForTracking;
use crate::markers::resolve_end_spec;
use crate::markers::resolve_sup_end_point;
use crate::markers::SecondMarker;
use crate::zhongshu::BigSegThirdMarker;
use crate::types::Stroke;

verus! {

/// A 2+N buy or sell marker.
#[derive(Debug, Clone, Copy, PartialEq, Eq, Structural)]
pub struct SecondPlusOneMarker {
    pub bar_index: usize,
    pub price: i64,
    /// true = 2+N buy, false = 2+N sell
    pub is_buy: bool,
    /// N: 1 for 2+1, 2 for 2+2, ...
    pub order: u32,
}

/// Bar of the third leg of the first triple pattern, from leg `i` on, whose first leg is
/// the band point `bp`: rising bottoms when `bottoms`, falling tops otherwise.
/// `usize::MAX` when there is none.
pub open spec fn third_leg_scan(bp: BandPoint, legs: Seq<StrokeForTracking>, bottoms: bool, i: int) -> usize
    decreases legs.len() - i,
{
    if i < 2 || i >= legs.len() {
        usize::MAX
    } else {
        let first = legs[i - 2];
        let second = legs[i - 1];
        let third = legs[i];
        let pattern = if bottoms {
            third.low > first.low && second.low > first.low
        } else {
            third.high < first.high && second.high < first.high
        };
        let at_point = first.bar_index == bp.bar_index && (if bottoms {
            first.low
        } else {
            first.high
        }) == bp.value;
        if pattern && at_point {
            third.bar_index
        } else {
            third_leg_scan(bp, legs, bottoms, i + 1)
        }
    }
}

fn third_leg_exec(bp: &BandPoint, legs: &[StrokeForTracking], bottoms: bool) -> (r: usize)
    ensures
        r == third_leg_scan(*bp, legs@, bottoms, 2),
{
    if legs.len() < 3 {
        return usize::MAX;
    }
    let mut i: usize = 2;
    while i < legs.len()
        invariant
            2 <= i <= legs.len(),
            third_leg_scan(*bp, legs@, bottoms, 2) == third_leg_scan(*bp, legs@, bottoms, i as int),
        decreases legs.len() - i,
    {
        let first = legs[i - 2];
        let second = legs[i - 1];
        let third = legs[i];
        let pattern = if bottoms {
            third.low > first.low && second.low > first.low
        } else {
            third.high < first.high && second.high < first.high
        };
        let first_v = if bottoms {
            first.low
        } else {
            first.high
        };
        if pattern && first.bar_index == bp.bar_index && first_v == bp.value {
            return third.bar_index;
        }
        i = i + 1;
    }
    usize::MAX
}

/// Bar of the third down leg of the triple bottom that starts at the case 1 point `bp`
/// (`usize::MAX` when none does).
pub fn find_case1_third_seg_bar(bp: &BandPoint, seg_down: &[StrokeForTracking]) -> (r: usize)
    ensures
        r == third_leg_scan(*bp, seg_down@, true, 2),
{
    third_leg_exec(bp, seg_down, true)
}

/// Bar of the third up leg of the triple top that starts at the case 1 point `bp`
/// (`usize::MAX` when none does).
pub fn find_case1_third_up_seg_bar(bp: &BandPoint, seg_up: &[StrokeForTracking]) -> (r: usize)
    ensures
        r == third_leg_scan(*bp, seg_up@, false, 2),
{
    third_leg_exec(bp, seg_up, false)
}

// ===== Searches =====

/// First band point, from `i` on, at or after bar `bar`.
pub open spec fn first_point_from(pts: Seq<BandPoint>, bar: usize, i: int) -> Option<BandPoint>
    decreases pts.len() - i,
{
    if i < 0 || i >= pts.len() {
        None
    } else if pts[i].bar_index >= bar {
        Some(pts[i])
    } else {
        first_point_from(pts, bar, i + 1)
    }
}

/// End point of the first superior segment of direction `dir`, from `i` on (`None` when
/// there is none or it does not resolve).
pub open spec fn next_sup_end(
    sups: Seq<(usize, usize, bool)>,
    bigs: Seq<(usize, usize, bool)>,
    segs: Seq<(usize, usize, bool)>,
    strokes: Seq<Stroke>,
    dir: bool,
    i: int,
) -> Option<(usize, i64)>
    decreases sups.len() - i,
{
    if i < 0 || i >= sups.len() {
        None
    } else if sups[i].2 == dir {
        resolve_end_spec(sups[i].1 as int, bigs, segs, strokes)
    } else {
        next_sup_end(sups, bigs, segs, strokes, dir, i + 1)
    }
}

/// First leg, from `i` on, anchored at bar `bar`.
pub open spec fn leg_at_bar(legs: Seq<StrokeForTracking>, bar: usize, i: int) -> Option<StrokeForTracking>
    decreases legs.len() - i,
{
    if i < 0 || i >= legs.len() {
        None
    } else if legs[i].bar_index == bar {
        Some(legs[i])
    } else {
        leg_at_bar(legs, bar, i + 1)
    }
}

/// The leg after bar `bar` (strictly) that comes `skip` places after the first such one,
/// searching from `i` on.
pub open spec fn leg_after(legs: Seq<StrokeForTracking>, bar: usize, skip: nat, i: int) -> Option<
    StrokeForTracking,
>
    decreases legs.len() - i,
{
    if i < 0 || i >= legs.len() {
        None
    } else if legs[i].bar_index > bar {
        if skip == 0 {
            Some(legs[i])
        } else {
            leg_after(legs, bar, (skip - 1) as nat, i + 1)
        }
    } else {
        leg_after(legs, bar, skip, i + 1)
    }
}

/// 2+2, 2+3, ... markers among legs `i..`: legs after `third_bar`, before the stop bar,
/// whose low (buy) lies strictly between the end price `d` and the reference `r`, or whose
/// high (sell) lies strictly between `r` and `d`; numbered from `order`.
pub open spec fn follow_on_markers(
    legs: Seq<StrokeForTracking>,
    i: int,
    third_bar: usize,
    stop: Option<(usize, i64)>,
    r: i64,
    d: i64,
    buy: bool,
    order: nat,
) -> Seq<SecondPlusOneMarker>
    decreases legs.len() - i,
{
    if i < 0 || i >= legs.len() {
        Seq::empty()
    } else if legs[i].bar_index <= third_bar {
        follow_on_markers(legs, i + 1, third_bar, stop, r, d, buy, order)
    } else if stop matches Some((b, _)) && legs[i].bar_index >= b {
        Seq::empty()
    } else {
        let x = if buy {
            legs[i].low
        } else {
            legs[i].high
        };
        if (buy && r > x && x > d) || (!buy && r < x && x < d) {
            seq![SecondPlusOneMarker { bar_index: legs[i].bar_index, price: x, is_buy: buy, order: order as u32 }]
                + follow_on_markers(legs, i + 1, third_bar, stop, r, d, buy, order + 1)
        } else {
            follow_on_markers(legs, i + 1, third_bar, stop, r, d, buy, order)
        }
    }
}

/// Markers started by superior segment `k`: buy markers after a down one, sell markers
/// after an up one. `c1` holds the case 1 band points of that side, `same` the big
/// segment legs of the superior segment's direction, `other` those of the opposite one.
pub open spec fn markers_of_sup(
    sups: Seq<(usize, usize, bool)>,
    bigs: Seq<(usize, usize, bool)>,
    segs: Seq<(usize, usize, bool)>,
    strokes: Seq<Stroke>,
    c1: Seq<BandPoint>,
    same: Seq<StrokeForTracking>,
    other: Seq<StrokeForTracking>,
    buy: bool,
    k: int,
) -> Seq<SecondPlusOneMarker> {
    let sup = sups[k];
    if sup.2 == buy {
        Seq::empty()
    } else {
        match resolve_end_spec(sup.1 as int, bigs, segs, strokes) {
            None => Seq::empty(),
            Some((end_bar, end_price)) => match first_point_from(c1, end_bar, 0) {
                None => Seq::empty(),
                Some(fc) => {
                    let next = next_sup_end(sups, bigs, segs, strokes, !buy, k + 1);
                    if next matches Some((nb, _)) && fc.bar_index >= nb {
                        Seq::empty()
                    } else {
                        let third = third_leg_scan(fc, same, buy, 2);
                        if third == usize::MAX {
                            Seq::empty()
                        } else {
                            match leg_at_bar(same, third, 0) {
                                None => Seq::empty(),
                                Some(fl) => {
                                    let f = if buy {
                                        fl.low
                                    } else {
                                        fl.high
                                    };
                                    match leg_after(other, end_bar, 0, 0) {
                                        None => Seq::empty(),
                                        Some(cl) => {
                                            let c = if buy {
                                                cl.high
                                            } else {
                                                cl.low
                                            };
                                            if (buy && c > f) || (!buy && c < f) {
                                                let first = SecondPlusOneMarker {
                                                    bar_index: third,
                                                    price: f,
                                                    is_buy: buy,
                                                    order: 1,
                                                };
                                                match leg_after(other, end_bar, 1, 0) {
                                                    None => seq![first],
                                                    Some(sl) => {
                                                        let r = if buy {
                                                            min_i64(c, sl.high)
                                                        } else {
                                                            max_i64(c, sl.low)
                                                        };
                                                        seq![first] + follow_on_markers(
                                                            same,
                                                            0,
                                                            third,
                                                            next,
                                                            r,
                                                            end_price,
                                                            buy,
                                                            2,
                                                        )
                                                    },
                                                }
                                            } else {
                                                Seq::empty()
                                            }
                                        },
                                    }
                                },
                            }
                        }
                    }
                },
            },
        }
    }
}

/// Markers of the first `n` superior segments, in order.
pub open spec fn plus_markers_upto(
    sups: Seq<(usize, usize, bool)>,
    bigs: Seq<(usize, usize, bool)>,
    segs: Seq<(usize, usize, bool)>,
    strokes: Seq<Stroke>,
    c1: Seq<BandPoint>,
    same: Seq<StrokeForTracking>,
    other: Seq<StrokeForTracking>,
    buy: bool,
    n: int,
) -> Seq<SecondPlusOneMarker>
    decreases n,
{
    if n <= 0 || n > sups.len() {
        Seq::empty()
    } else {
        plus_markers_upto(sups, bigs, segs, strokes, c1, same, other, buy, n - 1) + markers_of_sup(
            sups,
            bigs,
            segs,
            strokes,
            c1,
            same,
            other,
            buy,
            n - 1,
        )
    }
}

fn first_point_exec(pts: &[BandPoint], bar: usize) -> (r: Option<BandPoint>)
    ensures
        r == first_point_from(pts@, bar, 0),
{
    let mut i: usize = 0;
    while i < pts.len()
        invariant
            i <= pts.len(),
            first_point_from(pts@, bar, 0) == first_point_from(pts@, bar, i as int),
        decreases pts.len() - i,
    {
        if pts[i].bar_index >= bar {
            return Some(pts[i]);
        }
        i = i + 1;
    }
    None
}

fn next_sup_end_exec(
    sups: &[(usize, usize, bool)],
    bigs: &[(usize, usize, bool)],
    segs: &[(usize, usize, bool)],
    strokes: &[Stroke],
    dir: bool,
    from: usize,
) -> (r: Option<(usize, i64)>)
    ensures
        r == next_sup_end(sups@, bigs@, segs@, strokes@, dir, from as int),
{
    let mut i: usize = from;
    while i < sups.len()
        invariant
            from <= i,
            next_sup_end(sups@, bigs@, segs@, strokes@, dir, from as int) == next_sup_end(
                sups@,
                bigs@,
                segs@,
                strokes@,
                dir,
                i as int,
            ),
        decreases sups.len() - i,
    {
        if sups[i].2 == dir {
            return resolve_sup_end_point(sups[i].1, bigs, segs, strokes);
        }
        i = i + 1;
    }
    None
}

fn leg_at_bar_exec(legs: &[StrokeForTracking], bar: usize) -> (r: Option<StrokeForTracking>)
    ensures
        r == leg_at_bar(legs@, bar, 0),
{
    let mut i: usize = 0;
    while i < legs.len()
        invariant
            i <= legs.len(),
            leg_at_bar(legs@, bar, 0) == leg_at_bar(legs@, bar, i as int),
        decreases legs.len() - i,
    {
        if legs[i].bar_index == bar {
            return Some(legs[i]);
        }
        i = i + 1;
    }
    None
}

fn leg_after_exec(legs: &[StrokeForTracking], bar: usize, skip: usize) -> (r: Option<StrokeForTracking>)
    ensures
        r == leg_after(legs@, bar, skip as nat, 0),
{
    let mut left: usize = skip;
    let mut i: usize = 0;
    while i < legs.len()
        invariant
            i <= legs.len(),
            leg_after(legs@, bar, skip as nat, 0) == leg_after(legs@, bar, left as nat, i as int),
        decreases legs.len() - i,
    {
        if legs[i].bar_index > bar {
            if left == 0 {
                return Some(legs[i]);
            }
            left = left - 1;
        }
        i = i + 1;
    }
    None
}

fn follow_on_exec(
    legs: &[StrokeForTracking],
    third_bar: usize,
    stop: Option<(usize, i64)>,
    r: i64,
    d: i64,
    buy: bool,
) -> (out: Vec<SecondPlusOneMarker>)
    requires
        legs.len() + 2 <= u32::MAX,
    ensures
        out@ == follow_on_markers(legs@, 0, third_bar, stop, r, d, buy, 2),
{
    let mut out: Vec<SecondPlusOneMarker> = Vec::new();
    let mut order: u32 = 2;
    let mut i: usize = 0;
    while i < legs.len()
        invariant_except_break
            i <= legs.len(),
            order <= i + 2,
            legs.len() + 2 <= u32::MAX,
            out@ + follow_on_markers(legs@, i as int, third_bar, stop, r, d, buy, order as nat)
                == follow_on_markers(legs@, 0, third_bar, stop, r, d, buy, 2),
        ensures
            out@ == follow_on_markers(legs@, 0, third_bar, stop, r, d, buy, 2),
        decreases legs.len() - i,
    {
        let x = legs[i];
        if x.bar_index > third_bar {
            match stop {
                Some((b, _)) => {
                    if x.bar_index >= b {
                        assert(out@ =~= out@ + Seq::<SecondPlusOneMarker>::empty());
                        break ;
                    }
                },
                None => {},
            }
            let v = if buy {
                x.low
            } else {
                x.high
            };
            if (buy && r > v && v > d) || (!buy && r < v && v < d) {
                let m = SecondPlusOneMarker { bar_index: x.bar_index, price: v, is_buy: buy, order };
                let ghost before = out@;
                out.push(m);
                assert(before + follow_on_markers(legs@, i as int, third_bar, stop, r, d, buy, order as nat)
                    =~= out@ + follow_on_markers(
                    legs@,
                    i + 1,
                    third_bar,
                    stop,
                    r,
                    d,
                    buy,
                    order as nat + 1,
                ));
                order = order + 1;
            }
        }
        i = i + 1;
    }
    if i >= legs.len() {
        assert(out@ =~= out@ + follow_on_markers(legs@, i as int, third_bar, stop, r, d, buy, order as nat));
    }
    out
}

fn markers_of_sup_exec(
    sups: &[(usize, usize, bool)],
    bigs: &[(usize, usize, bool)],
    segs: &[(usize, usize, bool)],
    strokes: &[Stroke],
    c1: &[BandPoint],
    same: &[StrokeForTracking],
    other: &[StrokeForTracking],
    buy: bool,
    k: usize,
) -> (r: Vec<SecondPlusOneMarker>)
    requires
        k < sups.len(),
        same.len() + 2 <= u32::MAX,
    ensures
        r@ == markers_of_sup(sups@, bigs@, segs@, strokes@, c1@, same@, other@, buy, k as int),
{
    let sup = sups[k];
    if sup.2 == buy {
        return Vec::new();
    }
    let (end_bar, end_price) = match resolve_sup_end_point(sup.1, bigs, segs, strokes) {
        Some(v) => v,
        None => return Vec::new(),
    };
    let fc = match first_point_exec(c1, end_bar) {
        Some(c) => c,
        None => return Vec::new(),
    };
    let next = next_sup_end_exec(sups, bigs, segs, strokes, !buy, k + 1);
    match next {
        Some((nb, _)) => {
            if fc.bar_index >= nb {
                return Vec::new();
            }
        },
        None => {},
    }
    let third = third_leg_exec(&fc, same, buy);
    if third == usize::MAX {
        return Vec::new();
    }
    let fl = match leg_at_bar_exec(same, third) {
        Some(l) => l,
        None => return Vec::new(),
    };
    let f = if buy {
        fl.low
    } else {
        fl.high
    };
    let cl = match leg_after_exec(other, end_bar, 0) {
        Some(l) => l,
        None => return Vec::new(),
    };
    let c = if buy {
        cl.high
    } else {
        cl.low
    };
    if !((buy && c > f) || (!buy && c < f)) {
        return Vec::new();
    }
    let mut out: Vec<SecondPlusOneMarker> = Vec::new();
    out.push(SecondPlusOneMarker { bar_index: third, price: f, is_buy: buy, order: 1 });
    match leg_after_exec(other, end_bar, 1) {
        None => {},
        Some(sl) => {
            let r = if buy {
                if c <= sl.high {
                    c
                } else {
                    sl.high
                }
            } else {
                if c >= sl.low {
                    c
                } else {
                    sl.low
                }
            };
            let mut rest = follow_on_exec(same, third, next, r, end_price, buy);
            out.append(&mut rest);
        },
    }
    out
}

fn plus_markers_exec(
    sups: &[(usize, usize, bool)],
    bigs: &[(usize, usize, bool)],
    segs: &[(usize, usize, bool)],
    strokes: &[Stroke],
    c1: &[BandPoint],
    same: &[StrokeForTracking],
    other: &[StrokeForTracking],
    buy: bool,
) -> (r: Vec<SecondPlusOneMarker>)
    requires
        same.len() + 2 <= u32::MAX,
    ensures
        r@ == plus_markers_upto(
            sups@,
            bigs@,
            segs@,
            strokes@,
            c1@,
            same@,
            other@,
            buy,
            sups@.len() as int,
        ),
{
    let mut out: Vec<SecondPlusOneMarker> = Vec::new();
    let mut k: usize = 0;
    while k < sups.len()
        invariant
            k <= sups.len(),
            same.len() + 2 <= u32::MAX,
            out@ == plus_markers_upto(
                sups@,
                bigs@,
                segs@,
                strokes@,
                c1@,
                same@,
                other@,
                buy,
                k as int,
            ),
        decreases sups.len() - k,
    {
        let mut ms = markers_of_sup_exec(sups, bigs, segs, strokes, c1, same, other, buy, k);
        out.append(&mut ms);
        k = k + 1;
    }
    out
}

/// 2+N buy markers after each down superior segment (see the module documentation);
/// `down_big` and `up_big` are the down and up big segment legs, `bigseg_lower_c1` the
/// case 1 lower band points of the big segments.
pub fn detect_bigseg_cf_buy_markers(
    sups: &[(usize, usize, bool)],
    bigs: &[(usize, usize, bool)],
    segs: &[(usize, usize, bool)],
    strokes: &[Stroke],
    bigseg_lower_c1: &[BandPoint],
    down_big: &[StrokeForTracking],
    up_big: &[StrokeForTracking],
) -> (r: Vec<SecondPlusOneMarker>)
    requires
        down_big.len() + 2 <= u32::MAX,
    ensures
        r@ == plus_markers_upto(
            sups@,
            bigs@,
            segs@,
            strokes@,
            bigseg_lower_c1@,
            down_big@,
            up_big@,
            true,
            sups@.len() as int,
        ),
{
    plus_markers_exec(sups, bigs, segs, strokes, bigseg_lower_c1, down_big, up_big, true)
}

/// 2+N sell markers after each up superior segment (mirror of
/// [`detect_bigseg_cf_buy_markers`]).
pub fn detect_bigseg_cf_sell_markers(
    sups: &[(usize, usize, bool)],
    bigs: &[(usize, usize, bool)],
    segs: &[(usize, usize, bool)],
    strokes: &[Stroke],
    bigseg_upper_c1: &[BandPoint],
    up_big: &[StrokeForTracking],
    down_big: &[StrokeForTracking],
) -> (r: Vec<SecondPlusOneMarker>)
    requires
        up_big.len() + 2 <= u32::MAX,
    ensures
        r@ == plus_markers_upto(
            sups@,
            bigs@,
            segs@,
            strokes@,
            bigseg_upper_c1@,
            up_big@,
            down_big@,
            false,
            sups@.len() as int,
        ),
{
    plus_markers_exec(sups, bigs, segs, strokes, bigseg_upper_c1, up_big, down_big, false)
}

// ===== Retreat filter =====

/// The three marker lists after the retreat filter.
pub struct RetreatFilterResult {
    pub second_markers: Vec<SecondMarker>,
    pub third_markers: Vec<BigSegThirdMarker>,
    pub plus_markers: Vec<SecondPlusOneMarker>,
}

/// Bar range of a superior segment: from its first stroke's start to its end.
pub open spec fn sup_range_spec(
    sup: (usize, usize, bool),
    bigs: Seq<(usize, usize, bool)>,
    segs: Seq<(usize, usize, bool)>,
    strokes: Seq<Stroke>,
) -> Option<(usize, usize)> {
    if sup.0 < bigs.len() && bigs[sup.0 as int].0 < segs.len() && segs[bigs[sup.0 as int].0 as int].0
        < strokes.len() {
        match resolve_end_spec(sup.1 as int, bigs, segs, strokes) {
            Some((end_bar, _)) => Some(
                (strokes[segs[bigs[sup.0 as int].0 as int].0 as int].start_bar, end_bar),
            ),
            None => None,
        }
    } else {
        None
    }
}

fn sup_range(
    sup: (usize, usize, bool),
    bigs: &[(usize, usize, bool)],
    segs: &[(usize, usize, bool)],
    strokes: &[Stroke],
) -> (r: Option<(usize, usize)>)
    ensures
        r == sup_range_spec(sup, bigs@, segs@, strokes@),
{
    let (sb, eb, _) = sup;
    if sb >= bigs.len() {
        return None;
    }
    let big = bigs[sb];
    if big.0 >= segs.len() {
        return None;
    }
    let seg = segs[big.0];
    if seg.0 >= strokes.len() {
        return None;
    }
    let start_bar = strokes[seg.0].start_bar;
    match resolve_sup_end_point(eb, bigs, segs, strokes) {
        Some((end_bar, _)) => Some((start_bar, end_bar)),
        None => None,
    }
}

/// The larger of two optional bars.
pub open spec fn opt_max(a: Option<usize>, b: Option<usize>) -> Option<usize> {
    match (a, b) {
        (Some(x), Some(y)) => Some(if x >= y { x } else { y }),
        (Some(x), None) => Some(x),
        (None, _) => b,
    }
}

fn opt_max_exec(a: Option<usize>, b: Option<usize>) -> (r: Option<usize>)
    ensures
        r == opt_max(a, b),
{
    match (a, b) {
        (Some(x), Some(y)) => Some(if x >= y { x } else { y }),
        (Some(x), None) => Some(x),
        (None, _) => b,
    }
}

/// The three marker lists.
pub struct RetreatState {
    pub second: Seq<SecondMarker>,
    pub third: Seq<BigSegThirdMarker>,
    pub plus: Seq<SecondPlusOneMarker>,
}

/// Latest bar, among the first `n` markers of side `buy`, within `lo..=hi`.
pub open spec fn latest_second(ms: Seq<SecondMarker>, buy: bool, lo: usize, hi: usize, n: int) -> Option<usize>
    decreases n,
{
    if n <= 0 || n > ms.len() {
        None
    } else {
        let m = ms[n - 1];
        opt_max(
            latest_second(ms, buy, lo, hi, n - 1),
            if m.is_buy == buy && lo <= m.bar_index && m.bar_index <= hi {
                Some(m.bar_index)
            } else {
                None
            },
        )
    }
}

/// The first `n` markers without those of side `buy` after `keep_to` up to `cut`.
pub open spec fn kept_second(ms: Seq<SecondMarker>, buy: bool, keep_to: usize, cut: usize, n: int) -> Seq<SecondMarker>
    decreases n,
{
    if n <= 0 || n > ms.len() {
        Seq::empty()
    } else {
        let r = kept_second(ms, buy, keep_to, cut, n - 1);
        let m = ms[n - 1];
        if m.is_buy != buy || m.bar_index <= keep_to || m.bar_index > cut {
            r.push(m)
        } else {
            r
        }
    }
}

fn latest_second_exec(ms: &Vec<SecondMarker>, buy: bool, lo: usize, hi: usize) -> (r: Option<usize>)
    ensures
        r == latest_second(ms@, buy, lo, hi, ms@.len() as int),
{
    let mut best: Option<usize> = None;
    let mut i: usize = 0;
    while i < ms.len()
        invariant
            i <= ms.len(),
            best == latest_second(ms@, buy, lo, hi, i as int),
        decreases ms.len() - i,
    {
        let m = ms[i];
        let here = if m.is_buy == buy && lo <= m.bar_index && m.bar_index <= hi {
            Some(m.bar_index)
        } else {
            None
        };
        best = opt_max_exec(best, here);
        i = i + 1;
    }
    best
}

fn kept_second_exec(ms: Vec<SecondMarker>, buy: bool, keep_to: usize, cut: usize) -> (r: Vec<SecondMarker>)
    ensures
        r@ == kept_second(ms@, buy, keep_to, cut, ms@.len() as int),
{
    let mut out: Vec<SecondMarker> = Vec::new();
    let mut i: usize = 0;
    while i < ms.len()
        invariant
            i <= ms.len(),
            out@ == kept_second(ms@, buy, keep_to, cut, i as int),
        decreases ms.len() - i,
    {
        let m = ms[i];
        if m.is_buy != buy || m.bar_index <= keep_to || m.bar_index > cut {
            out.push(m);
        }
        i = i + 1;
    }
    out
}

/// Latest bar, among the first `n` markers of side `buy`, within `lo..=hi`.
pub open spec fn latest_third(ms: Seq<BigSegThirdMarker>, buy: bool, lo: usize, hi: usize, n: int) -> Option<usize>
    decreases n,
{
    if n <= 0 || n > ms.len() {
        None
    } else {
        let m = ms[n - 1];
        opt_max(
            latest_third(ms, buy, lo, hi, n - 1),
            if m.is_buy == buy && lo <= m.bar_index && m.bar_index <= hi {
                Some(m.bar_index)
            } else {
                None
            },
        )
    }
}

/// The first `n` markers without those of side `buy` after `keep_to` up to `cut`.
pub open spec fn kept_third(ms: Seq<BigSegThirdMarker>, buy: bool, keep_to: usize, cut: usize, n: int) -> Seq<BigSegThirdMarker>
    decreases n,
{
    if n <= 0 || n > ms.len() {
        Seq::empty()
    } else {
        let r = kept_third(ms, buy, keep_to, cut, n - 1);
        let m = ms[n - 1];
        if m.is_buy != buy || m.bar_index <= keep_to || m.bar_index > cut {
            r.push(m)
        } else {
            r
        }
    }
}

fn latest_third_exec(ms: &Vec<BigSegThirdMarker>, buy: bool, lo: usize, hi: usize) -> (r: Option<usize>)
    ensures
        r == latest_third(ms@, buy, lo, hi, ms@.len() as int),
{
    let mut best: Option<usize> = None;
    let mut i: usize = 0;
    while i < ms.len()
        invariant
            i <= ms.len(),
            best == latest_third(ms@, buy, lo, hi, i as int),
        decreases ms.len() - i,
    {
        let m = ms[i];
        let here = if m.is_buy == buy && lo <= m.bar_index && m.bar_index <= hi {
            Some(m.bar_index)
        } else {
            None
        };
        best = opt_max_exec(best, here);
        i = i + 1;
    }
    best
}

fn kept_third_exec(ms: Vec<BigSegThirdMarker>, buy: bool, keep_to: usize, cut: usize) -> (r: Vec<BigSegThirdMarker>)
    ensures
        r@ == kept_third(ms@, buy, keep_to, cut, ms@.len() as int),
{
    let mut out: Vec<BigSegThirdMarker> = Vec::new();
    let mut i: usize = 0;
    while i < ms.len()
        invariant
            i <= ms.len(),
            out@ == kept_third(ms@, buy, keep_to, cut, i as int),
        decreases ms.len() - i,
    {
        let m = ms[i];
        if m.is_buy != buy || m.bar_index <= keep_to || m.bar_index > cut {
            out.push(m);
        }
        i = i + 1;
    }
    out
}

/// Latest bar, among the first `n` markers of side `buy`, within `lo..=hi`.
pub open spec fn latest_plus(ms: Seq<SecondPlusOneMarker>, buy: bool, lo: usize, hi: usize, n: int) -> Option<usize>
    decreases n,
{
    if n <= 0 || n > ms.len() {
        None
    } else {
        let m = ms[n - 1];
        opt_max(
            latest_plus(ms, buy, lo, hi, n - 1),
            if m.is_buy == buy && lo <= m.bar_index && m.bar_index <= hi {
                Some(m.bar_index)
            } else {
                None
            },
        )
    }
}

/// The first `n` markers without those of side `buy` after `keep_to` up to `cut`.
pub open spec fn kept_plus(ms: Seq<SecondPlusOneMarker>, buy: bool, keep_to: usize, cut: usize, n: int) -> Seq<SecondPlusOneMarker>
    decreases n,
{
    if n <= 0 || n > ms.len() {
        Seq::empty()
    } else {
        let r = kept_plus(ms, buy, keep_to, cut, n - 1);
        let m = ms[n - 1];
        if m.is_buy != buy || m.bar_index <= keep_to || m.bar_index > cut {
            r.push(m)
        } else {
            r
        }
    }
}

fn latest_plus_exec(ms: &Vec<SecondPlusOneMarker>, buy: bool, lo: usize, hi: usize) -> (r: Option<usize>)
    ensures
        r == latest_plus(ms@, buy, lo, hi, ms@.len() as int),
{
    let mut best: Option<usize> = None;
    let mut i: usize = 0;
    while i < ms.len()
        invariant
            i <= ms.len(),
            best == latest_plus(ms@, buy, lo, hi, i as int),
        decreases ms.len() - i,
    {
        let m = ms[i];
        let here = if m.is_buy == buy && lo <= m.bar_index && m.bar_index <= hi {
            Some(m.bar_index)
        } else {
            None
        };
        best = opt_max_exec(best, here);
        i = i + 1;
    }
    best
}

fn kept_plus_exec(ms: Vec<SecondPlusOneMarker>, buy: bool, keep_to: usize, cut: usize) -> (r: Vec<SecondPlusOneMarker>)
    ensures
        r@ == kept_plus(ms@, buy, keep_to, cut, ms@.len() as int),
{
    let mut out: Vec<SecondPlusOneMarker> = Vec::new();
    let mut i: usize = 0;
    while i < ms.len()
        invariant
            i <= ms.len(),
            out@ == kept_plus(ms@, buy, keep_to, cut, i as int),
        decreases ms.len() - i,
    {
        let m = ms[i];
        if m.is_buy != buy || m.bar_index <= keep_to || m.bar_index > cut {
            out.push(m);
        }
        i = i + 1;
    }
    out
}

/// One retreat event, superior segment `i` (> 0) confirmed: on side `buy` (for a down
/// superior segment) or sell (for an up one), markers after the latest one inside the
/// previous superior segment's range (or after that range when it holds none), up to the
/// confirmed segment's own end, are withdrawn.
pub open spec fn retreat_step(
    sups: Seq<(usize, usize, bool)>,
    bigs: Seq<(usize, usize, bool)>,
    segs: Seq<(usize, usize, bool)>,
    strokes: Seq<Stroke>,
    st: RetreatState,
    buy: bool,
    i: int,
) -> RetreatState {
    if i < 1 || i >= sups.len() || sups[i].2 == buy {
        st
    } else {
        match sup_range_spec(sups[i - 1], bigs, segs, strokes) {
            None => st,
            Some((sb, eb)) => {
                let latest = opt_max(
                    opt_max(
                        latest_second(st.second, buy, sb, eb, st.second.len() as int),
                        latest_third(st.third, buy, sb, eb, st.third.len() as int),
                    ),
                    latest_plus(st.plus, buy, sb, eb, st.plus.len() as int),
                );
                let keep_to = match latest {
                    Some(x) => x,
                    None => eb,
                };
                let cut = match sup_range_spec(sups[i], bigs, segs, strokes) {
                    Some((_, e)) => e,
                    None => usize::MAX,
                };
                RetreatState {
                    second: kept_second(st.second, buy, keep_to, cut, st.second.len() as int),
                    third: kept_third(st.third, buy, keep_to, cut, st.third.len() as int),
                    plus: kept_plus(st.plus, buy, keep_to, cut, st.plus.len() as int),
                }
            },
        }
    }
}

/// Retreat events of side `buy` for superior segments `1..n`, in order.
pub open spec fn retreat_upto(
    sups: Seq<(usize, usize, bool)>,
    bigs: Seq<(usize, usize, bool)>,
    segs: Seq<(usize, usize, bool)>,
    strokes: Seq<Stroke>,
    st: RetreatState,
    buy: bool,
    n: int,
) -> RetreatState
    decreases n,
{
    if n <= 1 {
        st
    } else {
        retreat_step(sups, bigs, segs, strokes, retreat_upto(sups, bigs, segs, strokes, st, buy, n - 1), buy, n - 1)
    }
}

/// The retreat filter: every buy event (down superior segments) in order, then every sell
/// event (up superior segments) in order.
pub open spec fn retreat_spec(
    sups: Seq<(usize, usize, bool)>,
    bigs: Seq<(usize, usize, bool)>,
    segs: Seq<(usize, usize, bool)>,
    strokes: Seq<Stroke>,
    st: RetreatState,
) -> RetreatState {
    let after_buy = retreat_upto(sups, bigs, segs, strokes, st, true, sups.len() as int);
    retreat_upto(sups, bigs, segs, strokes, after_buy, false, sups.len() as int)
}

fn retreat_pass(
    sups: &[(usize, usize, bool)],
    bigs: &[(usize, usize, bool)],
    segs: &[(usize, usize, bool)],
    strokes: &[Stroke],
    second_in: Vec<SecondMarker>,
    third_in: Vec<BigSegThirdMarker>,
    plus_in: Vec<SecondPlusOneMarker>,
    buy: bool,
) -> (r: (Vec<SecondMarker>, Vec<BigSegThirdMarker>, Vec<SecondPlusOneMarker>))
    ensures
        ({
            let st = retreat_upto(
                sups@,
                bigs@,
                segs@,
                strokes@,
                RetreatState { second: second_in@, third: third_in@, plus: plus_in@ },
                buy,
                sups@.len() as int,
            );
            r.0@ == st.second && r.1@ == st.third && r.2@ == st.plus
        }),
{
    let ghost st0 = RetreatState { second: second_in@, third: third_in@, plus: plus_in@ };
    let mut second = second_in;
    let mut third = third_in;
    let mut plus = plus_in;
    if sups.len() <= 1 {
        return (second, third, plus);
    }
    let mut i: usize = 1;
    while i < sups.len()
        invariant
            1 <= i <= sups.len(),
            ({
                let st = retreat_upto(sups@, bigs@, segs@, strokes@, st0, buy, i as int);
                second@ == st.second && third@ == st.third && plus@ == st.plus
            }),
        decreases sups.len() - i,
    {
        if sups[i].2 != buy {
            match sup_range(sups[i - 1], bigs, segs, strokes) {
                None => {},
                Some((sb, eb)) => {
                    let l2 = latest_second_exec(&second, buy, sb, eb);
                    let l3 = latest_third_exec(&third, buy, sb, eb);
                    let lp = latest_plus_exec(&plus, buy, sb, eb);
                    let latest = opt_max_exec(opt_max_exec(l2, l3), lp);
                    let keep_to = match latest {
                        Some(x) => x,
                        None => eb,
                    };
                    let cut = match sup_range(sups[i], bigs, segs, strokes) {
                        Some((_, e)) => e,
                        None => usize::MAX,
                    };
                    second = kept_second_exec(second, buy, keep_to, cut);
                    third = kept_third_exec(third, buy, keep_to, cut);
                    plus = kept_plus_exec(plus, buy, keep_to, cut);
                },
            }
        }
        i = i + 1;
    }
    (second, third, plus)
}

/// Retreat filter: each confirmed down superior segment withdraws the buy markers
/// (second, third and 2+N) after the latest one inside the previous up superior segment's
/// range, up to its own end (after the range when it holds none); each confirmed up
/// superior segment does the same to sell markers. Events apply in order, buys first.
pub fn apply_sup_retreat_filter(
    sups: &[(usize, usize, bool)],
    bigs: &[(usize, usize, bool)],
    segs: &[(usize, usize, bool)],
    strokes: &[Stroke],
    second_markers: Vec<SecondMarker>,
    third_markers: Vec<BigSegThirdMarker>,
    plus_markers: Vec<SecondPlusOneMarker>,
) -> (r: RetreatFilterResult)
    ensures
        ({
            let st = retreat_spec(
                sups@,
                bigs@,
                segs@,
                strokes@,
                RetreatState { second: second_markers@, third: third_markers@, plus: plus_markers@ },
            );
            r.second_markers@ == st.second && r.third_markers@ == st.third && r.plus_markers@
                == st.plus
        }),
{
    let (s2, s3, sp) = retreat_pass(
        sups,
        bigs,
        segs,
        strokes,
        second_markers,
        third_markers,
        plus_markers,
        true,
    );
    let (s2, s3, sp) = retreat_pass(sups, bigs, segs, strokes, s2, s3, sp, false);
    RetreatFilterResult { second_markers: s2, third_markers: s3, plus_markers: sp }
}

} // verus!
